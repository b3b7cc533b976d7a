//! Failure-detection strategies.
use vstd::prelude::*;

use crate::clock::Tick;
use crate::node::NodeId;

pub mod fixed_timeout;
pub mod gossip;
pub mod history;

verus! {

/// What a gossip-capable detector hands the engine at the start of a gossip round.
#[derive(Debug, Clone)]
pub struct GossipOffer {
    /// The nodes this detector currently suspects on its own.
    pub suspicions: Vec<NodeId>,
    /// Ticks between gossip rounds.
    pub interval: Tick,
    /// Number of random peers to gossip with each round.
    pub fanout: u32,
}

/// Trait that all failure-detection strategies implement; users may add their own.
///
/// The engine calls `on_heartbeat` when a heartbeat message arrives and
/// `on_tick` on every detector-tick event, then asks `suspected_nodes` which
/// nodes the detector currently considers failed. An implementation may say,
/// by `heard`, `noted`, `ticked`, `reports` and `offers`, what taking in a
/// heartbeat, a piece of gossip evidence or a check does to it and what it
/// answers; nothing is promised of the other answers, and the
/// engine's contracts hold for every answer.
pub trait FailureDetector: Sized {
    /// The continuous suspicion level that accrual detectors report (for the
    /// optional suspicion-level timeline); detectors without one never produce it.
    type Level;

    /// Whether this detector and `other` are in the same state, as far as
    /// the implementation tells; one that does not say compares the values.
    open spec fn agrees_with(&self, other: &Self) -> bool {
        *self == *other
    }

    /// Whether `post` is this detector after it records a heartbeat from
    /// `from` at tick `tick`; an implementation that does not say promises nothing.
    open spec fn heard(&self, post: &Self, from: NodeId, tick: Tick) -> bool {
        true
    }

    /// Whether `post` is this detector after its periodic check at `tick`; an
    /// implementation that does not say promises nothing.
    open spec fn ticked(&self, post: &Self, tick: Tick) -> bool {
        true
    }

    /// Whether `list` is what this detector answers when asked which nodes it
    /// suspects; an implementation that does not say promises nothing.
    open spec fn reports(&self, list: Seq<NodeId>) -> bool {
        true
    }

    /// Whether `offer` is what this detector hands out for a gossip round; an
    /// implementation that does not say promises nothing.
    open spec fn offers(&self, offer: Option<GossipOffer>) -> bool {
        true
    }

    /// Whether `post` is this detector after it takes in gossip evidence that
    /// `source` suspects `suspected`; an implementation that does not say
    /// promises nothing.
    open spec fn noted(&self, post: &Self, suspected: NodeId, source: NodeId) -> bool {
        true
    }

    /// Called when a heartbeat from `from` arrives at tick `tick`.
    fn on_heartbeat(&mut self, from: NodeId, tick: Tick)
        ensures
            old(self).heard(final(self), from, tick),
    ;

    /// Called periodically to let the detector update internal state.
    fn on_tick(&mut self, tick: Tick)
        ensures
            old(self).ticked(final(self), tick),
    ;

    /// The nodes currently suspected as failed.
    fn suspected_nodes(&self) -> (r: Vec<NodeId>)
        ensures
            self.reports(r@),
    ;

    /// The current suspicion level for `node`, for detectors that compute one;
    /// detectors without one answer `None`.
    fn phi_for_node(&self, node: NodeId) -> (r: Option<Self::Level>)
        default_ensures
            r is None,
    {
        None
    }

    /// For gossip-assisted detectors: what to disseminate this round.
    /// Detectors that do not gossip answer `None`.
    fn gossip_offer(&self) -> (r: Option<GossipOffer>)
        ensures
            self.offers(r),
    ;

    /// Gossip evidence that `source` suspects `suspected`; detectors that do
    /// not gossip ignore it.
    fn on_remote_suspicion(&mut self, suspected: NodeId, source: NodeId)
        ensures
            old(self).noted(final(self), suspected, source),
    ;
}

/// Two offers alike: both none, or both some with the same suspicions,
/// round length and fanout.
pub open spec fn offers_alike(a: Option<GossipOffer>, b: Option<GossipOffer>) -> bool {
    match (a, b) {
        (None, None) => true,
        (Some(x), Some(y)) => x.suspicions@ == y.suspicions@ && x.interval == y.interval && x.fanout == y.fanout,
        _ => false,
    }
}

/// Whether detectors of type `D` behave as functions of their state: from
/// agreeing states, a heartbeat, a check or a piece of gossip evidence leads
/// to agreeing states, and the suspected list and the gossip offer are the same.
pub open spec fn deterministic_detectors<D: FailureDetector>() -> bool {
    &&& forall|d: D| #[trigger] d.agrees_with(&d)
    &&& forall|d1: D, d2: D, p1: D, p2: D, from: NodeId, tick: Tick|
        #![trigger d1.heard(&p1, from, tick), d2.heard(&p2, from, tick)]
        d1.agrees_with(&d2) && d1.heard(&p1, from, tick) && d2.heard(&p2, from, tick) ==> p1.agrees_with(&p2)
    &&& forall|d1: D, d2: D, p1: D, p2: D, tick: Tick|
        #![trigger d1.ticked(&p1, tick), d2.ticked(&p2, tick)]
        d1.agrees_with(&d2) && d1.ticked(&p1, tick) && d2.ticked(&p2, tick) ==> p1.agrees_with(&p2)
    &&& forall|d1: D, d2: D, p1: D, p2: D, sus: NodeId, source: NodeId|
        #![trigger d1.noted(&p1, sus, source), d2.noted(&p2, sus, source)]
        d1.agrees_with(&d2) && d1.noted(&p1, sus, source) && d2.noted(&p2, sus, source) ==> p1.agrees_with(&p2)
    &&& forall|d1: D, d2: D, l1: Seq<NodeId>, l2: Seq<NodeId>|
        #![trigger d1.reports(l1), d2.reports(l2)]
        d1.agrees_with(&d2) && d1.reports(l1) && d2.reports(l2) ==> l1 == l2
    &&& forall|d1: D, d2: D, o1: Option<GossipOffer>, o2: Option<GossipOffer>|
        #![trigger d1.offers(o1), d2.offers(o2)]
        d1.agrees_with(&d2) && d1.offers(o1) && d2.offers(o2) ==> offers_alike(o1, o2)
}

} // verus!
