use vstd::prelude::*;

use crate::clock::{Clock, Tick};
use crate::detector::{deterministic_detectors, offers_alike, FailureDetector, GossipOffer};
use crate::event::{all_due_from, earliest, lemma_earliest, Event, EventKind, EventQueue};
use crate::metrics::{DetectionEvent, MetricsCollector, PhiLogEntry};
use crate::network::{delivery, Network};
use crate::node::{Node, NodeId, NodeState};
use crate::node_map::{copy_ids, ids_contain};
use crate::random::{order_drawn, Draw, Generator};

verus! {

/// Whether no two nodes share an id.
pub open spec fn ids_distinct(nodes: Seq<Node>) -> bool {
    forall|i: int, j: int| 0 <= i < nodes.len() && 0 <= j < nodes.len() && i != j ==> nodes[i].id != nodes[j].id
}

/// Whether a node with id `id` exists.
pub open spec fn has_node(nodes: Seq<Node>, id: NodeId) -> bool {
    exists|i: int| 0 <= i < nodes.len() && #[trigger] nodes[i].id == id
}

/// The position of node `id` (meaningful when it exists).
pub open spec fn node_pos(nodes: Seq<Node>, id: NodeId) -> int {
    choose|i: int| 0 <= i < nodes.len() && #[trigger] nodes[i].id == id
}

/// Whether node `id` exists and is alive.
pub open spec fn alive_in(nodes: Seq<Node>, id: NodeId) -> bool {
    has_node(nodes, id) && nodes[node_pos(nodes, id)].state == NodeState::Alive
}

/// Whether node `id` exists and has crashed.
pub open spec fn crashed_in(nodes: Seq<Node>, id: NodeId) -> bool {
    has_node(nodes, id) && nodes[node_pos(nodes, id)].state == NodeState::Crashed
}

/// Two node lists that differ at most in the nodes' states.
pub open spec fn same_layout(a: Seq<Node>, b: Seq<Node>) -> bool {
    &&& a.len() == b.len()
    &&& forall|i: int| 0 <= i < a.len() ==> (#[trigger] a[i]).id == b[i].id && a[i].peers == b[i].peers
        && a[i].heartbeat_interval == b[i].heartbeat_interval && a[i].detector_interval
        == b[i].detector_interval
}

/// The tick of the latest crash of `id` in `crashes`, if any.
pub open spec fn last_crash(crashes: Seq<(Tick, NodeId)>, id: NodeId) -> Option<Tick>
    decreases crashes.len(),
{
    if crashes.len() == 0 {
        None
    } else if crashes.last().1 == id {
        Some(crashes.last().0)
    } else {
        last_crash(crashes.drop_last(), id)
    }
}

/// Every recorded crash happened at or before `now`.
pub open spec fn crashes_before(crashes: Seq<(Tick, NodeId)>, now: Tick) -> bool {
    forall|j: int| 0 <= j < crashes.len() ==> (#[trigger] crashes[j]).0 <= now
}

/// The detection that `observer`'s suspicion of `id` at `tick` records: a true
/// positive exactly when `id` is a crashed node, with the time since its
/// latest recorded crash as latency.
pub open spec fn detection_for(nodes: Seq<Node>, crashes: Seq<(Tick, NodeId)>, tick: Tick, id: NodeId) -> DetectionEvent {
    let crashed = crashed_in(nodes, id);
    DetectionEvent {
        tick,
        node: id,
        true_positive: crashed,
        latency: if crashed {
            match last_crash(crashes, id) {
                Some(ct) => Some((tick - ct) as u64),
                None => None,
            }
        } else {
            None
        },
    }
}

/// `last_crash` finds the crash of `id` that is recorded last: when it gives
/// a tick, that crash of `id` is in the list and no crash of `id` follows it;
/// when it gives none, no crash of `id` is recorded.
pub proof fn lemma_last_crash_is_latest(crashes: Seq<(Tick, NodeId)>, id: NodeId)
    ensures
        last_crash(crashes, id) matches Some(t) ==> exists|j: int|
            0 <= j < crashes.len() && #[trigger] crashes[j] == (t, id) && forall|k: int|
                j < k < crashes.len() ==> (#[trigger] crashes[k]).1 != id,
        last_crash(crashes, id) is None ==> forall|j: int| 0 <= j < crashes.len() ==> (#[trigger] crashes[j]).1 != id,
    decreases crashes.len(),
{
    if crashes.len() > 0 {
        let p = crashes.drop_last();
        lemma_last_crash_is_latest(p, id);
        let n = crashes.len() - 1;
        if crashes.last().1 == id {
            assert(crashes[n] == (crashes.last().0, id));
        } else {
            match last_crash(p, id) {
                Some(t) => {
                    let j = choose|j: int|
                        0 <= j < p.len() && #[trigger] p[j] == (t, id) && forall|k: int|
                            j < k < p.len() ==> (#[trigger] p[k]).1 != id;
                    assert(crashes[j] == (t, id));
                    assert forall|k: int| j < k < crashes.len() implies (#[trigger] crashes[k]).1 != id by {
                        if k < n {
                            assert(crashes[k] == p[k]);
                        }
                    }
                },
                None => {
                    assert forall|j: int| 0 <= j < crashes.len() implies (#[trigger] crashes[j]).1 != id by {
                        if j < n {
                            assert(crashes[j] == p[j]);
                        }
                    }
                },
            }
        }
    }
}

/// A detection's latency counts from its node's most recent recorded crash:
/// a detection at `tick` with latency `l` has a crash of its node recorded at
/// `tick - l`, and no crash of that node is recorded after that one; a true
/// positive of a node with a recorded crash always has a latency, and a false
/// positive never does.
pub proof fn law_latency_from_latest_crash(nodes: Seq<Node>, crashes: Seq<(Tick, NodeId)>, tick: Tick, id: NodeId)
    requires
        crashes_before(crashes, tick),
    ensures
        detection_for(nodes, crashes, tick, id).latency matches Some(l) ==> exists|j: int|
            0 <= j < crashes.len() && #[trigger] crashes[j] == ((tick - l) as u64, id) && forall|k: int|
                j < k < crashes.len() ==> (#[trigger] crashes[k]).1 != id,
        detection_for(nodes, crashes, tick, id).true_positive && (exists|j: int|
            0 <= j < crashes.len() && (#[trigger] crashes[j]).1 == id) ==> detection_for(nodes, crashes, tick, id).latency is Some,
        !detection_for(nodes, crashes, tick, id).true_positive ==> detection_for(nodes, crashes, tick, id).latency is None,
        detection_for(nodes, crashes, tick, id).tick == tick,
        detection_for(nodes, crashes, tick, id).node == id,
        ids_distinct(nodes) ==> (detection_for(nodes, crashes, tick, id).true_positive <==> exists|k: int|
            0 <= k < nodes.len() && (#[trigger] nodes[k]).id == id && nodes[k].state == NodeState::Crashed),
{
    lemma_last_crash_is_latest(crashes, id);
    if ids_distinct(nodes) {
        if exists|k: int| 0 <= k < nodes.len() && (#[trigger] nodes[k]).id == id && nodes[k].state == NodeState::Crashed {
            let k = choose|k: int| 0 <= k < nodes.len() && (#[trigger] nodes[k]).id == id && nodes[k].state == NodeState::Crashed;
            assert(has_node(nodes, id));
            assert(node_pos(nodes, id) == k);
        }
    }
    if let Some(t) = last_crash(crashes, id) {
        let j = choose|j: int|
            0 <= j < crashes.len() && #[trigger] crashes[j] == (t, id) && forall|k: int|
                j < k < crashes.len() ==> (#[trigger] crashes[k]).1 != id;
        assert(crashes[j].0 <= tick);
    }
}

/// Walking a suspicion list `s` of `observer` in order: the pairs that are
/// active afterwards, and the suspected ids that were new (not already active).
pub open spec fn fold_suspicions(active: Set<(NodeId, NodeId)>, observer: NodeId, s: Seq<NodeId>) -> (Set<(NodeId, NodeId)>, Seq<NodeId>)
    decreases s.len(),
{
    if s.len() == 0 {
        (active, Seq::empty())
    } else {
        let (a, fresh) = fold_suspicions(active, observer, s.drop_last());
        let x = s.last();
        if a.contains((observer, x)) {
            (a, fresh)
        } else {
            (a.insert((observer, x)), fresh.push(x))
        }
    }
}

/// The pairs of `observer` with each node in `s`.
pub open spec fn pairs_from(observer: NodeId, s: Seq<NodeId>) -> Set<(NodeId, NodeId)> {
    Set::new(|p: (NodeId, NodeId)| p.0 == observer && s.contains(p.1))
}

/// A suspicion list reports each suspected node at most once, only when its
/// pair is not already active, and leaves every pair of the list active.
pub proof fn law_fresh_suspicions(active: Set<(NodeId, NodeId)>, observer: NodeId, s: Seq<NodeId>)
    ensures
        fold_suspicions(active, observer, s).1.no_duplicates(),
        forall|x: NodeId| #[trigger] fold_suspicions(active, observer, s).1.contains(x) ==> !active.contains(
            (observer, x),
        ) && s.contains(x),
        forall|x: NodeId| s.contains(x) && !active.contains((observer, x)) ==> #[trigger] fold_suspicions(
            active,
            observer,
            s,
        ).1.contains(x),
        fold_suspicions(active, observer, s).0 == active + pairs_from(observer, s),
    decreases s.len(),
{
    if s.len() > 0 {
        let p = s.drop_last();
        law_fresh_suspicions(active, observer, p);
        let (a, fresh) = fold_suspicions(active, observer, p);
        let x = s.last();
        assert(s == p.push(x));
        assert forall|y: NodeId| #[trigger] s.contains(y) <==> (p.contains(y) || y == x) by {
            if s.contains(y) {
                let k = choose|k: int| 0 <= k < s.len() && s[k] == y;
                if k < p.len() {
                    assert(p[k] == y);
                }
            }
            if p.contains(y) {
                let k = choose|k: int| 0 <= k < p.len() && p[k] == y;
                assert(s[k] == y);
            }
            if y == x {
                assert(s[s.len() - 1] == x);
            }
        }
        assert(pairs_from(observer, s) =~= pairs_from(observer, p).insert((observer, x)));
        if !a.contains((observer, x)) {
            let f2 = fresh.push(x);
            assert forall|y: NodeId| #[trigger] f2.contains(y) <==> (fresh.contains(y) || y == x) by {
                if f2.contains(y) {
                    let k = choose|k: int| 0 <= k < f2.len() && f2[k] == y;
                    if k < fresh.len() {
                        assert(fresh[k] == y);
                    }
                }
                if fresh.contains(y) {
                    let k = choose|k: int| 0 <= k < fresh.len() && fresh[k] == y;
                    assert(f2[k] == y);
                }
                if y == x {
                    assert(f2[f2.len() - 1] == x);
                }
            }
            assert(!fresh.contains(x));
            assert(f2.no_duplicates()) by {
                assert forall|i: int, j: int| 0 <= i < f2.len() && 0 <= j < f2.len() && i != j implies f2[i] != f2[j] by {
                    if i < fresh.len() && j < fresh.len() {
                        assert(fresh[i] == f2[i] && fresh[j] == f2[j]);
                    } else if i < fresh.len() {
                        assert(fresh[i] == f2[i]);
                        assert(fresh.contains(f2[i]));
                    } else if j < fresh.len() {
                        assert(fresh[j] == f2[j]);
                        assert(fresh.contains(f2[j]));
                    }
                }
            }
        }
    } else {
        assert(pairs_from(observer, s) =~= Set::<(NodeId, NodeId)>::empty());
    }
}

/// The active pairs after `observer`'s suspicions are narrowed to the ids in `current`.
pub open spec fn narrowed(active: Set<(NodeId, NodeId)>, observer: NodeId, current: Seq<NodeId>) -> Set<(NodeId, NodeId)> {
    active.filter(|p: (NodeId, NodeId)| p.0 != observer || current.contains(p.1))
}

/// `nodes` with node `id` (if present) put in state `st`.
pub open spec fn with_state(nodes: Seq<Node>, id: NodeId, st: NodeState) -> Seq<Node> {
    if has_node(nodes, id) {
        let i = node_pos(nodes, id);
        nodes.update(i, Node { state: st, ..nodes[i] })
    } else {
        nodes
    }
}

/// Two detector lists with the same ids, equal except possibly at ids `id`.
pub open spec fn detectors_touched<D>(a: Seq<(NodeId, D)>, b: Seq<(NodeId, D)>, id: NodeId) -> bool {
    &&& a.len() == b.len()
    &&& forall|k: int| 0 <= k < a.len() ==> (#[trigger] b[k]).0 == a[k].0 && (a[k].0 != id ==> b[k] == a[k])
}

proof fn lemma_with_state_layout(nodes: Seq<Node>, id: NodeId, st: NodeState)
    ensures
        same_layout(nodes, with_state(nodes, id, st)),
        ids_distinct(nodes) ==> ids_distinct(with_state(nodes, id, st)),
{
}

/// The receiver of a message event (0 for other events).
pub open spec fn receiver(e: Event) -> NodeId {
    match e.kind {
        EventKind::HeartbeatArrival { to, .. } => to,
        EventKind::GossipArrival { to, .. } => to,
        _ => 0,
    }
}

/// Whether `e` is a heartbeat from `from` to one of `peers` that the network
/// `net` lets through, arriving within the latency bounds of a send at `now`.
pub open spec fn heartbeat_delivery(e: Event, from: NodeId, peers: Seq<NodeId>, net: Network, now: Tick) -> bool {
    &&& e.kind matches EventKind::HeartbeatArrival { from: f, to } && f == from && peers.contains(to)
        && !net.blocked().contains((from, to))
    &&& now + net.settings().base_latency <= e.tick <= now + net.settings().base_latency + net.settings().jitter
}

/// Whether `from` can reach `x` under `net`'s blocks.
pub open spec fn unblocked_from(net: Network, from: NodeId) -> spec_fn(NodeId) -> bool {
    |x: NodeId| !net.blocked().contains((from, x))
}

/// The heartbeats that `from` sends at `now` to `peers`, in order, drawing
/// from a generator seeded with `seed` after the draws `history`: one per
/// peer whose delivery (see `delivery`) yields an arrival tick; and the draws
/// made by then.
pub open spec fn heartbeats(
    net: Network,
    from: NodeId,
    peers: Seq<NodeId>,
    now: Tick,
    seed: u64,
    history: Seq<Draw>,
) -> (Seq<Event>, Seq<Draw>)
    decreases peers.len(),
{
    if peers.len() == 0 {
        (Seq::empty(), history)
    } else {
        let (evs, h) = heartbeats(net, from, peers.drop_last(), now, seed, history);
        let to = peers.last();
        let (r, h2) = delivery(net, from, to, now, seed, h);
        match r {
            Some(t) => (evs.push(Event { tick: t, kind: EventKind::HeartbeatArrival { from, to } }), h2),
            None => (evs, h2),
        }
    }
}

/// The (arrival tick, receiver) pairs of the gossip that `from` sends at
/// `now` to `targets`, in order, drawing from a generator seeded with `seed`
/// after the draws `history`: one per target whose delivery (see `delivery`)
/// yields an arrival tick; and the draws made by then.
pub open spec fn gossip_sends(
    net: Network,
    from: NodeId,
    targets: Seq<NodeId>,
    now: Tick,
    seed: u64,
    history: Seq<Draw>,
) -> (Seq<(Tick, NodeId)>, Seq<Draw>)
    decreases targets.len(),
{
    if targets.len() == 0 {
        (Seq::empty(), history)
    } else {
        let (ps, h) = gossip_sends(net, from, targets.drop_last(), now, seed, history);
        let to = targets.last();
        let (r, h2) = delivery(net, from, to, now, seed, h);
        match r {
            Some(t) => (ps.push((t, to)), h2),
            None => (ps, h2),
        }
    }
}

/// Whether `e` is gossip from `from` carrying `sus` that arrives at `p.1` at tick `p.0`.
pub open spec fn carries(e: Event, from: NodeId, p: (Tick, NodeId), sus: Seq<NodeId>) -> bool {
    &&& e.tick == p.0
    &&& e.kind matches EventKind::GossipArrival { from: f, to, suspected } && f == from && to == p.1 && suspected@ == sus
}

/// The receivers of the message events `s`, in order.
pub open spec fn receivers(s: Seq<Event>) -> Seq<NodeId> {
    s.map_values(|e: Event| receiver(e))
}

/// The ids of `s` at the positions that `keep` marks, in order.
pub open spec fn picked(s: Seq<NodeId>, keep: Seq<bool>) -> Seq<NodeId>
    decreases s.len(),
{
    if s.len() == 0 {
        Seq::empty()
    } else {
        let rest = picked(s.drop_last(), keep.drop_last());
        if keep.last() {
            rest.push(s.last())
        } else {
            rest
        }
    }
}

/// `rs` are the nodes of `s`, in order, that a message from `from` reached:
/// each one the network `net` lets through, and, when nothing is dropped,
/// every such one.
pub open spec fn reached(rs: Seq<NodeId>, s: Seq<NodeId>, net: Network, from: NodeId) -> bool {
    exists|keep: Seq<bool>| #[trigger] picked(s, keep) == rs
        && keep.len() == s.len()
        && (forall|j: int| 0 <= j < s.len() && #[trigger] keep[j] ==> !net.blocked().contains((from, s[j])))
        && (net.settings().drop_chance == 0 ==> forall|j: int| 0 <= j < s.len() ==> #[trigger] keep[j]
            == !net.blocked().contains((from, s[j])))
}

/// Marking one more position: the picked ids grow by that position's id
/// exactly when it is kept.
proof fn lemma_picked_push(s: Seq<NodeId>, keep: Seq<bool>, k: int, b: bool)
    requires
        0 <= k < s.len(),
        keep.len() == k,
    ensures
        picked(s.take(k + 1), keep.push(b)) == if b {
            picked(s.take(k), keep).push(s[k])
        } else {
            picked(s.take(k), keep)
        },
{
    assert(s.take(k + 1).drop_last() =~= s.take(k));
    assert(keep.push(b).drop_last() =~= keep);
}

/// Whether `extra` are suspicion-level samples taken by `observer` at `tick`
/// of other nodes of `nodes`.
pub open spec fn sample_fields<L>(extra: Seq<PhiLogEntry<L>>, nodes: Seq<Node>, observer: NodeId, tick: Tick) -> bool {
    &&& forall|j: int| 0 <= j < extra.len() ==> (#[trigger] extra[j]).tick == tick && extra[j].observer == observer
        && extra[j].observed != observer && has_node(nodes, extra[j].observed)
}

/// The ids of `nodes`, in order.
pub open spec fn node_ids_of(nodes: Seq<Node>) -> Seq<NodeId> {
    nodes.map_values(|n: Node| n.id)
}

/// The observed nodes of the samples `extra`, in order.
pub open spec fn observed_ids<L>(extra: Seq<PhiLogEntry<L>>) -> Seq<NodeId> {
    extra.map_values(|e: PhiLogEntry<L>| e.observed)
}

/// Whether `extra` are the suspicion-level samples that `observer` takes at
/// `tick`: at most one per node of `nodes` other than the observer, in node
/// order (a node is sampled when its detector gives a level for it).
pub open spec fn samples_of_tick<L>(extra: Seq<PhiLogEntry<L>>, nodes: Seq<Node>, observer: NodeId, tick: Tick) -> bool {
    &&& extra.len() <= nodes.len()
    &&& sample_fields(extra, nodes, observer, tick)
    &&& exists|keep: Seq<bool>| #[trigger] picked(node_ids_of(nodes), keep) == observed_ids(extra)
        && keep.len() == nodes.len()
        && (forall|j: int| 0 <= j < nodes.len() && #[trigger] keep[j] ==> nodes[j].id != observer)
}

/// Whether `answers` are, position by position, answers that `det` may give
/// when asked for the suspicion level of each node of `nodes` other than
/// `observer` (the observer's own position is never asked).
pub open spec fn levels_answered<D: FailureDetector>(
    det: D,
    nodes: Seq<Node>,
    observer: NodeId,
    answers: Seq<Option<D::Level>>,
) -> bool {
    &&& answers.len() == nodes.len()
    &&& forall|j: int|
        0 <= j < nodes.len() && nodes[j].id != observer ==> call_ensures(
            D::phi_for_node,
            (&det, nodes[j].id),
            #[trigger] answers[j],
        )
}

/// The samples that `observer` logs at `tick` from the level answers
/// `answers` for `nodes`: one per node other than the observer whose answer
/// is a level, in node order, carrying that level.
pub open spec fn level_samples<L>(nodes: Seq<Node>, answers: Seq<Option<L>>, observer: NodeId, tick: Tick) -> Seq<
    PhiLogEntry<L>,
>
    decreases nodes.len(),
{
    if nodes.len() == 0 {
        Seq::empty()
    } else {
        let prev = level_samples(nodes.drop_last(), answers.drop_last(), observer, tick);
        let id = nodes.last().id;
        match answers.last() {
            Some(phi) => if id != observer {
                prev.push(PhiLogEntry { tick, observer, observed: id, phi })
            } else {
                prev
            },
            None => prev,
        }
    }
}

/// Whether `pos` gives, for each sample of `extra`, the position in `nodes`
/// of the node it observes: positions ascend, each is a node other than
/// `observer` whose answer is the sample's level, every such node with a
/// level has its sample, and each sample is stamped with `tick` and `observer`.
pub open spec fn sample_positions<L>(
    extra: Seq<PhiLogEntry<L>>,
    nodes: Seq<Node>,
    answers: Seq<Option<L>>,
    observer: NodeId,
    tick: Tick,
    pos: Seq<int>,
) -> bool {
    &&& pos.len() == extra.len()
    &&& forall|a: int, b: int| 0 <= a < b < pos.len() ==> #[trigger] pos[a] < #[trigger] pos[b]
    &&& forall|a: int|
        #![trigger pos[a]]
        0 <= a < pos.len() ==> 0 <= pos[a] < nodes.len() && nodes[pos[a]].id != observer && answers[pos[a]] == Some(
            extra[a].phi,
        ) && extra[a].tick == tick && extra[a].observer == observer && extra[a].observed == nodes[pos[a]].id
    &&& forall|j: int|
        0 <= j < nodes.len() && nodes[j].id != observer && (#[trigger] answers[j]) is Some ==> exists|a: int|
            0 <= a < pos.len() && #[trigger] pos[a] == j
}

/// The samples built from level answers sit at ascending node positions and
/// cover every other node whose answer is a level.
proof fn lemma_level_sample_positions<L>(nodes: Seq<Node>, answers: Seq<Option<L>>, observer: NodeId, tick: Tick) -> (pos:
    Seq<int>)
    requires
        answers.len() == nodes.len(),
    ensures
        sample_positions(level_samples(nodes, answers, observer, tick), nodes, answers, observer, tick, pos),
        forall|a: int| 0 <= a < pos.len() ==> #[trigger] pos[a] < nodes.len(),
    decreases nodes.len(),
{
    if nodes.len() == 0 {
        Seq::empty()
    } else {
        let n = nodes.len() - 1;
        let pn = nodes.drop_last();
        let pa = answers.drop_last();
        let p = lemma_level_sample_positions(pn, pa, observer, tick);
        let prev = level_samples(pn, pa, observer, tick);
        let extra = level_samples(nodes, answers, observer, tick);
        let id = nodes.last().id;
        assert forall|a: int| 0 <= a < p.len() implies nodes[p[a]] == pn[p[a]] && answers[p[a]] == pa[p[a]] by {}
        if answers.last() is Some && id != observer {
            let q = p.push(n);
            assert(extra == prev.push(PhiLogEntry { tick, observer, observed: id, phi: answers.last()->Some_0 }));
            assert forall|a: int| 0 <= a < q.len() implies #[trigger] q[a] < nodes.len() by {}
            assert forall|a: int, b: int| 0 <= a < b < q.len() implies #[trigger] q[a] < #[trigger] q[b] by {
                if b < p.len() {
                    assert(q[a] == p[a] && q[b] == p[b]);
                }
            }
            assert forall|j: int|
                0 <= j < nodes.len() && nodes[j].id != observer && (#[trigger] answers[j]) is Some implies exists|a: int|
                0 <= a < q.len() && #[trigger] q[a] == j by {
                if j == n {
                    assert(q[p.len() as int] == j);
                } else {
                    assert(pn[j] == nodes[j] && pa[j] == answers[j]);
                    let a = choose|a: int| 0 <= a < p.len() && #[trigger] p[a] == j;
                    assert(q[a] == j);
                }
            }
            assert forall|a: int|
                #![trigger q[a]]
                0 <= a < q.len() implies 0 <= q[a] < nodes.len() && nodes[q[a]].id != observer && answers[q[a]] == Some(
                extra[a].phi,
            ) && extra[a].tick == tick && extra[a].observer == observer && extra[a].observed == nodes[q[a]].id by {
                if a < p.len() {
                    assert(q[a] == p[a]);
                    assert(extra[a] == prev[a]);
                }
            }
            q
        } else {
            assert(extra == prev);
            assert forall|j: int|
                0 <= j < nodes.len() && nodes[j].id != observer && (#[trigger] answers[j]) is Some implies exists|a: int|
                0 <= a < p.len() && #[trigger] p[a] == j by {
                assert(j != n);
                assert(pn[j] == nodes[j] && pa[j] == answers[j]);
            }
            p
        }
    }
}

/// Marking nothing picks nothing.
proof fn lemma_picked_none(s: Seq<NodeId>)
    ensures
        picked(s, Seq::new(s.len(), |_i: int| false)) == Seq::<NodeId>::empty(),
    decreases s.len(),
{
    if s.len() > 0 {
        assert(Seq::new(s.len(), |_i: int| false).drop_last() =~= Seq::new(s.drop_last().len(), |_i: int| false));
        lemma_picked_none(s.drop_last());
    }
}

/// No samples is a sampling that samples no node.
proof fn lemma_no_samples<L>(nodes: Seq<Node>, observer: NodeId, tick: Tick)
    ensures
        samples_of_tick(Seq::<PhiLogEntry<L>>::empty(), nodes, observer, tick),
{
    let keep = Seq::new(nodes.len(), |_i: int| false);
    lemma_picked_none(node_ids_of(nodes));
    assert(observed_ids(Seq::<PhiLogEntry<L>>::empty()) =~= Seq::<NodeId>::empty());
    assert(picked(node_ids_of(nodes), keep) == observed_ids(Seq::<PhiLogEntry<L>>::empty()));
}

/// Whether `i` is the position of the first detector of node `id`.
pub open spec fn first_detector<D>(dets: Seq<(NodeId, D)>, id: NodeId, i: int) -> bool {
    &&& 0 <= i < dets.len()
    &&& dets[i].0 == id
    &&& forall|k: int| 0 <= k < i ==> #[trigger] dets[k].0 != id
}

/// A node with a detector has a first one, at or before any of its detectors.
proof fn lemma_first_detector<D>(dets: Seq<(NodeId, D)>, id: NodeId, k: int) -> (i: int)
    requires
        0 <= k < dets.len(),
        dets[k].0 == id,
    ensures
        first_detector(dets, id, i),
    decreases k,
{
    if exists|j: int| 0 <= j < k && #[trigger] dets[j].0 == id {
        let j = choose|j: int| 0 <= j < k && #[trigger] dets[j].0 == id;
        lemma_first_detector(dets, id, j)
    } else {
        k
    }
}

/// `b` is `a` with at most the entry at `i` replaced, by one with the same id.
pub open spec fn only_entry_changed<D>(a: Seq<(NodeId, D)>, b: Seq<(NodeId, D)>, i: int) -> bool {
    &&& b.len() == a.len()
    &&& b[i].0 == a[i].0
    &&& forall|k: int| 0 <= k < a.len() && k != i ==> #[trigger] b[k] == a[k]
}

/// Each detector of `chain` is the one before it after taking in the gossip
/// evidence that `source` suspects the corresponding node of `suspected`.
pub open spec fn noted_each<D: FailureDetector>(chain: Seq<D>, suspected: Seq<NodeId>, source: NodeId) -> bool {
    &&& chain.len() == suspected.len() + 1
    &&& forall|j: int| #![trigger suspected[j]] 0 <= j < suspected.len() ==> chain[j].noted(&chain[j + 1], suspected[j], source)
}

/// Whether some detector belongs to node `id`.
pub open spec fn has_detector<D>(dets: Seq<(NodeId, D)>, id: NodeId) -> bool {
    exists|k: int| 0 <= k < dets.len() && #[trigger] dets[k].0 == id
}

/// Whether `e` is a gossip message from `from` to one of `peers`, carrying
/// `sus`, that the network `net` lets through, arriving within the latency
/// bounds of a send at `now`.
pub open spec fn gossip_delivery(e: Event, from: NodeId, peers: Seq<NodeId>, sus: Seq<NodeId>, net: Network, now: Tick) -> bool {
    &&& e.kind matches EventKind::GossipArrival { from: f, to, suspected } && f == from && peers.contains(to)
        && !net.blocked().contains((from, to)) && suspected@ == sus
    &&& now + net.settings().base_latency <= e.tick <= now + net.settings().base_latency + net.settings().jitter
}

/// The largest peer count of any node.
pub open spec fn peer_cap(nodes: Seq<Node>) -> nat
    decreases nodes.len(),
{
    if nodes.len() == 0 {
        0
    } else {
        let rest = peer_cap(nodes.drop_last());
        if nodes.last().peers@.len() > rest {
            nodes.last().peers@.len()
        } else {
            rest
        }
    }
}

/// Weight of one step of a periodic activity: more than the messages it can send, twice over.
pub open spec fn work_factor(nodes: Seq<Node>) -> nat {
    2 * peer_cap(nodes) + 2
}

/// The work an event stands for: a periodic event at tick `t <= m` stands for
/// every step of its chain up to `m`; a recovery starts two such chains; a
/// message or an injected fault is one step; nothing after `m` is ever run.
pub open spec fn event_weight(e: Event, m: Tick, c: nat) -> nat {
    if e.tick > m {
        0
    } else {
        let span = (m - e.tick + 1) as nat;
        match e.kind {
            EventKind::HeartbeatSend { .. } => span * c,
            EventKind::DetectorTick { .. } => span * c,
            EventKind::GossipRound { .. } => span * c,
            EventKind::NodeRecover { .. } => span * c + span * c + 1,
            _ => 1,
        }
    }
}

/// The work that a sequence of scheduled events stands for.
pub open spec fn pending_weight(s: Seq<Event>, m: Tick, c: nat) -> nat
    decreases s.len(),
{
    if s.len() == 0 {
        0
    } else {
        pending_weight(s.drop_last(), m, c) + event_weight(s.last(), m, c)
    }
}

proof fn lemma_weight_push(s: Seq<Event>, e: Event, m: Tick, c: nat)
    ensures
        pending_weight(s.push(e), m, c) == pending_weight(s, m, c) + event_weight(e, m, c),
{
    assert(s.push(e).drop_last() =~= s);
}

proof fn lemma_weight_remove(s: Seq<Event>, k: int, m: Tick, c: nat)
    requires
        0 <= k < s.len(),
    ensures
        pending_weight(s, m, c) == pending_weight(s.remove(k), m, c) + event_weight(s[k], m, c),
    decreases s.len(),
{
    if k == s.len() - 1 {
        assert(s.remove(k) =~= s.drop_last());
    } else {
        lemma_weight_remove(s.drop_last(), k, m, c);
        assert(s.remove(k) =~= s.drop_last().remove(k).push(s.last()));
        lemma_weight_push(s.drop_last().remove(k), s.last(), m, c);
    }
}

proof fn lemma_peer_cap(nodes: Seq<Node>, i: int)
    requires
        0 <= i < nodes.len(),
    ensures
        nodes[i].peers@.len() <= peer_cap(nodes),
    decreases nodes.len(),
{
    if i < nodes.len() - 1 {
        lemma_peer_cap(nodes.drop_last(), i);
        assert(nodes.drop_last()[i] == nodes[i]);
    }
}

proof fn lemma_peer_cap_layout(a: Seq<Node>, b: Seq<Node>)
    requires
        same_layout(a, b),
    ensures
        peer_cap(a) == peer_cap(b),
    decreases a.len(),
{
    if a.len() > 0 {
        assert(same_layout(a.drop_last(), b.drop_last())) by {
            assert forall|i: int| 0 <= i < a.drop_last().len() implies (#[trigger] a.drop_last()[i]).id
                == b.drop_last()[i].id && a.drop_last()[i].peers == b.drop_last()[i].peers
                && a.drop_last()[i].heartbeat_interval == b.drop_last()[i].heartbeat_interval
                && a.drop_last()[i].detector_interval == b.drop_last()[i].detector_interval by {
                assert(a.drop_last()[i] == a[i]);
                assert(b.drop_last()[i] == b[i]);
            }
        }
        lemma_peer_cap_layout(a.drop_last(), b.drop_last());
        assert(a.last().peers == b.last().peers) by {
            assert(a[a.len() - 1] == a.last());
            assert(b[b.len() - 1] == b.last());
        }
    }
}

/// One step less of a periodic chain: the chain from `t + d` (`d >= 1`) is
/// worth at most the chain from `t` minus one step.
proof fn lemma_span_step(m: Tick, t: Tick, d: Tick, c: nat)
    requires
        t <= m,
        d >= 1,
    ensures
        (m - t + 1) as nat * c == (m - t) as nat * c + c,
        t + d <= m ==> (m - (t + d) + 1) as nat * c <= (m - t) as nat * c,
{
    assert((m - t + 1) as nat * c == (m - t) as nat * c + c) by (nonlinear_arith)
        requires
            t <= m,
    ;
    if t + d <= m {
        let a = (m - (t + d) + 1) as nat;
        let b = (m - t) as nat;
        assert(a <= b);
        assert(a * c <= b * c) by (nonlinear_arith)
            requires
                a <= b,
        ;
    }
}

proof fn lemma_prefix_trans<A>(a: Seq<A>, b: Seq<A>, c: Seq<A>)
    requires
        a.is_prefix_of(b),
        b.is_prefix_of(c),
    ensures
        a.is_prefix_of(c),
{
    assert forall|i: int| 0 <= i < a.len() implies a[i] == c[i] by {
        assert(a[i] == b[i]);
    }
}

proof fn lemma_weight_append(s: Seq<Event>, t: Seq<Event>, m: Tick, c: nat)
    ensures
        pending_weight(s + t, m, c) == pending_weight(s, m, c) + pending_weight(t, m, c),
    decreases t.len(),
{
    if t.len() == 0 {
        assert(s + t =~= s);
    } else {
        lemma_weight_append(s, t.drop_last(), m, c);
        assert((s + t).drop_last() =~= s + t.drop_last());
        assert((s + t).last() == t.last());
    }
}

/// Messages and one-off events weigh at most one each.
proof fn lemma_weight_messages(t: Seq<Event>, m: Tick, c: nat)
    requires
        forall|j: int| 0 <= j < t.len() ==> (#[trigger] t[j]).kind is HeartbeatArrival || t[j].kind is GossipArrival,
    ensures
        pending_weight(t, m, c) <= t.len(),
    decreases t.len(),
{
    if t.len() > 0 {
        assert forall|j: int| 0 <= j < t.drop_last().len() implies (#[trigger] t.drop_last()[j]).kind is HeartbeatArrival
            || t.drop_last()[j].kind is GossipArrival by {
            assert(t.drop_last()[j] == t[j]);
        }
        lemma_weight_messages(t.drop_last(), m, c);
        assert(t.last() == t[t.len() - 1]);
    }
}

/// A step of a periodic chain scheduled after `now` is worth at most the
/// chain from `now` minus one step.
proof fn lemma_later_step(e: Event, m: Tick, now: Tick, c: nat)
    requires
        now <= m,
        e.tick > now,
        e.kind is HeartbeatSend || e.kind is DetectorTick || e.kind is GossipRound,
    ensures
        event_weight(e, m, c) <= (m - now) as nat * c,
        (m - now + 1) as nat * c == (m - now) as nat * c + c,
{
    lemma_span_step(m, now, (e.tick - now) as u64, c);
}

proof fn lemma_weight_prefix(s: Seq<Event>, i: int, m: Tick, c: nat)
    requires
        0 <= i <= s.len(),
    ensures
        pending_weight(s.take(i), m, c) <= pending_weight(s, m, c),
{
    lemma_weight_append(s.take(i), s.skip(i), m, c);
    assert(s.take(i) + s.skip(i) =~= s);
}

/// The heartbeat interval of the last node with id `id` (1 when there is
/// none, or when it is 0).
pub open spec fn interval_of(nodes: Seq<Node>, id: NodeId) -> nat
    decreases nodes.len(),
{
    if nodes.len() == 0 {
        1
    } else if nodes.last().id == id {
        if nodes.last().heartbeat_interval >= 1 {
            nodes.last().heartbeat_interval as nat
        } else {
            1
        }
    } else {
        interval_of(nodes.drop_last(), id)
    }
}

/// The messages an event can still lead to up to tick `m`: a heartbeat
/// chain sends to at most every peer once per interval, a recovery restarts
/// one on the next tick, a gossip chain sends to at most every peer once per
/// tick (its round length is the detector's); nothing else sends.
pub open spec fn message_weight(e: Event, m: Tick, nodes: Seq<Node>) -> nat {
    let cap = peer_cap(nodes);
    if e.tick > m {
        0
    } else {
        match e.kind {
            EventKind::HeartbeatSend { from } => cap * ((m - e.tick) as nat / interval_of(nodes, from) + 1),
            EventKind::NodeRecover { node } => if e.tick < m {
                cap * ((m - e.tick - 1) as nat / interval_of(nodes, node) + 1)
            } else {
                0
            },
            EventKind::GossipRound { .. } => cap * ((m - e.tick + 1) as nat),
            _ => 0,
        }
    }
}

/// The messages that a sequence of scheduled events can still lead to.
pub open spec fn message_weights(s: Seq<Event>, m: Tick, nodes: Seq<Node>) -> nat
    decreases s.len(),
{
    if s.len() == 0 {
        0
    } else {
        message_weights(s.drop_last(), m, nodes) + message_weight(s.last(), m, nodes)
    }
}

proof fn lemma_msg_push(s: Seq<Event>, e: Event, m: Tick, nodes: Seq<Node>)
    ensures
        message_weights(s.push(e), m, nodes) == message_weights(s, m, nodes) + message_weight(e, m, nodes),
{
    assert(s.push(e).drop_last() =~= s);
}

proof fn lemma_msg_remove(s: Seq<Event>, k: int, m: Tick, nodes: Seq<Node>)
    requires
        0 <= k < s.len(),
    ensures
        message_weights(s, m, nodes) == message_weights(s.remove(k), m, nodes) + message_weight(s[k], m, nodes),
    decreases s.len(),
{
    if k == s.len() - 1 {
        assert(s.remove(k) =~= s.drop_last());
    } else {
        lemma_msg_remove(s.drop_last(), k, m, nodes);
        assert(s.remove(k) =~= s.drop_last().remove(k).push(s.last()));
        lemma_msg_push(s.drop_last().remove(k), s.last(), m, nodes);
    }
}

proof fn lemma_msg_append(s: Seq<Event>, t: Seq<Event>, m: Tick, nodes: Seq<Node>)
    ensures
        message_weights(s + t, m, nodes) == message_weights(s, m, nodes) + message_weights(t, m, nodes),
    decreases t.len(),
{
    if t.len() == 0 {
        assert(s + t =~= s);
    } else {
        lemma_msg_append(s, t.drop_last(), m, nodes);
        assert((s + t).drop_last() =~= s + t.drop_last());
        assert((s + t).last() == t.last());
    }
}

proof fn lemma_msg_prefix(s: Seq<Event>, i: int, m: Tick, nodes: Seq<Node>)
    requires
        0 <= i <= s.len(),
    ensures
        message_weights(s.take(i), m, nodes) <= message_weights(s, m, nodes),
{
    lemma_msg_append(s.take(i), s.skip(i), m, nodes);
    assert(s.take(i) + s.skip(i) =~= s);
}

/// Messages in flight send nothing more.
proof fn lemma_msg_in_flight(t: Seq<Event>, m: Tick, nodes: Seq<Node>)
    requires
        forall|j: int| 0 <= j < t.len() ==> (#[trigger] t[j]).kind is HeartbeatArrival || t[j].kind is GossipArrival,
    ensures
        message_weights(t, m, nodes) == 0,
    decreases t.len(),
{
    if t.len() > 0 {
        assert forall|j: int| 0 <= j < t.drop_last().len() implies (#[trigger] t.drop_last()[j]).kind is HeartbeatArrival
            || t.drop_last()[j].kind is GossipArrival by {
            assert(t.drop_last()[j] == t[j]);
        }
        lemma_msg_in_flight(t.drop_last(), m, nodes);
        assert(t.last() == t[t.len() - 1]);
    }
}

proof fn lemma_interval_layout(a: Seq<Node>, b: Seq<Node>, id: NodeId)
    requires
        same_layout(a, b),
    ensures
        interval_of(a, id) == interval_of(b, id),
    decreases a.len(),
{
    if a.len() > 0 {
        assert(same_layout(a.drop_last(), b.drop_last())) by {
            assert forall|i: int| 0 <= i < a.drop_last().len() implies (#[trigger] a.drop_last()[i]).id
                == b.drop_last()[i].id && a.drop_last()[i].peers == b.drop_last()[i].peers
                && a.drop_last()[i].heartbeat_interval == b.drop_last()[i].heartbeat_interval
                && a.drop_last()[i].detector_interval == b.drop_last()[i].detector_interval by {
                assert(a.drop_last()[i] == a[i]);
                assert(b.drop_last()[i] == b[i]);
            }
        }
        lemma_interval_layout(a.drop_last(), b.drop_last(), id);
        assert(a[a.len() - 1] == a.last());
        assert(b[b.len() - 1] == b.last());
    }
}

/// Node lists with the same layout give every event the same message weight.
proof fn lemma_msg_layout(s: Seq<Event>, m: Tick, a: Seq<Node>, b: Seq<Node>)
    requires
        same_layout(a, b),
    ensures
        message_weights(s, m, a) == message_weights(s, m, b),
    decreases s.len(),
{
    if s.len() > 0 {
        lemma_msg_layout(s.drop_last(), m, a, b);
        lemma_peer_cap_layout(a, b);
        match s.last().kind {
            EventKind::HeartbeatSend { from } => lemma_interval_layout(a, b, from),
            EventKind::NodeRecover { node } => lemma_interval_layout(a, b, node),
            _ => {},
        }
    }
}

/// With distinct ids, a node's interval is found under its id.
proof fn lemma_interval_at(nodes: Seq<Node>, i: int)
    requires
        ids_distinct(nodes),
        0 <= i < nodes.len(),
        nodes[i].heartbeat_interval >= 1,
    ensures
        interval_of(nodes, nodes[i].id) == nodes[i].heartbeat_interval,
    decreases nodes.len(),
{
    if i < nodes.len() - 1 {
        assert(nodes.last() == nodes[nodes.len() - 1]);
        assert(nodes.drop_last()[i] == nodes[i]);
        lemma_interval_at(nodes.drop_last(), i);
    }
}

/// One send of a heartbeat chain: what it sends plus the rest of the chain
/// fits in the chain's weight.
proof fn lemma_chain_step(m: Tick, t: Tick, hb: nat, cap: nat, k: nat)
    requires
        t <= m,
        hb >= 1,
        k <= cap,
    ensures
        k + (if t + hb <= m { cap * ((m - (t + hb)) as nat / hb + 1) } else { 0 }) <= cap * ((m - t) as nat / hb + 1),
{
    let a = (m - t) as nat;
    if t + hb <= m {
        let b = (m - (t + hb)) as nat;
        assert(a == b + hb);
        assert(a / hb == b / hb + 1) by {
            vstd::arithmetic::div_mod::lemma_div_plus_one(b as int, hb as int);
            assert((hb + b) as int == a as int);
        }
        let q: nat = b / hb;
        assert(cap * (q + 2) == cap * (q + 1) + cap) by (nonlinear_arith);
        assert(cap * (a / hb + 1) == cap * (q + 2));
    } else {
        let q: nat = a / hb;
        assert(cap * (q + 1) >= cap) by (nonlinear_arith);
    }
}

/// One round of a gossip chain: what it sends plus a later chain fits in the
/// chain's weight.
proof fn lemma_round_step(m: Tick, t: Tick, t2: Tick, cap: nat, k: nat)
    requires
        t <= m,
        t2 > t,
        k <= cap,
    ensures
        k + (if t2 <= m { cap * ((m - t2 + 1) as nat) } else { 0 }) <= cap * ((m - t + 1) as nat),
{
    let a = (m - t + 1) as nat;
    if t2 <= m {
        let b = (m - t2 + 1) as nat;
        assert(b + 1 <= a);
        assert(cap * b + cap <= cap * a) by (nonlinear_arith)
            requires
                b + 1 <= a,
        ;
    } else {
        assert(cap * a >= cap) by (nonlinear_arith)
            requires
                a >= 1,
        ;
    }
}

/// The simulation engine. Drives the event loop by pulling events from the
/// queue, advancing the clock, and dispatching to the appropriate handlers.
pub struct Engine<D: FailureDetector> {
    pub clock: Clock,
    pub queue: EventQueue,
    pub metrics: MetricsCollector<D::Level>,
    max_tick: Tick,
    nodes: Vec<Node>,
    network: Option<Network>,
    detectors: Vec<(NodeId, D)>,
    rng: Option<Generator>,
    /// (detecting node, suspected node) pairs already reported, to avoid duplicate detections.
    active_suspicions: Vec<(NodeId, NodeId)>,
    /// When true, record a suspicion-level sample from every accrual detector on each detector tick.
    pub phi_log_enabled: bool,
}

impl<D: FailureDetector> Engine<D> {
    /// The clock's tick.
    pub closed spec fn current(&self) -> Tick {
        self.clock@
    }

    /// The scheduled events.
    pub closed spec fn events(&self) -> Seq<Event> {
        self.queue@
    }

    /// The metrics recorded so far.
    pub closed spec fn stats(&self) -> MetricsCollector<D::Level> {
        self.metrics
    }

    /// Whether suspicion levels are sampled on detector ticks.
    pub closed spec fn logging(&self) -> bool {
        self.phi_log_enabled
    }

    /// The last tick that the engine runs.
    pub closed spec fn max_tick(&self) -> Tick {
        self.max_tick
    }

    /// The simulated nodes.
    pub closed spec fn nodes(&self) -> Seq<Node> {
        self.nodes@
    }

    /// The network, if the engine was built with one.
    pub closed spec fn network(&self) -> Option<Network> {
        self.network
    }

    /// Each node's detector.
    pub closed spec fn detectors(&self) -> Seq<(NodeId, D)> {
        self.detectors@
    }

    /// Whether the engine draws from a random generator.
    pub closed spec fn has_rng(&self) -> bool {
        self.rng is Some
    }

    /// The seed of the engine's generator and the draws made from it so far.
    pub closed spec fn rng_state(&self) -> Option<(u64, Seq<Draw>)> {
        match self.rng {
            Some(g) => Some((g.seed(), g.history())),
            None => None,
        }
    }

    /// The (detecting node, suspected node) pairs already reported.
    pub closed spec fn active(&self) -> Set<(NodeId, NodeId)> {
        self.active_suspicions@.to_set()
    }

    /// The messages that the scheduled events can still lead to.
    pub open spec fn message_work(&self) -> nat {
        message_weights(self.events(), self.max_tick(), self.nodes())
    }

    /// The work left in the queue.
    pub open spec fn pending_work(&self) -> nat {
        pending_weight(self.events(), self.max_tick(), work_factor(self.nodes()))
    }

    /// Well-formedness: distinct node ids, nonzero intervals, and room in a
    /// tick for every delay added to a tick up to `max_tick`.
    pub open spec fn wf(&self) -> bool {
        &&& ids_distinct(self.nodes())
        &&& self.max_tick() < u64::MAX
        &&& forall|i: int| 0 <= i < self.nodes().len() ==> {
            let n = #[trigger] self.nodes()[i];
            &&& n.heartbeat_interval >= 1
            &&& n.detector_interval >= 1
            &&& self.max_tick() + n.heartbeat_interval <= u64::MAX
            &&& self.max_tick() + n.detector_interval <= u64::MAX
        }
        &&& self.network() matches Some(net) ==> self.max_tick() + net.settings().base_latency
            + net.settings().jitter <= u64::MAX
    }

    /// An engine with no nodes, network, detectors or generator: it only
    /// moves the clock through the events scheduled on it.
    pub fn new(max_tick: Tick) -> (e: Self)
        ensures
            e.current() == 0,
            e.events() == Seq::<Event>::empty(),
            e.stats().message_count == 0,
            e.stats().detections@.len() == 0,
            e.stats().crashes@.len() == 0,
            e.stats().recoveries@.len() == 0,
            e.stats().phi_log@.len() == 0,
            e.max_tick() == max_tick,
            e.nodes() == Seq::<Node>::empty(),
            e.network() is None,
            e.detectors() == Seq::<(NodeId, D)>::empty(),
            !e.has_rng(),
            e.rng_state() is None,
            e.active() == Set::<(NodeId, NodeId)>::empty(),
            !e.logging(),
    {
        let e = Engine {
            clock: Clock::new(),
            queue: EventQueue::new(),
            metrics: MetricsCollector::new(),
            max_tick,
            nodes: Vec::new(),
            network: None,
            detectors: Vec::new(),
            rng: None,
            active_suspicions: Vec::new(),
            phi_log_enabled: false,
        };
        assert(e.active() =~= Set::<(NodeId, NodeId)>::empty());
        e
    }

    /// An engine over the given nodes, network, per-node detectors and generator.
    pub fn with_simulation(
        max_tick: Tick,
        nodes: Vec<Node>,
        network: Network,
        detectors: Vec<(NodeId, D)>,
        rng: Generator,
    ) -> (e: Self)
        ensures
            e.current() == 0,
            e.events() == Seq::<Event>::empty(),
            e.stats().message_count == 0,
            e.stats().detections@.len() == 0,
            e.stats().crashes@.len() == 0,
            e.stats().recoveries@.len() == 0,
            e.stats().phi_log@.len() == 0,
            e.max_tick() == max_tick,
            e.nodes() == nodes@,
            e.network() == Some(network),
            e.detectors() == detectors@,
            e.has_rng(),
            e.rng_state() == Some((rng.seed(), rng.history())),
            e.active() == Set::<(NodeId, NodeId)>::empty(),
            !e.logging(),
    {
        let e = Engine {
            clock: Clock::new(),
            queue: EventQueue::new(),
            metrics: MetricsCollector::new(),
            max_tick,
            nodes,
            network: Some(network),
            detectors,
            rng: Some(rng),
            active_suspicions: Vec::new(),
            phi_log_enabled: false,
        };
        assert(e.active() =~= Set::<(NodeId, NodeId)>::empty());
        e
    }

    /// What every handler leaves alone: the tick, the horizon, the node
    /// layout, the generator's presence, the logging switch and the network settings.
    pub open spec fn keeps_setup(&self, old: &Self) -> bool {
        &&& self.current() == old.current()
        &&& self.max_tick() == old.max_tick()
        &&& same_layout(old.nodes(), self.nodes())
        &&& self.has_rng() == old.has_rng()
        &&& self.logging() == old.logging()
        &&& (self.network() is Some) == (old.network() is Some)
        &&& (self.network() matches Some(n) ==> n.settings() == old.network()->0.settings())
    }

    /// The state after a crash of `node` at `pre`'s tick: the node is marked
    /// crashed and the crash is recorded; nothing else changes.
    pub open spec fn handled_crash(&self, pre: &Self, node: NodeId) -> bool {
        &&& self.keeps_setup(pre)
        &&& self.rng_state() == pre.rng_state()
        &&& self.nodes() == with_state(pre.nodes(), node, NodeState::Crashed)
        &&& self.stats().crashes@ == pre.stats().crashes@.push((pre.current(), node))
        &&& self.stats().message_count == pre.stats().message_count
        &&& self.stats().detections == pre.stats().detections
        &&& self.stats().recoveries == pre.stats().recoveries
        &&& self.stats().phi_log == pre.stats().phi_log
        &&& self.events() == pre.events()
        &&& self.network() == pre.network()
        &&& self.detectors() == pre.detectors()
        &&& self.active() == pre.active()
    }

    /// The state after a recovery of `node` at `pre`'s tick: the node is marked
    /// alive, the recovery is recorded, every reported suspicion of the node is
    /// forgotten, and its heartbeat and detector chains restart on the next tick.
    pub open spec fn handled_recover(&self, pre: &Self, node: NodeId) -> bool {
        &&& self.keeps_setup(pre)
        &&& self.rng_state() == pre.rng_state()
        &&& self.nodes() == with_state(pre.nodes(), node, NodeState::Alive)
        &&& self.stats().recoveries@ == pre.stats().recoveries@.push((pre.current(), node))
        &&& self.stats().message_count == pre.stats().message_count
        &&& self.stats().detections == pre.stats().detections
        &&& self.stats().crashes == pre.stats().crashes
        &&& self.stats().phi_log == pre.stats().phi_log
        &&& self.active() =~= pre.active().filter(|p: (NodeId, NodeId)| p.1 != node)
        &&& self.events() == pre.events().push(
            Event { tick: (pre.current() + 1) as u64, kind: EventKind::HeartbeatSend { from: node } },
        ).push(Event { tick: (pre.current() + 1) as u64, kind: EventKind::DetectorTick { node } })
        &&& self.network() == pre.network()
        &&& self.detectors() == pre.detectors()
    }

    /// The state after a partition into `groups` begins: every pair of nodes in
    /// different groups is blocked, on top of what was blocked before.
    pub open spec fn handled_partition_start(&self, pre: &Self, groups: Seq<Vec<NodeId>>) -> bool {
        &&& self.keeps_setup(pre)
        &&& self.rng_state() == pre.rng_state()
        &&& self.nodes() == pre.nodes()
        &&& self.stats() == pre.stats()
        &&& self.events() == pre.events()
        &&& self.detectors() == pre.detectors()
        &&& self.active() == pre.active()
        &&& pre.network() is None ==> self.network() is None
        &&& pre.network() matches Some(n) ==> self.network()->0.blocked() == n.blocked()
            + crate::network::partition_pairs(groups)
    }

    /// The state after all partitions are lifted: nothing is blocked.
    pub open spec fn handled_partition_end(&self, pre: &Self) -> bool {
        &&& self.keeps_setup(pre)
        &&& self.rng_state() == pre.rng_state()
        &&& self.nodes() == pre.nodes()
        &&& self.stats() == pre.stats()
        &&& self.events() == pre.events()
        &&& self.detectors() == pre.detectors()
        &&& self.active() == pre.active()
        &&& pre.network() is None ==> self.network() is None
        &&& pre.network() is Some ==> self.network()->0.blocked() == Set::<(NodeId, NodeId)>::empty()
    }

    /// The state after a heartbeat from `from` reaches `to`: if `to` is alive
    /// and has a detector, its first detector records the heartbeat at the
    /// current tick; nothing else changes.
    pub open spec fn handled_heartbeat_arrival(&self, pre: &Self, from: NodeId, to: NodeId) -> bool {
        &&& self.keeps_setup(pre)
        &&& self.rng_state() == pre.rng_state()
        &&& self.nodes() == pre.nodes()
        &&& self.stats() == pre.stats()
        &&& self.events() == pre.events()
        &&& self.network() == pre.network()
        &&& self.active() == pre.active()
        &&& detectors_touched(pre.detectors(), self.detectors(), to)
        &&& !alive_in(pre.nodes(), to) || !has_detector(pre.detectors(), to) ==> self.detectors() == pre.detectors()
        &&& alive_in(pre.nodes(), to) ==> forall|i: int| #[trigger] first_detector(pre.detectors(), to, i) ==> {
            &&& only_entry_changed(pre.detectors(), self.detectors(), i)
            &&& pre.detectors()[i].1.heard(&self.detectors()[i].1, from, pre.current())
        }
    }

    /// The state after gossip from `from` carrying `suspected` reaches `to`:
    /// if `to` is alive and has a detector, its first detector takes in, in
    /// order, the evidence that `from` suspects each node of `suspected`;
    /// nothing else changes.
    pub open spec fn handled_gossip_arrival(&self, pre: &Self, from: NodeId, to: NodeId, suspected: Seq<NodeId>) -> bool {
        &&& self.keeps_setup(pre)
        &&& self.rng_state() == pre.rng_state()
        &&& self.nodes() == pre.nodes()
        &&& self.stats() == pre.stats()
        &&& self.events() == pre.events()
        &&& self.network() == pre.network()
        &&& self.active() == pre.active()
        &&& detectors_touched(pre.detectors(), self.detectors(), to)
        &&& !alive_in(pre.nodes(), to) || !has_detector(pre.detectors(), to) ==> self.detectors() == pre.detectors()
        &&& alive_in(pre.nodes(), to) ==> forall|i: int| #[trigger] first_detector(pre.detectors(), to, i) ==> {
            &&& only_entry_changed(pre.detectors(), self.detectors(), i)
            &&& exists|chain: Seq<D>| #[trigger] noted_each(chain, suspected, from) && chain[0] == pre.detectors()[i].1
                && chain.last() == self.detectors()[i].1
        }
    }

    /// The state after `from` sends its heartbeats: a crashed node sends
    /// nothing; a live one schedules one heartbeat to each peer that the
    /// network lets through and the generator does not drop (all of them when
    /// nothing is dropped), counts each as a message, and schedules its next send.
    pub open spec fn handled_heartbeat_send(&self, pre: &Self, from: NodeId) -> bool {
        &&& self.keeps_setup(pre)
        &&& self.nodes() == pre.nodes()
        &&& self.network() == pre.network()
        &&& self.detectors() == pre.detectors()
        &&& self.active() == pre.active()
        &&& self.stats().detections == pre.stats().detections
        &&& self.stats().crashes == pre.stats().crashes
        &&& self.stats().recoveries == pre.stats().recoveries
        &&& self.stats().phi_log == pre.stats().phi_log
        &&& pre.stats().message_count <= self.stats().message_count
        &&& !alive_in(pre.nodes(), from) ==> self.events() == pre.events()
            && self.stats().message_count == pre.stats().message_count
        &&& alive_in(pre.nodes(), from) ==> {
            let node = pre.nodes()[node_pos(pre.nodes(), from)];
            let now = pre.current();
            let k = (self.stats().message_count - pre.stats().message_count) as int;
            let n0 = pre.events().len();
            let sent = self.events().subrange(n0 as int, n0 + k);
            &&& self.events().len() == n0 + k + 1
            &&& self.events().subrange(0, n0 as int) =~= pre.events()
            &&& self.events().last() == Event {
                tick: (now + node.heartbeat_interval) as u64,
                kind: EventKind::HeartbeatSend { from },
            }
            &&& k <= node.peers@.len()
            &&& (pre.network() is None || !pre.has_rng()) ==> k == 0
            &&& forall|j: int| 0 <= j < k ==> heartbeat_delivery(#[trigger] sent[j], from, node.peers@,
                pre.network()->0, now)
            &&& pre.network() matches Some(net) ==> (pre.has_rng()
                && net.settings().drop_chance == 0 ==> sent.map_values(|e: Event| receiver(e))
                =~= node.peers@.filter(unblocked_from(net, from)))
            &&& pre.network() matches Some(net) ==> (pre.has_rng() ==> reached(receivers(sent), node.peers@, net, from))
            &&& pre.network() matches Some(net) ==> (pre.rng_state() matches Some((seed, hist)) ==> {
                let (evs, h2) = heartbeats(net, from, node.peers@, now, seed, hist);
                &&& sent == evs
                &&& self.rng_state() == Some((seed, h2))
            })
            &&& (pre.network() is None || pre.rng_state() is None) ==> self.rng_state() == pre.rng_state()
        }
        &&& !alive_in(pre.nodes(), from) ==> self.rng_state() == pre.rng_state()
    }

    /// The state after `node`'s detector tick: a crashed node does nothing; a
    /// live one schedules its next tick, and, if it has a detector, lets its
    /// first detector check at the current tick, samples suspicion levels when
    /// logging is on, reports the nodes that the checked detector answers as
    /// suspected and that were not reported yet as detections, and forgets the
    /// reported pairs that the detector, asked again, no longer suspects.
    pub open spec fn handled_detector_tick(&self, pre: &Self, node: NodeId) -> bool {
        &&& self.keeps_setup(pre)
        &&& self.rng_state() == pre.rng_state()
        &&& self.nodes() == pre.nodes()
        &&& self.network() == pre.network()
        &&& self.stats().message_count == pre.stats().message_count
        &&& self.stats().crashes == pre.stats().crashes
        &&& self.stats().recoveries == pre.stats().recoveries
        &&& detectors_touched(pre.detectors(), self.detectors(), node)
        &&& !alive_in(pre.nodes(), node) ==> self.events() == pre.events()
            && self.detectors() == pre.detectors()
            && self.active() == pre.active()
            && self.stats().detections == pre.stats().detections
            && self.stats().phi_log == pre.stats().phi_log
        &&& alive_in(pre.nodes(), node) ==> {
            let now = pre.current();
            let n = pre.nodes()[node_pos(pre.nodes(), node)];
            &&& self.events() == pre.events().push(
                Event { tick: (now + n.detector_interval) as u64, kind: EventKind::DetectorTick { node } },
            )
            &&& !has_detector(pre.detectors(), node) ==> self.active() == pre.active()
                && self.stats().detections == pre.stats().detections
                && self.stats().phi_log == pre.stats().phi_log
            &&& has_detector(pre.detectors(), node) ==> forall|i: int| #[trigger] first_detector(pre.detectors(), node, i) ==> {
                let d = self.detectors()[i].1;
                &&& only_entry_changed(pre.detectors(), self.detectors(), i)
                &&& pre.detectors()[i].1.ticked(&d, now)
                &&& pre.logging() ==> exists|answers: Seq<Option<D::Level>>|
                    #[trigger] levels_answered(d, pre.nodes(), node, answers)
                    && self.stats().phi_log@.subrange(
                        pre.stats().phi_log@.len() as int,
                        self.stats().phi_log@.len() as int,
                    ) == level_samples(pre.nodes(), answers, node, now)
                &&& exists|s1: Seq<NodeId>, s2: Seq<NodeId>|
                    #![trigger narrowed(fold_suspicions(pre.active(), node, s1).0, node, s2)]
                    d.reports(s1) && d.reports(s2)
                    && self.active() =~= narrowed(fold_suspicions(pre.active(), node, s1).0, node, s2)
                    && self.stats().detections@ =~= pre.stats().detections@
                        + fold_suspicions(pre.active(), node, s1).1.map_values(
                        |x: NodeId| detection_for(pre.nodes(), pre.stats().crashes@, now, x),
                    )
            }
            &&& self.stats().phi_log@.len() >= pre.stats().phi_log@.len()
            &&& self.stats().phi_log@.subrange(0, pre.stats().phi_log@.len() as int)
                =~= pre.stats().phi_log@
            &&& samples_of_tick(
                self.stats().phi_log@.subrange(
                    pre.stats().phi_log@.len() as int,
                    self.stats().phi_log@.len() as int,
                ),
                pre.nodes(),
                node,
                now,
            )
            &&& !pre.logging() ==> self.stats().phi_log == pre.stats().phi_log
        }
    }

    /// The state after `from`'s gossip round: nothing is sent unless `from` is
    /// alive, has a detector that offers gossip and a network; what is sent is
    /// one message per chosen peer that the network lets through, all carrying
    /// the same nonempty suspicion list; the round may be rescheduled, later.
    pub open spec fn handled_gossip_round(&self, pre: &Self, from: NodeId) -> bool {
        &&& self.keeps_setup(pre)
        &&& self.nodes() == pre.nodes()
        &&& self.network() == pre.network()
        &&& self.detectors() == pre.detectors()
        &&& self.active() == pre.active()
        &&& self.stats().detections == pre.stats().detections
        &&& self.stats().crashes == pre.stats().crashes
        &&& self.stats().recoveries == pre.stats().recoveries
        &&& self.stats().phi_log == pre.stats().phi_log
        &&& pre.stats().message_count <= self.stats().message_count
        &&& !alive_in(pre.nodes(), from) || !has_detector(pre.detectors(), from) ==> self.events()
            == pre.events() && self.stats().message_count == pre.stats().message_count
            && self.rng_state() == pre.rng_state()
        &&& ({
            let now = pre.current();
            let k = (self.stats().message_count - pre.stats().message_count) as int;
            let n0 = pre.events().len();
            let sent = self.events().subrange(n0 as int, n0 + k);
            &&& self.events().len() == n0 + k || self.events().len() == n0 + k + 1
            &&& self.events().subrange(0, n0 as int) =~= pre.events()
            &&& self.events().len() == n0 + k + 1 ==> self.events().last().kind
                == (EventKind::GossipRound { from }) && self.events().last().tick > now
            &&& k > 0 ==> alive_in(pre.nodes(), from) && pre.network() is Some && exists|sus: Seq<NodeId>|
                sus.len() > 0 && forall|j: int| 0 <= j < k ==> gossip_delivery(
                    #[trigger] sent[j],
                    from,
                    pre.nodes()[node_pos(pre.nodes(), from)].peers@,
                    sus,
                    pre.network()->0,
                    now,
                )
            &&& k <= peer_cap(pre.nodes())
        })
        &&& alive_in(pre.nodes(), from) ==> forall|i: int| #[trigger] first_detector(pre.detectors(), from, i) ==>
            exists|o: Option<GossipOffer>| #[trigger] pre.detectors()[i].1.offers(o) && self.gossiped(pre, from, o)
    }

    /// The state after `from` gossips the offer `offer` at `pre`'s tick: no
    /// offer, nothing happens; otherwise, when there is something to carry and
    /// a network and generator, the peers are shuffled, the first
    /// `min(fanout, peer count)` of them are sent the offer's suspicions, one
    /// message each that the network lets through and the generator does not
    /// drop, in shuffled order; the next round is scheduled `interval` ticks
    /// later, unless the interval is 0 or that tick does not fit.
    pub open spec fn gossiped(&self, pre: &Self, from: NodeId, offer: Option<GossipOffer>) -> bool {
        match offer {
            None => self.events() == pre.events() && self.stats().message_count == pre.stats().message_count
                && self.rng_state() == pre.rng_state(),
            Some(g) => {
                let now = pre.current();
                let peers = pre.nodes()[node_pos(pre.nodes(), from)].peers@;
                let k = (self.stats().message_count - pre.stats().message_count) as int;
                let n0 = pre.events().len();
                let sent = self.events().subrange(n0 as int, n0 + k);
                let again = 1 <= g.interval && g.interval <= u64::MAX - now;
                let width = if (g.fanout as int) < peers.len() { g.fanout as int } else { peers.len() as int };
                &&& self.events().len() == (if again { n0 + k + 1 } else { n0 + k })
                &&& again ==> self.events().last() == Event {
                    tick: (now + g.interval) as u64,
                    kind: EventKind::GossipRound { from },
                }
                &&& (g.suspicions@.len() == 0 || pre.network() is None || !pre.has_rng()) ==> k == 0
                &&& (g.suspicions@.len() > 0 && pre.has_rng() && pre.network() is Some) ==> {
                    let net = pre.network()->0;
                    forall|j: int| 0 <= j < k ==> gossip_delivery(#[trigger] sent[j], from, peers, g.suspicions@, net, now)
                }
                &&& (g.suspicions@.len() > 0 && pre.network() is Some) ==> (pre.rng_state() matches Some((seed, hist)) ==> {
                    let net = pre.network()->0;
                    let order = order_drawn(seed, hist, peers);
                    let h1 = hist.push(Draw::Shuffle { len: peers.len() as usize });
                    let (pairs, h2) = gossip_sends(net, from, order.take(width), now, seed, h1);
                    &&& order.to_multiset() == peers.to_multiset()
                    &&& reached(receivers(sent), order.take(width), net, from)
                    &&& sent.len() == pairs.len()
                    &&& forall|j: int| 0 <= j < k ==> carries(#[trigger] sent[j], from, pairs[j], g.suspicions@)
                    &&& self.rng_state() == Some((seed, h2))
                })
                &&& !(g.suspicions@.len() > 0 && pre.network() is Some && pre.rng_state() is Some) ==> self.rng_state()
                    == pre.rng_state()
            },
        }
    }

    /// Everything but the clock and the queue is as in `other`.
    pub open spec fn same_but_time(&self, other: &Self) -> bool {
        &&& self.max_tick() == other.max_tick()
        &&& self.nodes() == other.nodes()
        &&& self.stats() == other.stats()
        &&& self.logging() == other.logging()
        &&& self.network() == other.network()
        &&& self.detectors() == other.detectors()
        &&& self.has_rng() == other.has_rng()
        &&& self.rng_state() == other.rng_state()
        &&& self.active() == other.active()
    }

    /// `self` is `pre` with its earliest event taken out of the queue and the
    /// clock moved to that event's tick.
    pub open spec fn took_next(&self, pre: &Self) -> bool {
        let k = earliest(pre.events());
        &&& pre.events().len() > 0
        &&& self.events() =~= pre.events().remove(k)
        &&& self.current() == pre.events()[k].tick
        &&& self.same_but_time(pre)
    }

    /// One step of a run: the earliest event of `pre` is due by `max_tick`,
    /// and `self` is what handling it leaves of the state in which it was
    /// taken out of the queue and the clock moved to its tick.
    pub open spec fn stepped(&self, pre: &Self) -> bool {
        let e = pre.events()[earliest(pre.events())];
        &&& pre.events().len() > 0
        &&& e.tick <= pre.max_tick()
        &&& exists|mid: Self| #[trigger] mid.took_next(pre) && self.handled(&mid, e)
    }

    /// How a run ends at `pre`: with an empty queue nothing changes; otherwise
    /// the earliest event lies beyond `max_tick` and is dropped, unhandled.
    pub open spec fn stopped(&self, pre: &Self) -> bool {
        &&& self.same_but_time(pre)
        &&& self.current() == pre.current()
        &&& pre.events().len() == 0 ==> self.events() =~= pre.events()
        &&& pre.events().len() > 0 ==> pre.events()[earliest(pre.events())].tick > pre.max_tick()
            && self.events() =~= pre.events().remove(earliest(pre.events()))
    }

    /// Each state of `trace` is one step from the state before it.
    pub open spec fn is_run(trace: Seq<Self>) -> bool {
        forall|i: int| #![trigger trace[i]] 0 < i < trace.len() ==> trace[i].stepped(&trace[i - 1])
    }

    /// The clock never moves backwards along `trace`.
    pub open spec fn ticks_ascend(trace: Seq<Self>) -> bool {
        forall|i: int| #![trigger trace[i]] 0 < i < trace.len() ==> trace[i - 1].current() <= trace[i].current()
    }

    /// The state after `event` is handled at `pre`'s tick, by the event's kind.
    pub open spec fn handled(&self, pre: &Self, event: Event) -> bool {
        match event.kind {
            EventKind::HeartbeatSend { from } => self.handled_heartbeat_send(pre, from),
            EventKind::HeartbeatArrival { from, to } => self.handled_heartbeat_arrival(pre, from, to),
            EventKind::NodeCrash { node } => self.handled_crash(pre, node),
            EventKind::NodeRecover { node } => self.handled_recover(pre, node),
            EventKind::DetectorTick { node } => self.handled_detector_tick(pre, node),
            EventKind::GossipRound { from } => self.handled_gossip_round(pre, from),
            EventKind::GossipArrival { from, to, suspected } => self.handled_gossip_arrival(pre, from, to, suspected@),
            EventKind::PartitionStart { groups } => self.handled_partition_start(pre, groups@),
            EventKind::PartitionEnd => self.handled_partition_end(pre),
        }
    }

    fn handle_node_crash(&mut self, node: NodeId)
        requires
            ids_distinct(old(self).nodes()),
        ensures
            final(self).handled_crash(old(self), node),
    {
        proof {
            lemma_with_state_layout(self.nodes(), node, NodeState::Crashed);
        }
        if let Some(i) = self.find_node(node) {
            self.nodes[i].crash();
        }
        let now = self.clock.now();
        self.metrics.record_crash(now, node);
    }

    /// Drops the reported pairs whose suspected node is `node`.
    fn forget_suspicions_of(&mut self, node: NodeId)
        ensures
            final(self).rng_state() == old(self).rng_state(),
            final(self).active() == old(self).active().filter(|p: (NodeId, NodeId)| p.1 != node),
            final(self).keeps_setup(old(self)),
            final(self).nodes() == old(self).nodes(),
            final(self).stats() == old(self).stats(),
            final(self).events() == old(self).events(),
            final(self).network() == old(self).network(),
            final(self).detectors() == old(self).detectors(),
    {
        let mut kept: Vec<(NodeId, NodeId)> = Vec::new();
        let mut i: usize = 0;
        while i < self.active_suspicions.len()
            invariant
                0 <= i <= self.active_suspicions@.len(),
                kept@.to_set() == self.active_suspicions@.take(i as int).to_set().filter(
                    |p: (NodeId, NodeId)| p.1 != node,
                ),
            decreases self.active_suspicions@.len() - i,
        {
            let p = self.active_suspicions[i];
            let ghost before = kept@;
            if p.1 != node {
                kept.push(p);
            }
            proof {
                let a = self.active_suspicions@;
                a.lemma_take_succ_push(i as int);
                a.take(i as int).lemma_push_to_set_commute(p);
                if p.1 != node {
                    before.lemma_push_to_set_commute(p);
                }
                assert(kept@.to_set() =~= a.take(i as int + 1).to_set().filter(|q: (NodeId, NodeId)| q.1 != node));
            }
            i = i + 1;
        }
        proof {
            self.active_suspicions@.lemma_take_len();
        }
        self.active_suspicions = kept;
    }

    fn handle_node_recover(&mut self, node: NodeId)
        requires
            ids_distinct(old(self).nodes()),
            old(self).current() < u64::MAX,
        ensures
            final(self).handled_recover(old(self), node),
            final(self).events().contains(
                Event { tick: (old(self).current() + 1) as u64, kind: EventKind::DetectorTick { node } },
            ),
            final(self).events().contains(
                Event { tick: (old(self).current() + 1) as u64, kind: EventKind::HeartbeatSend { from: node } },
            ),
    {
        proof {
            lemma_with_state_layout(self.nodes(), node, NodeState::Alive);
        }
        if let Some(i) = self.find_node(node) {
            self.nodes[i].recover();
        }
        let now = self.clock.now();
        self.metrics.record_recovery(now, node);
        self.forget_suspicions_of(node);
        self.queue.schedule(Event { tick: now + 1, kind: EventKind::HeartbeatSend { from: node } });
        self.queue.schedule(Event { tick: now + 1, kind: EventKind::DetectorTick { node } });
        proof {
            let q = self.events();
            assert(q[q.len() - 1] == Event { tick: (now + 1) as u64, kind: EventKind::DetectorTick { node } });
            assert(q[q.len() - 2] == Event { tick: (now + 1) as u64, kind: EventKind::HeartbeatSend { from: node } });
        }
    }

    fn handle_partition_start(&mut self, groups: Vec<Vec<NodeId>>)
        ensures
            final(self).handled_partition_start(old(self), groups@),
    {
        match &mut self.network {
            Some(net) => net.apply_partition(groups.as_slice()),
            None => {},
        }
    }

    fn handle_partition_end(&mut self)
        ensures
            final(self).handled_partition_end(old(self)),
    {
        match &mut self.network {
            Some(net) => net.clear_partitions(),
            None => {},
        }
    }

    fn handle_heartbeat_arrival(&mut self, from: NodeId, to: NodeId)
        requires
            ids_distinct(old(self).nodes()),
        ensures
            final(self).handled_heartbeat_arrival(old(self), from, to),
    {
        if !self.node_alive(to) {
            return;
        }
        let now = self.clock.now();
        if let Some(i) = self.find_detector(to) {
            self.detectors[i].1.on_heartbeat(from, now);
        }
    }

    fn handle_gossip_arrival(&mut self, from: NodeId, to: NodeId, suspected: Vec<NodeId>)
        requires
            ids_distinct(old(self).nodes()),
        ensures
            final(self).handled_gossip_arrival(old(self), from, to, suspected@),
    {
        if !self.node_alive(to) {
            return;
        }
        if let Some(i) = self.find_detector(to) {
            let ghost mut chain: Seq<D> = seq![self.detectors@[i as int].1];
            let mut k: usize = 0;
            while k < suspected.len()
                invariant
                    0 <= k <= suspected@.len(),
                    i < self.detectors@.len(),
                    first_detector(old(self).detectors(), to, i as int),
                    only_entry_changed(old(self).detectors(), self.detectors(), i as int),
                    chain.len() == k + 1,
                    chain[0] == old(self).detectors()[i as int].1,
                    chain.last() == self.detectors()[i as int].1,
                    forall|j: int| #![trigger suspected@[j]] 0 <= j < k ==> chain[j].noted(&chain[j + 1], suspected@[j], from),
                    self.rng_state() == old(self).rng_state(),
                    self.keeps_setup(old(self)),
                    self.nodes() == old(self).nodes(),
                    self.stats() == old(self).stats(),
                    self.events() == old(self).events(),
                    self.network() == old(self).network(),
                    self.active() == old(self).active(),
                decreases suspected@.len() - k,
            {
                self.detectors[i].1.on_remote_suspicion(suspected[k], from);
                proof {
                    let grown = chain.push(self.detectors()[i as int].1);
                    assert forall|j: int| #![trigger suspected@[j]] 0 <= j < k + 1 implies grown[j].noted(&grown[j + 1], suspected@[j], from) by {
                        if j < k {
                            assert(grown[j] == chain[j]);
                            assert(grown[j + 1] == chain[j + 1]);
                        }
                    }
                    chain = grown;
                }
                k = k + 1;
            }
            proof {
                assert(noted_each(chain, suspected@, from));
                assert forall|m: int| #[trigger] first_detector(old(self).detectors(), to, m) implies m == i by {
                    if m < i {
                        assert(old(self).detectors()[m].0 != to);
                    } else if m > i {
                        assert(old(self).detectors()[i as int].0 != to);
                    }
                }
                assert(detectors_touched(old(self).detectors(), self.detectors(), to));
            }
        }
    }

    fn handle_heartbeat_send(&mut self, from: NodeId)
        requires
            old(self).wf(),
            old(self).current() <= old(self).max_tick(),
            old(self).stats().message_count + peer_cap(old(self).nodes()) <= u64::MAX,
        ensures
            final(self).handled_heartbeat_send(old(self), from),
    {
        let i = match self.find_node(from) {
            Some(i) => i,
            None => return,
        };
        if !self.nodes[i].is_alive() {
            return;
        }
        let now = self.clock.now();
        let interval = self.nodes[i].heartbeat_interval;
        let peers = copy_ids(&self.nodes[i].peers);
        let ghost n0 = self.queue@.len();
        let ghost m0 = self.metrics.message_count;
        proof {
            lemma_peer_cap(self.nodes(), i as int);
            assert(self.nodes()[i as int] == self.nodes()[node_pos(self.nodes(), from)]);
        }
        let ghost mut kp: Seq<bool> = Seq::empty();
        let mut rng_slot: Option<Generator> = None;
        std::mem::swap(&mut rng_slot, &mut self.rng);
        match (&self.network, &mut rng_slot) {
            (Some(network), Some(rng)) => {
                let ghost net = *network;
                let ghost unblocked = unblocked_from(net, from);
                let ghost seed = rng.seed();
                let ghost hist0 = rng.history();
                let mut k: usize = 0;
                proof {
                    assert(peers@.take(0) =~= Seq::<NodeId>::empty());
                    assert(self.queue@.subrange(n0 as int, self.queue@.len() as int) =~= Seq::<Event>::empty());
                }
                while k < peers.len()
                    invariant
                        0 <= k <= peers@.len(),
                        rng.seed() == seed,
                        old(self).rng_state() == Some((seed, hist0)),
                        self.queue@.subrange(n0 as int, self.queue@.len() as int)
                            == heartbeats(net, from, peers@.take(k as int), now, seed, hist0).0,
                        rng.history() == heartbeats(net, from, peers@.take(k as int), now, seed, hist0).1,
                        self.network == Some(net),
                        *network == net,
                        net.settings() == old(self).network()->0.settings(),
                        net.blocked() == old(self).network()->0.blocked(),
                        unblocked == unblocked_from(net, from),
                        now == old(self).current(),
                        now <= old(self).max_tick(),
                        old(self).max_tick() + net.settings().base_latency + net.settings().jitter <= u64::MAX,
                        peers@.len() <= peer_cap(old(self).nodes()),
                        m0 + peer_cap(old(self).nodes()) <= u64::MAX,
                        self.metrics.message_count - m0 <= k,
                        m0 <= self.metrics.message_count,
                        self.queue@.len() == n0 + (self.metrics.message_count - m0),
                        self.queue@.subrange(0, n0 as int) == old(self).events(),
                        forall|j: int| n0 <= j < self.queue@.len() ==> heartbeat_delivery(#[trigger] self.queue@[j], from, peers@, net, now),
                        net.settings().drop_chance == 0 ==> self.queue@.subrange(n0 as int, self.queue@.len() as int).map_values(|e: Event| receiver(e))
                            == peers@.take(k as int).filter(unblocked),
                        kp.len() == k,
                        receivers(self.queue@.subrange(n0 as int, self.queue@.len() as int)) == picked(peers@.take(k as int), kp),
                        forall|j: int| 0 <= j < k && #[trigger] kp[j] ==> !net.blocked().contains((from, peers@[j])),
                        net.settings().drop_chance == 0 ==> forall|j: int| 0 <= j < k ==> #[trigger] kp[j]
                            == !net.blocked().contains((from, peers@[j])),
                        self.clock == old(self).clock,
                        self.max_tick == old(self).max_tick,
                        self.nodes == old(self).nodes,
                        self.detectors == old(self).detectors,
                        self.active_suspicions == old(self).active_suspicions,
                        self.phi_log_enabled == old(self).phi_log_enabled,
                        self.metrics.detections == old(self).metrics.detections,
                        self.metrics.crashes == old(self).metrics.crashes,
                        self.metrics.recoveries == old(self).metrics.recoveries,
                        self.metrics.phi_log == old(self).metrics.phi_log,
                    decreases peers@.len() - k,
                {
                    let peer = peers[k];
                    let ghost before = self.queue@;
                    proof {
                        peers@.lemma_take_succ_push(k as int);
                        peers@.take(k as int).lemma_filter_push(peer, unblocked);
                        assert(peers@.contains(peer)) by { assert(peers@[k as int] == peer); }
                    }
                    proof {
                        assert(peers@.take(k as int + 1).drop_last() =~= peers@.take(k as int));
                        assert(peers@.take(k as int + 1).last() == peer);
                    }
                    match network.delivery_tick(from, peer, now, rng) {
                        Some(arrival) => {
                            self.queue.schedule(Event { tick: arrival, kind: EventKind::HeartbeatArrival { from, to: peer } });
                            self.metrics.record_message(now);
                            proof {
                                let new_ev = Event { tick: arrival, kind: EventKind::HeartbeatArrival { from, to: peer } };
                                assert(self.queue@ == before.push(new_ev));
                                assert(self.queue@.subrange(0, n0 as int) =~= before.subrange(0, n0 as int));
                                assert(self.queue@.subrange(n0 as int, self.queue@.len() as int) =~= before.subrange(n0 as int, before.len() as int).push(new_ev));
                                assert(heartbeat_delivery(new_ev, from, peers@, net, now));
                                assert(receivers(self.queue@.subrange(n0 as int, self.queue@.len() as int)) =~= receivers(before.subrange(n0 as int, before.len() as int)).push(peer));
                                lemma_picked_push(peers@, kp, k as int, true);
                                kp = kp.push(true);
                            }
                        },
                        None => {
                            proof {
                                lemma_picked_push(peers@, kp, k as int, false);
                                kp = kp.push(false);
                            }
                        },
                    }
                    k = k + 1;
                }
                proof {
                    peers@.lemma_take_len();
                    assert(reached(receivers(self.queue@.subrange(n0 as int, self.queue@.len() as int)), peers@, net, from)) by {
                        assert(picked(peers@, kp) == receivers(self.queue@.subrange(n0 as int, self.queue@.len() as int)));
                    }
                }
            },
            _ => {},
        }
        self.rng = rng_slot;
        let ghost before = self.queue@;
        self.queue.schedule(Event { tick: now + interval, kind: EventKind::HeartbeatSend { from } });
        proof {
            assert(self.queue@.subrange(0, n0 as int) =~= old(self).events());
            let k = self.metrics.message_count - m0;
            assert(self.queue@.subrange(n0 as int, n0 + k) =~= before.subrange(n0 as int, before.len() as int));
        }
    }

    /// The tick of the latest recorded crash of `id`.
    fn latest_crash(&self, id: NodeId) -> (r: Option<Tick>)
        requires
            crashes_before(self.stats().crashes@, self.current()),
        ensures
            r == last_crash(self.stats().crashes@, id),
            r matches Some(t) ==> t <= self.current(),
            r matches Some(t) ==> exists|j: int|
                0 <= j < self.stats().crashes@.len() && #[trigger] self.stats().crashes@[j] == (t, id) && forall|k: int|
                    j < k < self.stats().crashes@.len() ==> (#[trigger] self.stats().crashes@[k]).1 != id,
            r is None ==> forall|j: int| 0 <= j < self.stats().crashes@.len() ==> (#[trigger] self.stats().crashes@[j]).1 != id,
    {
        let ghost c = self.metrics.crashes@;
        let mut j: usize = self.metrics.crashes.len();
        proof {
            assert(c.take(j as int) =~= c);
        }
        while j > 0
            invariant
                c == self.metrics.crashes@,
                0 <= j <= c.len(),
                crashes_before(c, self.clock@),
                last_crash(c, id) == last_crash(c.take(j as int), id),
            decreases j,
        {
            let (t, n) = self.metrics.crashes[j - 1];
            proof {
                assert(c.take(j as int).drop_last() =~= c.take(j as int - 1));
                assert(c.take(j as int).last() == c[j - 1]);
            }
            if n == id {
                proof {
                    assert(c[j - 1].0 <= self.clock@);
                    lemma_last_crash_is_latest(c, id);
                }
                return Some(t);
            }
            j = j - 1;
        }
        proof {
            assert(c.take(0) =~= Seq::<(Tick, NodeId)>::empty());
            lemma_last_crash_is_latest(c, id);
        }
        None
    }

    /// Whether the pair has been reported.
    fn is_active(&self, p: (NodeId, NodeId)) -> (b: bool)
        ensures
            b == self.active().contains(p),
    {
        let mut i: usize = 0;
        while i < self.active_suspicions.len()
            invariant
                0 <= i <= self.active_suspicions@.len(),
                forall|k: int| 0 <= k < i ==> self.active_suspicions@[k] != p,
            decreases self.active_suspicions@.len() - i,
        {
            let q = self.active_suspicions[i];
            if q.0 == p.0 && q.1 == p.1 {
                assert(self.active_suspicions@[i as int] == p);
                return true;
            }
            i = i + 1;
        }
        false
    }

    /// Reports the suspicions in `suspected` of `observer` at the current tick:
    /// each pair that is not already reported becomes reported and records a
    /// detection, in list order.
    pub fn record_suspicions(&mut self, observer: NodeId, suspected: &Vec<NodeId>)
        requires
            ids_distinct(old(self).nodes()),
            crashes_before(old(self).stats().crashes@, old(self).current()),
        ensures
            final(self).rng_state() == old(self).rng_state(),
            final(self).keeps_setup(old(self)),
            final(self).nodes() == old(self).nodes(),
            final(self).network() == old(self).network(),
            final(self).detectors() == old(self).detectors(),
            final(self).events() == old(self).events(),
            final(self).stats().message_count == old(self).stats().message_count,
            final(self).stats().crashes == old(self).stats().crashes,
            final(self).stats().recoveries == old(self).stats().recoveries,
            final(self).stats().phi_log == old(self).stats().phi_log,
            ({
                let (a, fresh) = fold_suspicions(old(self).active(), observer, suspected@);
                &&& final(self).active() == a
                &&& final(self).stats().detections@ == old(self).stats().detections@ + fresh.map_values(
                    |x: NodeId| detection_for(old(self).nodes(), old(self).stats().crashes@, old(self).current(), x),
                )
            }),
    {
        let now = self.clock.now();
        let ghost nodes = self.nodes();
        let ghost crashes = self.metrics.crashes@;
        let ghost det0 = self.metrics.detections@;
        let ghost act0 = self.active();
        let ghost f = |x: NodeId| detection_for(nodes, crashes, now, x);
        let mut i: usize = 0;
        proof {
            assert(suspected@.take(0) =~= Seq::<NodeId>::empty());
            assert(det0 + Seq::<NodeId>::empty().map_values(f) =~= det0);
        }
        while i < suspected.len()
            invariant
                0 <= i <= suspected@.len(),
                self.nodes() == nodes,
                ids_distinct(nodes),
                self.metrics.crashes@ == crashes,
                crashes_before(crashes, now),
                self.current() == now,
                f == (|x: NodeId| detection_for(nodes, crashes, now, x)),
                ({
                    let (a, fresh) = fold_suspicions(act0, observer, suspected@.take(i as int));
                    &&& self.active() == a
                    &&& self.metrics.detections@ == det0 + fresh.map_values(f)
                }),
                self.rng_state() == old(self).rng_state(),
                self.keeps_setup(old(self)),
                self.network() == old(self).network(),
                self.detectors() == old(self).detectors(),
                self.events() == old(self).events(),
                self.metrics.message_count == old(self).metrics.message_count,
                self.metrics.crashes == old(self).metrics.crashes,
                self.metrics.recoveries == old(self).metrics.recoveries,
                self.metrics.phi_log == old(self).metrics.phi_log,
            decreases suspected@.len() - i,
        {
            let x = suspected[i];
            let ghost pre = suspected@.take(i as int);
            proof {
                suspected@.lemma_take_succ_push(i as int);
                assert(suspected@.take(i as int + 1).drop_last() =~= pre);
            }
            if !self.is_active((observer, x)) {
                let ghost fresh = fold_suspicions(act0, observer, pre).1;
                let ghost before = self.active_suspicions@;
                self.active_suspicions.push((observer, x));
                proof {
                    before.lemma_push_to_set_commute((observer, x));
                }
                let crashed = match self.find_node(x) {
                    Some(k) => !self.nodes[k].is_alive(),
                    None => false,
                };
                let latency = if crashed {
                    match self.latest_crash(x) {
                        Some(ct) => Some(now - ct),
                        None => None,
                    }
                } else {
                    None
                };
                let event = DetectionEvent { tick: now, node: x, true_positive: crashed, latency };
                proof {
                    assert(event == f(x));
                }
                self.metrics.record_detection(event);
                proof {
                    fresh.lemma_push_map_commute(f, x);
                    assert(det0 + fresh.push(x).map_values(f) =~= (det0 + fresh.map_values(f)).push(f(x)));
                }
            }
            i = i + 1;
        }
        proof {
            suspected@.lemma_take_len();
        }
    }

    /// Keeps, of `observer`'s reported pairs, only those whose suspected node is in `current`.
    fn narrow_suspicions(&mut self, observer: NodeId, current: &Vec<NodeId>)
        ensures
            final(self).rng_state() == old(self).rng_state(),
            final(self).active() == narrowed(old(self).active(), observer, current@),
            final(self).keeps_setup(old(self)),
            final(self).nodes() == old(self).nodes(),
            final(self).stats() == old(self).stats(),
            final(self).events() == old(self).events(),
            final(self).network() == old(self).network(),
            final(self).detectors() == old(self).detectors(),
    {
        let ghost keep = |p: (NodeId, NodeId)| p.0 != observer || current@.contains(p.1);
        let mut kept: Vec<(NodeId, NodeId)> = Vec::new();
        let mut i: usize = 0;
        while i < self.active_suspicions.len()
            invariant
                0 <= i <= self.active_suspicions@.len(),
                keep == (|p: (NodeId, NodeId)| p.0 != observer || current@.contains(p.1)),
                kept@.to_set() == self.active_suspicions@.take(i as int).to_set().filter(keep),
            decreases self.active_suspicions@.len() - i,
        {
            let p = self.active_suspicions[i];
            let ghost before = kept@;
            if p.0 != observer || ids_contain(current, p.1) {
                kept.push(p);
            }
            proof {
                let a = self.active_suspicions@;
                a.lemma_take_succ_push(i as int);
                a.take(i as int).lemma_push_to_set_commute(p);
                if keep(p) {
                    before.lemma_push_to_set_commute(p);
                }
                assert(kept@.to_set() =~= a.take(i as int + 1).to_set().filter(keep));
            }
            i = i + 1;
        }
        proof {
            self.active_suspicions@.lemma_take_len();
        }
        self.active_suspicions = kept;
    }

    fn handle_detector_tick(&mut self, node: NodeId)
        requires
            old(self).wf(),
            crashes_before(old(self).stats().crashes@, old(self).current()),
            old(self).current() <= old(self).max_tick(),
        ensures
            final(self).handled_detector_tick(old(self), node),
    {
        let i = match self.find_node(node) {
            Some(i) => i,
            None => return,
        };
        if !self.nodes[i].is_alive() {
            return;
        }
        let interval = self.nodes[i].detector_interval;
        let now = self.clock.now();
        proof {
            assert(self.nodes()[i as int] == self.nodes()[node_pos(self.nodes(), node)]);
        }
        let ghost act0 = self.active();
        let ghost det0 = self.metrics.detections@;
        let ghost log0 = self.metrics.phi_log@;
        match self.find_detector(node) {
            Some(d) => {
                self.detectors[d].1.on_tick(now);
                let ghost checked = self.detectors@;
                let ghost mut kp: Seq<bool> = Seq::empty();
                let ghost mut answers: Seq<Option<D::Level>> = Seq::empty();
                if self.phi_log_enabled {
                    let mut k: usize = 0;
                    proof {
                        assert(self.metrics.phi_log@.subrange(log0.len() as int, self.metrics.phi_log@.len() as int) =~= Seq::<PhiLogEntry<D::Level>>::empty());
                        assert(observed_ids(Seq::<PhiLogEntry<D::Level>>::empty()) =~= Seq::<NodeId>::empty());
                        assert(node_ids_of(self.nodes@).take(0) =~= Seq::<NodeId>::empty());
                    }
                    while k < self.nodes.len()
                        invariant
                            0 <= k <= self.nodes@.len(),
                            d < self.detectors@.len(),
                            self.detectors@[d as int].0 == node,
                            self.detectors@ == checked,
                            self.nodes == old(self).nodes,
                            self.clock == old(self).clock,
                            now == old(self).current(),
                            self.metrics.phi_log@.len() <= log0.len() + k,
                            log0.len() <= self.metrics.phi_log@.len(),
                            self.metrics.phi_log@.subrange(0, log0.len() as int) == log0,
                            sample_fields(self.metrics.phi_log@.subrange(log0.len() as int, self.metrics.phi_log@.len() as int), self.nodes@, node, now),
                            kp.len() == k,
                            picked(node_ids_of(self.nodes@).take(k as int), kp) == observed_ids(
                                self.metrics.phi_log@.subrange(log0.len() as int, self.metrics.phi_log@.len() as int),
                            ),
                            forall|j: int| 0 <= j < k && #[trigger] kp[j] ==> self.nodes@[j].id != node,
                            answers.len() == k,
                            forall|j: int|
                                0 <= j < k && self.nodes@[j].id != node ==> call_ensures(
                                    D::phi_for_node,
                                    (&checked[d as int].1, self.nodes@[j].id),
                                    #[trigger] answers[j],
                                ),
                            self.metrics.phi_log@.subrange(log0.len() as int, self.metrics.phi_log@.len() as int)
                                == level_samples(self.nodes@.take(k as int), answers, node, now),
                            self.metrics.message_count == old(self).metrics.message_count,
                            self.metrics.detections == old(self).metrics.detections,
                            self.metrics.crashes == old(self).metrics.crashes,
                            self.metrics.recoveries == old(self).metrics.recoveries,
                            detectors_touched(old(self).detectors(), self.detectors(), node),
                            self.queue == old(self).queue,
                            self.active_suspicions == old(self).active_suspicions,
                            self.network == old(self).network,
                            self.rng == old(self).rng,
                            self.max_tick == old(self).max_tick,
                            self.phi_log_enabled == old(self).phi_log_enabled,
                        decreases self.nodes@.len() - k,
                    {
                        let observed = self.nodes[k].id;
                        let ghost before0 = self.metrics.phi_log@;
                        proof {
                            assert(node_ids_of(self.nodes@)[k as int] == observed);
                        }
                        let ghost extra0 = self.metrics.phi_log@.subrange(log0.len() as int, self.metrics.phi_log@.len() as int);
                        let ghost mut answer: Option<D::Level> = None;
                        if observed != node {
                            let det = &self.detectors[d].1;
                            let level = det.phi_for_node(observed);
                            proof {
                                answer = level;
                                assert(call_ensures(D::phi_for_node, (det, observed), level));
                            }
                            match level {
                                Some(phi) => {
                                    let ghost before = self.metrics.phi_log@;
                                    let entry = PhiLogEntry { tick: now, observer: node, observed, phi };
                                    self.metrics.record_phi(entry);
                                    proof {
                                        assert(has_node(self.nodes(), observed)) by {
                                            assert(self.nodes()[k as int].id == observed);
                                        }
                                        let e = self.metrics.phi_log@;
                                        assert(e.subrange(0, log0.len() as int) =~= before.subrange(0, log0.len() as int));
                                        assert(e.subrange(log0.len() as int, e.len() as int) =~= before.subrange(log0.len() as int, before.len() as int).push(entry));
                                        assert(observed_ids(e.subrange(log0.len() as int, e.len() as int)) =~= observed_ids(before.subrange(log0.len() as int, before.len() as int)).push(observed));
                                    }
                                },
                                None => {},
                            }
                        }
                        proof {
                            let grew = self.metrics.phi_log@.len() > before0.len();
                            lemma_picked_push(node_ids_of(self.nodes@), kp, k as int, grew);
                            kp = kp.push(grew);
                            let nk = self.nodes@.take(k as int + 1);
                            assert(nk.drop_last() =~= self.nodes@.take(k as int));
                            assert(answers.push(answer).drop_last() =~= answers);
                            assert(nk.last() == self.nodes@[k as int]);
                            let extra1 = self.metrics.phi_log@.subrange(log0.len() as int, self.metrics.phi_log@.len() as int);
                            if grew {
                                assert(extra1 == extra0.push(PhiLogEntry { tick: now, observer: node, observed, phi: answer->Some_0 }));
                            } else {
                                assert(extra1 =~= extra0);
                            }
                            answers = answers.push(answer);
                        }
                        k = k + 1;
                    }
                    proof {
                        assert(node_ids_of(self.nodes@).take(k as int) =~= node_ids_of(self.nodes@));
                        let extra = self.metrics.phi_log@.subrange(log0.len() as int, self.metrics.phi_log@.len() as int);
                        assert(picked(node_ids_of(self.nodes@), kp) == observed_ids(extra));
                        assert(samples_of_tick(extra, self.nodes@, node, now));
                        assert(self.nodes@.take(k as int) =~= self.nodes@);
                        assert(levels_answered(checked[d as int].1, self.nodes@, node, answers));
                        assert(extra == level_samples(self.nodes@, answers, node, now));
                    }
                } else {
                    proof {
                        lemma_no_samples::<D::Level>(self.nodes@, node, now);
                        assert(self.metrics.phi_log@.subrange(log0.len() as int, self.metrics.phi_log@.len() as int) =~= Seq::<PhiLogEntry<D::Level>>::empty());
                    }
                }
                let suspected = self.detectors[d].1.suspected_nodes();
                self.record_suspicions(node, &suspected);
                let current = self.detectors[d].1.suspected_nodes();
                self.narrow_suspicions(node, &current);
                proof {
                    assert(self.detectors@ == checked);
                    assert(self.active() == narrowed(fold_suspicions(act0, node, suspected@).0, node, current@));
                    assert(has_detector(old(self).detectors(), node));
                    if self.phi_log_enabled {
                        assert(levels_answered(self.detectors()[d as int].1, old(self).nodes(), node, answers));
                    }
                    assert forall|m: int| #[trigger] first_detector(old(self).detectors(), node, m) implies m == d by {
                        if m < d {
                            assert(old(self).detectors()[m].0 != node);
                        } else if m > d {
                            assert(old(self).detectors()[d as int].0 != node);
                        }
                    }
                }
            },
            None => {
                proof {
                    lemma_no_samples::<D::Level>(self.nodes@, node, now);
                    assert(self.metrics.phi_log@.subrange(log0.len() as int, self.metrics.phi_log@.len() as int) =~= Seq::<PhiLogEntry<D::Level>>::empty());
                }
            },
        }
        self.queue.schedule(Event { tick: now + interval, kind: EventKind::DetectorTick { node } });
        proof {
            assert(log0.subrange(0, log0.len() as int) =~= log0);
        }
    }

    fn handle_gossip_round(&mut self, from: NodeId)
        requires
            old(self).wf(),
            old(self).current() <= old(self).max_tick(),
            old(self).stats().message_count + peer_cap(old(self).nodes()) <= u64::MAX,
        ensures
            final(self).handled_gossip_round(old(self), from),
    {
        let i = match self.find_node(from) {
            Some(i) => i,
            None => return,
        };
        if !self.nodes[i].is_alive() {
            return;
        }
        let now = self.clock.now();
        let peers = copy_ids(&self.nodes[i].peers);
        proof {
            lemma_peer_cap(self.nodes(), i as int);
            assert(self.nodes()[i as int] == self.nodes()[node_pos(self.nodes(), from)]);
        }
        let d = match self.find_detector(from) {
            Some(d) => d,
            None => return,
        };
        proof {
            assert forall|m: int| #[trigger] first_detector(old(self).detectors(), from, m) implies m == d by {
                if m < d {
                    assert(old(self).detectors()[m].0 != from);
                } else if m > d {
                    assert(old(self).detectors()[d as int].0 != from);
                }
            }
        }
        let offered = self.detectors[d].1.gossip_offer();
        let ghost offered_g = offered;
        let offer = match offered {
            Some(o) => o,
            None => {
                proof {
                    assert(old(self).detectors()[d as int].1.offers(offered_g));
                    assert(self.gossiped(old(self), from, offered_g));
                }
                return;
            },
        };
        let ghost n0 = self.queue@.len();
        let ghost m0 = self.metrics.message_count;
        let ghost sus = offer.suspicions@;
        let ghost mut tg: Seq<NodeId> = Seq::empty();
        let ghost mut kp: Seq<bool> = Seq::empty();
        let ghost mut width: int = 0;
        if offer.suspicions.len() > 0 {
            let mut rng_slot: Option<Generator> = None;
            std::mem::swap(&mut rng_slot, &mut self.rng);
            match (&self.network, &mut rng_slot) {
                (Some(network), Some(rng)) => {
                    let ghost net = *network;
                    let fanout: usize = if (offer.fanout as usize) < peers.len() {
                        offer.fanout as usize
                    } else {
                        peers.len()
                    };
                    let ghost seed = rng.seed();
                    let ghost hist0 = rng.history();
                    let mut targets = copy_ids(&peers);
                    rng.shuffle(&mut targets);
                    let ghost h1 = rng.history();
                    proof {
                        assert(targets@.take(0) =~= Seq::<NodeId>::empty());
                        assert(self.queue@.subrange(n0 as int, self.queue@.len() as int) =~= Seq::<Event>::empty());
                        tg = targets@;
                        width = fanout as int;
                        broadcast use vstd::seq_lib::group_to_multiset_ensures;
                        assert(targets@.to_multiset().len() == peers@.to_multiset().len());
                        assert(targets@.len() == peers@.len());
                        assert forall|x: NodeId| #[trigger] targets@.contains(x) implies peers@.contains(x) by {
                            assert(targets@.to_multiset().count(x) > 0);
                        }
                    }
                    let mut k: usize = 0;
                    while k < fanout
                        invariant
                            0 <= k <= fanout,
                            fanout <= targets@.len(),
                            targets@.len() == peers@.len(),
                            tg == targets@,
                            width == fanout,
                            rng.seed() == seed,
                            old(self).rng_state() == Some((seed, hist0)),
                            targets@ == order_drawn(seed, hist0, peers@),
                            h1 == hist0.push(Draw::Shuffle { len: peers@.len() as usize }),
                            rng.history() == gossip_sends(net, from, targets@.take(k as int), now, seed, h1).1,
                            self.queue@.subrange(n0 as int, self.queue@.len() as int).len()
                                == gossip_sends(net, from, targets@.take(k as int), now, seed, h1).0.len(),
                            forall|j: int| 0 <= j < self.queue@.len() - n0 ==> carries(
                                #[trigger] self.queue@.subrange(n0 as int, self.queue@.len() as int)[j],
                                from,
                                gossip_sends(net, from, targets@.take(k as int), now, seed, h1).0[j],
                                sus,
                            ),
                            kp.len() == k,
                            receivers(self.queue@.subrange(n0 as int, self.queue@.len() as int)) == picked(targets@.take(k as int), kp),
                            forall|j: int| 0 <= j < k && #[trigger] kp[j] ==> !net.blocked().contains((from, targets@[j])),
                            net.settings().drop_chance == 0 ==> forall|j: int| 0 <= j < k ==> #[trigger] kp[j]
                                == !net.blocked().contains((from, targets@[j])),
                            forall|x: NodeId| #[trigger] targets@.contains(x) ==> peers@.contains(x),
                            self.network == Some(net),
                            *network == net,
                            net.settings() == old(self).network()->0.settings(),
                            net.blocked() == old(self).network()->0.blocked(),
                            offer.suspicions@ == sus,
                            now == old(self).current(),
                            now <= old(self).max_tick(),
                            old(self).max_tick() + net.settings().base_latency + net.settings().jitter <= u64::MAX,
                            peers@.len() <= peer_cap(old(self).nodes()),
                            m0 + peer_cap(old(self).nodes()) <= u64::MAX,
                            self.metrics.message_count - m0 <= k,
                            m0 <= self.metrics.message_count,
                            self.queue@.len() == n0 + (self.metrics.message_count - m0),
                            self.queue@.subrange(0, n0 as int) == old(self).events(),
                            forall|j: int| n0 <= j < self.queue@.len() ==> gossip_delivery(#[trigger] self.queue@[j], from, peers@, sus, net, now),
                            self.clock == old(self).clock,
                            self.max_tick == old(self).max_tick,
                            self.nodes == old(self).nodes,
                            self.detectors == old(self).detectors,
                            self.active_suspicions == old(self).active_suspicions,
                            self.phi_log_enabled == old(self).phi_log_enabled,
                            self.metrics.detections == old(self).metrics.detections,
                            self.metrics.crashes == old(self).metrics.crashes,
                            self.metrics.recoveries == old(self).metrics.recoveries,
                            self.metrics.phi_log == old(self).metrics.phi_log,
                        decreases fanout - k,
                    {
                        let target = targets[k];
                        let ghost before = self.queue@;
                        proof {
                            assert(targets@.contains(target)) by { assert(targets@[k as int] == target); }
                            assert(targets@.take(k as int + 1).drop_last() =~= targets@.take(k as int));
                            assert(targets@.take(k as int + 1).last() == target);
                        }
                        match network.delivery_tick(from, target, now, rng) {
                            Some(arrival) => {
                                let carried = copy_ids(&offer.suspicions);
                                let ghost new_ev = Event { tick: arrival, kind: EventKind::GossipArrival { from, to: target, suspected: carried } };
                                self.queue.schedule(Event { tick: arrival, kind: EventKind::GossipArrival { from, to: target, suspected: carried } });
                                self.metrics.record_message(now);
                                proof {
                                    assert(self.queue@ == before.push(new_ev));
                                    assert(self.queue@.subrange(0, n0 as int) =~= before.subrange(0, n0 as int));
                                    assert(gossip_delivery(new_ev, from, peers@, sus, net, now));
                                    assert(self.queue@.subrange(n0 as int, self.queue@.len() as int) =~= before.subrange(n0 as int, before.len() as int).push(new_ev));
                                    assert(receivers(self.queue@.subrange(n0 as int, self.queue@.len() as int)) =~= receivers(before.subrange(n0 as int, before.len() as int)).push(target));
                                    lemma_picked_push(targets@, kp, k as int, true);
                                    kp = kp.push(true);
                                }
                            },
                            None => {
                                proof {
                                    lemma_picked_push(targets@, kp, k as int, false);
                                    kp = kp.push(false);
                                }
                            },
                        }
                        k = k + 1;
                    }
                    proof {
                        let rs = receivers(self.queue@.subrange(n0 as int, self.queue@.len() as int));
                        assert(tg.take(width) =~= targets@.take(k as int));
                        assert(picked(tg.take(width), kp) == rs);
                        assert(reached(rs, tg.take(width), net, from));
                        assert(tg.to_multiset() == peers@.to_multiset());
                    }
                },
                _ => {},
            }
            self.rng = rng_slot;
        }
        let ghost k = (self.metrics.message_count - m0) as int;
        proof {
            assert(self.queue@.len() == n0 + k);
            assert(self.queue@.subrange(n0 as int, n0 + k) =~= self.queue@.subrange(n0 as int, self.queue@.len() as int));
            assert forall|j: int| 0 <= j < k implies gossip_delivery(#[trigger] self.queue@.subrange(n0 as int, n0 + k)[j], from, peers@, sus, old(self).network()->0, now) by {
                assert(self.queue@.subrange(n0 as int, n0 + k)[j] == self.queue@[n0 + j]);
            }
        }
        let ghost before = self.queue@;
        if offer.interval >= 1 && offer.interval <= u64::MAX - now {
            self.queue.schedule(Event { tick: now + offer.interval, kind: EventKind::GossipRound { from } });
            proof {
                assert(self.queue@.subrange(0, n0 as int) =~= old(self).events());
                assert(self.queue@.subrange(n0 as int, n0 + k) =~= before.subrange(n0 as int, n0 + k));
                assert forall|j: int| 0 <= j < k implies gossip_delivery(#[trigger] self.queue@.subrange(n0 as int, n0 + k)[j], from, peers@, sus, old(self).network()->0, now) by {
                    assert(self.queue@.subrange(n0 as int, n0 + k)[j] == self.queue@[n0 + j]);
                }
            }
        }
        proof {
            assert(old(self).detectors()[d as int].1.offers(offered_g));
            assert(peers@ == old(self).nodes()[node_pos(old(self).nodes(), from)].peers@);
            if sus.len() > 0 && old(self).has_rng() && old(self).network() is Some {
                let sent = self.queue@.subrange(n0 as int, n0 + k);
                assert(sent =~= before.subrange(n0 as int, n0 + k));
                assert(tg.to_multiset() == peers@.to_multiset());
                assert(exists|targets: Seq<NodeId>| #[trigger] targets.to_multiset() == peers@.to_multiset()
                    && reached(receivers(sent), targets.take(width), old(self).network()->0, from));
            }
            assert(self.gossiped(old(self), from, offered_g));
        }
    }

    /// Handles one event at the current tick.
    fn dispatch(&mut self, event: Event)
        requires
            old(self).wf(),
            event.tick == old(self).current(),
            event.tick <= old(self).max_tick(),
            crashes_before(old(self).stats().crashes@, old(self).current()),
            all_due_from(old(self).events(), old(self).current() as int),
            old(self).stats().message_count + old(self).message_work() + message_weight(
                event,
                old(self).max_tick(),
                old(self).nodes(),
            ) <= u64::MAX,
        ensures
            final(self).handled(old(self), event),
            final(self).wf(),
            final(self).keeps_setup(old(self)),
            crashes_before(final(self).stats().crashes@, final(self).current()),
            all_due_from(final(self).events(), final(self).current() as int),
            final(self).pending_work() < old(self).pending_work() + event_weight(
                event,
                old(self).max_tick(),
                work_factor(old(self).nodes()),
            ),
            final(self).stats().message_count + final(self).message_work() <= old(self).stats().message_count
                + old(self).message_work() + message_weight(event, old(self).max_tick(), old(self).nodes()),
            old(self).stats().message_count <= final(self).stats().message_count,
            old(self).stats().detections@.is_prefix_of(final(self).stats().detections@),
            old(self).stats().crashes@.is_prefix_of(final(self).stats().crashes@),
            old(self).stats().recoveries@.is_prefix_of(final(self).stats().recoveries@),
    {
        let ghost m = self.max_tick;
        let ghost c = work_factor(self.nodes());
        let ghost now = self.clock@;
        let ghost q0 = self.queue@;
        let ghost p = peer_cap(self.nodes());
        let ghost nodes0 = self.nodes();
        match event.kind {
            EventKind::HeartbeatSend { from } => {
                proof {
                    assert(event_weight(event, m, c) == (m - now + 1) as nat * c);
                    lemma_span_step(m, now, 1, c);
                    let q: nat = (m - now) as nat / interval_of(nodes0, from);
                    assert(message_weight(event, m, nodes0) == p * (q + 1));
                    assert(p * (q + 1) >= p) by (nonlinear_arith);
                }
                self.handle_heartbeat_send(from);
                proof {
                    lemma_peer_cap_layout(old(self).nodes(), self.nodes());
                    if alive_in(old(self).nodes(), from) {
                        let n0 = q0.len();
                        let k = (self.metrics.message_count - old(self).metrics.message_count) as int;
                        let sent = self.queue@.subrange(n0 as int, n0 + k);
                        let last = self.queue@.last();
                        let i = node_pos(old(self).nodes(), from);
                        lemma_peer_cap(old(self).nodes(), i);
                        assert(self.queue@ =~= q0 + sent.push(last));
                        lemma_weight_append(q0, sent.push(last), m, c);
                        lemma_weight_push(sent, last, m, c);
                        assert forall|j: int| 0 <= j < sent.len() implies (#[trigger] sent[j]).kind is HeartbeatArrival
                            || sent[j].kind is GossipArrival by {
                            assert(heartbeat_delivery(sent[j], from, old(self).nodes()[i].peers@, old(self).network()->0, now));
                        }
                        lemma_weight_messages(sent, m, c);
                        lemma_later_step(last, m, now, c);
                        assert forall|j: int| 0 <= j < self.queue@.len() implies #[trigger] self.queue@[j].tick >= now by {
                            if j < n0 {
                                assert(self.queue@[j] == q0[j]);
                            } else if j < n0 + k {
                                assert(self.queue@[j] == sent[j - n0]);
                                assert(heartbeat_delivery(sent[j - n0], from, old(self).nodes()[i].peers@, old(self).network()->0, now));
                            }
                        }
                        lemma_msg_append(q0, sent.push(last), m, nodes0);
                        lemma_msg_push(sent, last, m, nodes0);
                        lemma_msg_in_flight(sent, m, nodes0);
                        let hb = nodes0[i].heartbeat_interval;
                        assert(nodes0[i].id == from);
                        lemma_interval_at(nodes0, i);
                        lemma_chain_step(m, now, hb as nat, p, k as nat);
                    }
                }
            },
            EventKind::HeartbeatArrival { from, to } => {
                self.handle_heartbeat_arrival(from, to);
                proof {
                    lemma_peer_cap_layout(old(self).nodes(), self.nodes());
                }
            },
            EventKind::NodeCrash { node } => {
                self.handle_node_crash(node);
                proof {
                    lemma_peer_cap_layout(old(self).nodes(), self.nodes());
                    lemma_with_state_layout(old(self).nodes(), node, NodeState::Crashed);
                    assert(old(self).stats().crashes@.is_prefix_of(self.metrics.crashes@));
                    lemma_msg_layout(q0, m, nodes0, self.nodes());
                }
            },
            EventKind::NodeRecover { node } => {
                self.handle_node_recover(node);
                proof {
                    lemma_peer_cap_layout(old(self).nodes(), self.nodes());
                    lemma_with_state_layout(old(self).nodes(), node, NodeState::Alive);
                    let a = Event { tick: (now + 1) as u64, kind: EventKind::HeartbeatSend { from: node } };
                    let b = Event { tick: (now + 1) as u64, kind: EventKind::DetectorTick { node } };
                    lemma_weight_push(q0, a, m, c);
                    lemma_weight_push(q0.push(a), b, m, c);
                    lemma_later_step(a, m, now, c);
                    lemma_later_step(b, m, now, c);
                    assert(event_weight(event, m, c) == (m - now + 1) as nat * c + (m - now + 1) as nat * c + 1);
                    assert(old(self).stats().recoveries@.is_prefix_of(self.metrics.recoveries@));
                    lemma_msg_layout(q0.push(a).push(b), m, nodes0, self.nodes());
                    lemma_msg_push(q0, a, m, nodes0);
                    lemma_msg_push(q0.push(a), b, m, nodes0);
                }
            },
            EventKind::DetectorTick { node } => {
                self.handle_detector_tick(node);
                proof {
                    lemma_peer_cap_layout(old(self).nodes(), self.nodes());
                    assert(event_weight(event, m, c) == (m - now + 1) as nat * c);
                    lemma_span_step(m, now, 1, c);
                    if alive_in(old(self).nodes(), node) {
                        let i = node_pos(old(self).nodes(), node);
                        let t = Event {
                            tick: (now + old(self).nodes()[i].detector_interval) as u64,
                            kind: EventKind::DetectorTick { node },
                        };
                        lemma_weight_push(q0, t, m, c);
                        lemma_later_step(t, m, now, c);
                        lemma_msg_push(q0, t, m, nodes0);
                        if has_detector(old(self).detectors(), node) {
                            let k = choose|k: int| 0 <= k < old(self).detectors().len() && #[trigger] old(self).detectors()[k].0 == node;
                            let fi = lemma_first_detector(old(self).detectors(), node, k);
                            assert(first_detector(old(self).detectors(), node, fi));
                            let dd = self.detectors()[fi].1;
                            let (s1, s2) = choose|s1: Seq<NodeId>, s2: Seq<NodeId>|
                                #![trigger narrowed(fold_suspicions(old(self).active(), node, s1).0, node, s2)]
                                dd.reports(s1) && dd.reports(s2)
                                && self.active() =~= narrowed(fold_suspicions(old(self).active(), node, s1).0, node, s2)
                                && self.metrics.detections@ =~= old(self).stats().detections@
                                    + fold_suspicions(old(self).active(), node, s1).1.map_values(
                                    |x: NodeId| detection_for(old(self).nodes(), old(self).stats().crashes@, now, x),
                                );
                            assert(old(self).stats().detections@.is_prefix_of(self.metrics.detections@));
                        }
                    }
                }
            },
            EventKind::GossipRound { from } => {
                proof {
                    assert(event_weight(event, m, c) == (m - now + 1) as nat * c);
                    lemma_span_step(m, now, 1, c);
                    assert(message_weight(event, m, nodes0) == p * ((m - now + 1) as nat));
                    assert(p * ((m - now + 1) as nat) >= p) by (nonlinear_arith)
                        requires
                            now <= m,
                    ;
                }
                self.handle_gossip_round(from);
                proof {
                    lemma_peer_cap_layout(old(self).nodes(), self.nodes());
                    let n0 = q0.len();
                    let k = (self.metrics.message_count - old(self).metrics.message_count) as int;
                    let sent = self.queue@.subrange(n0 as int, n0 + k);
                    if k > 0 {
                        let i = node_pos(old(self).nodes(), from);
                        let sus = choose|sus: Seq<NodeId>|
                            sus.len() > 0 && forall|j: int| 0 <= j < k ==> gossip_delivery(
                                #[trigger] sent[j],
                                from,
                                old(self).nodes()[i].peers@,
                                sus,
                                old(self).network()->0,
                                now,
                            );
                        assert forall|j: int| 0 <= j < sent.len() implies (#[trigger] sent[j]).kind is HeartbeatArrival
                            || sent[j].kind is GossipArrival by {
                            assert(gossip_delivery(sent[j], from, old(self).nodes()[i].peers@, sus, old(self).network()->0, now));
                        }
                        assert forall|j: int| n0 <= j < n0 + k implies #[trigger] self.queue@[j].tick >= now by {
                            assert(self.queue@[j] == sent[j - n0]);
                            assert(gossip_delivery(sent[j - n0], from, old(self).nodes()[i].peers@, sus, old(self).network()->0, now));
                        }
                    } else {
                        assert(sent =~= Seq::<Event>::empty());
                    }
                    lemma_weight_messages(sent, m, c);
                    if k > 0 {
                        lemma_msg_in_flight(sent, m, nodes0);
                    } else {
                        assert(message_weights(sent, m, nodes0) == 0);
                    }
                    if self.queue@.len() == n0 + k + 1 {
                        let last = self.queue@.last();
                        assert(self.queue@ =~= q0 + sent.push(last));
                        lemma_weight_append(q0, sent.push(last), m, c);
                        lemma_weight_push(sent, last, m, c);
                        lemma_later_step(last, m, now, c);
                        lemma_msg_append(q0, sent.push(last), m, nodes0);
                        lemma_msg_push(sent, last, m, nodes0);
                        lemma_round_step(m, now, last.tick, p, k as nat);
                    } else {
                        assert(self.queue@ =~= q0 + sent);
                        lemma_weight_append(q0, sent, m, c);
                        lemma_msg_append(q0, sent, m, nodes0);
                        lemma_round_step(m, now, (now + 1) as u64, p, k as nat);
                    }
                    assert forall|j: int| 0 <= j < self.queue@.len() implies #[trigger] self.queue@[j].tick >= now by {
                        if j < n0 {
                            assert(self.queue@[j] == q0[j]);
                        } else if j < n0 + k {
                        }
                    }
                }
            },
            EventKind::GossipArrival { from, to, suspected } => {
                self.handle_gossip_arrival(from, to, suspected);
                proof {
                    lemma_peer_cap_layout(old(self).nodes(), self.nodes());
                }
            },
            EventKind::PartitionStart { groups } => {
                self.handle_partition_start(groups);
                proof {
                    lemma_peer_cap_layout(old(self).nodes(), self.nodes());
                }
            },
            EventKind::PartitionEnd => {
                self.handle_partition_end();
                proof {
                    lemma_peer_cap_layout(old(self).nodes(), self.nodes());
                }
            },
        }
    }

    /// Runs the simulation: repeatedly takes the earliest event, moves the
    /// clock to its tick and handles it, until the queue is empty or the
    /// next event lies beyond `max_tick` (that event is dropped).
    pub fn run(&mut self)
        requires
            old(self).wf(),
            all_due_from(old(self).events(), old(self).current() as int),
            crashes_before(old(self).stats().crashes@, old(self).current()),
            old(self).stats().message_count + old(self).message_work() <= u64::MAX,
        ensures
            final(self).wf(),
            final(self).max_tick() == old(self).max_tick(),
            same_layout(old(self).nodes(), final(self).nodes()),
            old(self).current() <= final(self).current(),
            final(self).current() == old(self).current() || final(self).current() <= final(self).max_tick(),
            final(self).events().len() == 0 || all_due_from(final(self).events(), final(self).max_tick() + 1),
            old(self).stats().message_count <= final(self).stats().message_count,
            old(self).stats().detections@.is_prefix_of(final(self).stats().detections@),
            old(self).stats().crashes@.is_prefix_of(final(self).stats().crashes@),
            old(self).stats().recoveries@.is_prefix_of(final(self).stats().recoveries@),
            exists|trace: Seq<Self>| #![trigger trace.last()]
                trace.len() > 0 && trace[0] == *old(self) && Self::is_run(trace)
                && Self::ticks_ascend(trace) && final(self).stopped(&trace.last()),
    {
        let ghost mut trace: Seq<Self> = seq![*self];
        loop
            invariant_except_break
                trace.last() == *self,
            invariant
                trace.len() > 0,
                trace[0] == *old(self),
                Self::is_run(trace),
                Self::ticks_ascend(trace),
                self.wf(),
                self.max_tick() == old(self).max_tick(),
                same_layout(old(self).nodes(), self.nodes()),
                all_due_from(self.events(), self.current() as int),
                crashes_before(self.stats().crashes@, self.current()),
                self.stats().message_count + self.message_work() <= u64::MAX,
                old(self).current() <= self.current(),
                self.current() == old(self).current() || self.current() <= self.max_tick(),
                old(self).stats().message_count <= self.stats().message_count,
                old(self).stats().detections@.is_prefix_of(self.stats().detections@),
                old(self).stats().crashes@.is_prefix_of(self.stats().crashes@),
                old(self).stats().recoveries@.is_prefix_of(self.stats().recoveries@),
            ensures
                self.events().len() == 0 || all_due_from(self.events(), self.max_tick() + 1),
                trace.len() > 0,
                trace[0] == *old(self),
                Self::is_run(trace),
                Self::ticks_ascend(trace),
                self.stopped(&trace.last()),
            decreases self.pending_work(),
        {
            let ghost prev = *self;
            let ghost q0 = self.queue@;
            let ghost c = work_factor(self.nodes());
            match self.queue.pop() {
                None => {
                    break;
                },
                Some(event) => {
                    proof {
                        let k = earliest(q0);
                        lemma_earliest(q0);
                        lemma_weight_remove(q0, k, self.max_tick, c);
                        lemma_msg_remove(q0, k, self.max_tick, self.nodes());
                        assert forall|j: int| 0 <= j < self.queue@.len() implies #[trigger] self.queue@[j].tick >= event.tick by {
                            if j < k {
                                assert(self.queue@[j] == q0[j]);
                            } else {
                                assert(self.queue@[j] == q0[j + 1]);
                            }
                        }
                    }
                    if event.tick > self.max_tick {
                        break;
                    }
                    self.clock.advance_to(event.tick);
                    let ghost mid_state = *self;
                    let ghost mid = self.metrics.detections@;
                    let ghost mid_c = self.metrics.crashes@;
                    let ghost mid_r = self.metrics.recoveries@;
                    self.dispatch(event);
                    proof {
                        lemma_prefix_trans(old(self).stats().detections@, mid, self.metrics.detections@);
                        lemma_prefix_trans(old(self).stats().crashes@, mid_c, self.metrics.crashes@);
                        lemma_prefix_trans(old(self).stats().recoveries@, mid_r, self.metrics.recoveries@);
                        assert(mid_state.took_next(&prev));
                        assert(self.stepped(&prev));
                        let grown = trace.push(*self);
                        assert forall|i: int| #![trigger grown[i]] 0 < i < grown.len() implies grown[i].stepped(&grown[i - 1])
                            && grown[i - 1].current() <= grown[i].current() by {
                            if i < trace.len() {
                                assert(grown[i] == trace[i]);
                                assert(grown[i - 1] == trace[i - 1]);
                            }
                        }
                        trace = grown;
                    }
                },
            }
        }
    }

    /// Adds an event to the queue.
    pub fn schedule(&mut self, event: Event)
        ensures
            final(self).events() == old(self).events().push(event),
            final(self).keeps_setup(old(self)),
            final(self).nodes() == old(self).nodes(),
            final(self).network() == old(self).network(),
            final(self).detectors() == old(self).detectors(),
            final(self).active() == old(self).active(),
            final(self).stats() == old(self).stats(),
            final(self).rng_state() == old(self).rng_state(),
    {
        self.queue.schedule(event);
    }

    /// Turns the suspicion-level timeline on or off.
    pub fn set_phi_log(&mut self, on: bool)
        ensures
            final(self).logging() == on,
            final(self).current() == old(self).current(),
            final(self).max_tick() == old(self).max_tick(),
            final(self).nodes() == old(self).nodes(),
            final(self).has_rng() == old(self).has_rng(),
            final(self).events() == old(self).events(),
            final(self).network() == old(self).network(),
            final(self).detectors() == old(self).detectors(),
            final(self).active() == old(self).active(),
            final(self).stats() == old(self).stats(),
            final(self).rng_state() == old(self).rng_state(),
    {
        self.phi_log_enabled = on;
    }

    /// Whether the node list and network meet `wf`.
    fn layout_ok(&self) -> (b: bool)
        ensures
            b == self.wf(),
    {
        if self.max_tick == u64::MAX {
            return false;
        }
        let n = self.nodes.len();
        let mut i: usize = 0;
        while i < n
            invariant
                n == self.nodes@.len(),
                0 <= i <= n,
                self.max_tick < u64::MAX,
                forall|a: int, b: int| 0 <= a < i && 0 <= b < n && a != b ==> self.nodes@[a].id != self.nodes@[b].id,
                forall|a: int| 0 <= a < i ==> {
                    let nd = #[trigger] self.nodes@[a];
                    &&& nd.heartbeat_interval >= 1
                    &&& nd.detector_interval >= 1
                    &&& self.max_tick + nd.heartbeat_interval <= u64::MAX
                    &&& self.max_tick + nd.detector_interval <= u64::MAX
                },
            decreases n - i,
        {
            let nd = &self.nodes[i];
            if nd.heartbeat_interval == 0 || nd.detector_interval == 0
                || nd.heartbeat_interval > u64::MAX - self.max_tick
                || nd.detector_interval > u64::MAX - self.max_tick {
                return false;
            }
            let mut j: usize = 0;
            while j < n
                invariant
                    n == self.nodes@.len(),
                    0 <= i < n,
                    0 <= j <= n,
                    forall|b: int| 0 <= b < j && b != i ==> self.nodes@[i as int].id != self.nodes@[b].id,
                decreases n - j,
            {
                if j != i && self.nodes[j].id == self.nodes[i].id {
                    return false;
                }
                j = j + 1;
            }
            i = i + 1;
        }
        match &self.network {
            Some(net) => {
                let cfg = net.settings_now();
                let base = cfg.base_latency;
                let jitter = cfg.jitter;
                base <= u64::MAX - self.max_tick && jitter <= u64::MAX - self.max_tick - base
            },
            None => true,
        }
    }

    /// The largest peer count of any node, as an exact count.
    fn peer_cap_exec(&self) -> (r: usize)
        ensures
            r == peer_cap(self.nodes()),
    {
        let mut r: usize = 0;
        let mut i: usize = 0;
        while i < self.nodes.len()
            invariant
                0 <= i <= self.nodes@.len(),
                r == peer_cap(self.nodes@.take(i as int)),
            decreases self.nodes@.len() - i,
        {
            proof {
                assert(self.nodes@.take(i as int + 1).drop_last() =~= self.nodes@.take(i as int));
                assert(self.nodes@.take(i as int + 1).last() == self.nodes@[i as int]);
            }
            if self.nodes[i].peers.len() > r {
                r = self.nodes[i].peers.len();
            }
            i = i + 1;
        }
        proof {
            assert(self.nodes@.take(self.nodes@.len() as int) =~= self.nodes@);
        }
        r
    }

    /// The heartbeat interval that `interval_of` finds for `id`.
    fn interval_of_exec(&self, id: NodeId) -> (r: u64)
        ensures
            r == interval_of(self.nodes(), id),
            r >= 1,
    {
        let mut i: usize = self.nodes.len();
        proof {
            assert(self.nodes@.take(i as int) =~= self.nodes@);
        }
        while i > 0
            invariant
                0 <= i <= self.nodes@.len(),
                interval_of(self.nodes@, id) == interval_of(self.nodes@.take(i as int), id),
            decreases i,
        {
            proof {
                assert(self.nodes@.take(i as int).drop_last() =~= self.nodes@.take(i as int - 1));
                assert(self.nodes@.take(i as int).last() == self.nodes@[i - 1]);
            }
            if self.nodes[i - 1].id == id {
                let iv = self.nodes[i - 1].heartbeat_interval;
                return if iv >= 1 {
                    iv
                } else {
                    1
                };
            }
            i = i - 1;
        }
        1
    }

    /// Whether the messages so far plus the messages that the queue can
    /// still lead to fit in a counter.
    fn work_fits(&self) -> (b: bool)
        ensures
            b == (self.stats().message_count + self.message_work() <= u64::MAX),
    {
        let cap: u128 = self.peer_cap_exec() as u128;
        let ghost nodes = self.nodes();
        let m = self.max_tick;
        let budget: u128 = (u64::MAX - self.metrics.message_count) as u128;
        let mut total: u128 = 0;
        let n = self.queue.len();
        let mut i: usize = 0;
        while i < n
            invariant
                n == self.queue@.len(),
                0 <= i <= n,
                cap == peer_cap(nodes),
                nodes == self.nodes(),
                m == self.max_tick,
                budget == u64::MAX - self.metrics.message_count,
                total == message_weights(self.queue@.take(i as int), m, nodes),
                total <= budget,
            decreases n - i,
        {
            let e = self.queue.get(i);
            let w: Option<u128> = if e.tick > m {
                Some(0)
            } else {
                match e.kind {
                    EventKind::HeartbeatSend { from } => {
                        let iv = self.interval_of_exec(from) as u128;
                        let q: u128 = ((m - e.tick) as u128) / iv;
                        cap.checked_mul(q + 1)
                    },
                    EventKind::NodeRecover { node } => if e.tick < m {
                        let iv = self.interval_of_exec(node) as u128;
                        let q: u128 = ((m - e.tick - 1) as u128) / iv;
                        cap.checked_mul(q + 1)
                    } else {
                        Some(0)
                    },
                    EventKind::GossipRound { .. } => cap.checked_mul((m - e.tick) as u128 + 1),
                    _ => Some(0),
                }
            };
            proof {
                assert(self.queue@.take(i as int + 1).drop_last() =~= self.queue@.take(i as int));
                assert(self.queue@.take(i as int + 1).last() == self.queue@[i as int]);
                lemma_msg_prefix(self.queue@, i as int + 1, m, nodes);
            }
            match w {
                Some(x) => {
                    proof {
                        assert(x == message_weight(self.queue@[i as int], m, nodes));
                    }
                    if x > budget - total {
                        return false;
                    }
                    total = total + x;
                },
                None => {
                    proof {
                        assert(message_weight(self.queue@[i as int], m, nodes) > u128::MAX);
                        lemma_msg_prefix(self.queue@, i as int + 1, m, nodes);
                    }
                    return false;
                },
            }
            i = i + 1;
        }
        proof {
            assert(self.queue@.take(n as int) =~= self.queue@);
        }
        true
    }

    /// Whether the preconditions of `run` hold: a well-formed engine, no event
    /// scheduled in the past, no crash recorded in the future, and room in the
    /// message counter for all the work left.
    pub fn can_run(&self) -> (b: bool)
        ensures
            b == (self.wf() && all_due_from(self.events(), self.current() as int) && crashes_before(
                self.stats().crashes@,
                self.current(),
            ) && self.stats().message_count + self.message_work() <= u64::MAX),
    {
        if !self.layout_ok() {
            return false;
        }
        let now = self.clock.now();
        let mut i: usize = 0;
        while i < self.queue.len()
            invariant
                0 <= i <= self.queue@.len(),
                now == self.clock@,
                forall|j: int| 0 <= j < i ==> #[trigger] self.queue@[j].tick >= now,
            decreases self.queue@.len() - i,
        {
            if self.queue.get(i).tick < now {
                return false;
            }
            i = i + 1;
        }
        let mut j: usize = 0;
        while j < self.metrics.crashes.len()
            invariant
                0 <= j <= self.metrics.crashes@.len(),
                now == self.clock@,
                forall|q: int| 0 <= q < j ==> (#[trigger] self.metrics.crashes@[q]).0 <= now,
            decreases self.metrics.crashes@.len() - j,
        {
            if self.metrics.crashes[j].0 > now {
                return false;
            }
            j = j + 1;
        }
        self.work_fits()
    }

    /// Position of node `id`, if present.
    fn find_node(&self, id: NodeId) -> (r: Option<usize>)
        requires
            ids_distinct(self.nodes()),
        ensures
            r is Some == has_node(self.nodes(), id),
            r matches Some(i) ==> i < self.nodes().len() && self.nodes()[i as int].id == id
                && i == node_pos(self.nodes(), id),
    {
        let mut i: usize = 0;
        while i < self.nodes.len()
            invariant
                0 <= i <= self.nodes@.len(),
                ids_distinct(self.nodes()),
                forall|k: int| 0 <= k < i ==> #[trigger] self.nodes@[k].id != id,
            decreases self.nodes@.len() - i,
        {
            if self.nodes[i].id == id {
                proof {
                    assert(has_node(self.nodes(), id));
                    let p = node_pos(self.nodes(), id);
                    assert(self.nodes()[p].id == id);
                    assert(self.nodes()[i as int].id == id);
                    assert(p == i as int);
                }
                return Some(i);
            }
            i = i + 1;
        }
        None
    }

    /// Whether node `id` exists and is alive.
    fn node_alive(&self, id: NodeId) -> (b: bool)
        requires
            ids_distinct(self.nodes()),
        ensures
            b == alive_in(self.nodes(), id),
    {
        match self.find_node(id) {
            Some(i) => self.nodes[i].is_alive(),
            None => false,
        }
    }

    /// Position of node `id`'s detector, if it has one.
    fn find_detector(&self, id: NodeId) -> (r: Option<usize>)
        ensures
            r matches Some(i) ==> first_detector(self.detectors(), id, i as int),
            r is None ==> forall|k: int| 0 <= k < self.detectors().len() ==> #[trigger] self.detectors()[k].0 != id,
    {
        let mut i: usize = 0;
        while i < self.detectors.len()
            invariant
                0 <= i <= self.detectors@.len(),
                forall|k: int| 0 <= k < i ==> #[trigger] self.detectors@[k].0 != id,
            decreases self.detectors@.len() - i,
        {
            if self.detectors[i].0 == id {
                return Some(i);
            }
            i = i + 1;
        }
        None
    }
}


/// The node whose state an event acts on: the sender of a heartbeat send or
/// gossip round, the receiver of a message, the node of a detector tick.
pub open spec fn actor(e: Event) -> Option<NodeId> {
    match e.kind {
        EventKind::HeartbeatSend { from } => Some(from),
        EventKind::HeartbeatArrival { to, .. } => Some(to),
        EventKind::DetectorTick { node } => Some(node),
        EventKind::GossipRound { from } => Some(from),
        EventKind::GossipArrival { to, .. } => Some(to),
        _ => None,
    }
}

/// A crashed node is inert: a step whose event acts on a node that is not
/// alive sends no message, records no detection, leaves every detector and
/// every reported suspicion as it was, and schedules nothing.
pub proof fn law_crashed_node_is_inert<D: FailureDetector>(pre: Engine<D>, post: Engine<D>)
    requires
        post.stepped(&pre),
        actor(pre.events()[earliest(pre.events())]) matches Some(id) && !alive_in(pre.nodes(), id),
    ensures
        post.stats().message_count == pre.stats().message_count,
        post.stats().detections == pre.stats().detections,
        post.detectors() == pre.detectors(),
        post.active() == pre.active(),
        post.events() == pre.events().remove(earliest(pre.events())),
{
    let e = pre.events()[earliest(pre.events())];
    let mid = choose|mid: Engine<D>| #[trigger] mid.took_next(&pre) && post.handled(&mid, e);
    assert(mid.nodes() == pre.nodes());
}

/// A recovery forgets every reported suspicion of the recovered node and
/// marks it alive.
pub proof fn law_recovery_forgets_suspicions<D: FailureDetector>(pre: Engine<D>, post: Engine<D>, node: NodeId)
    requires
        ids_distinct(pre.nodes()),
        post.stepped(&pre),
        pre.events()[earliest(pre.events())].kind == (EventKind::NodeRecover { node }),
    ensures
        forall|p: (NodeId, NodeId)| #[trigger] post.active().contains(p) ==> p.1 != node,
        has_node(pre.nodes(), node) ==> alive_in(post.nodes(), node),
{
    let e = pre.events()[earliest(pre.events())];
    let mid = choose|mid: Engine<D>| #[trigger] mid.took_next(&pre) && post.handled(&mid, e);
    assert(post.handled_recover(&mid, node));
    if has_node(pre.nodes(), node) {
        let i = node_pos(pre.nodes(), node);
        assert(post.nodes()[i].id == node);
        let j = node_pos(post.nodes(), node);
        assert(post.nodes()[j].id == pre.nodes()[j].id);
    }
}

/// A recovered node's heartbeats and detector resume: after a step that
/// handles a recovery of `node` at tick `t`, the node is alive (when it is a
/// node of the cluster), the recovery is recorded at `t`, and the queue holds
/// a heartbeat send and a detector tick of `node` at `t + 1`.
pub proof fn law_recovery_restarts_chains<D: FailureDetector>(pre: Engine<D>, post: Engine<D>, node: NodeId)
    requires
        ids_distinct(pre.nodes()),
        post.stepped(&pre),
        pre.events()[earliest(pre.events())].kind == (EventKind::NodeRecover { node }),
    ensures
        ({
            let t = pre.events()[earliest(pre.events())].tick;
            &&& post.events().contains(Event { tick: (t + 1) as u64, kind: EventKind::DetectorTick { node } })
            &&& post.events().contains(Event { tick: (t + 1) as u64, kind: EventKind::HeartbeatSend { from: node } })
        }),
        has_node(pre.nodes(), node) ==> alive_in(post.nodes(), node),
        post.stats().recoveries@ == pre.stats().recoveries@.push((pre.events()[earliest(pre.events())].tick, node)),
{
    let e = pre.events()[earliest(pre.events())];
    let mid = choose|mid: Engine<D>| #[trigger] mid.took_next(&pre) && post.handled(&mid, e);
    assert(post.handled_recover(&mid, node));
    let q = post.events();
    assert(q[q.len() - 1] == Event { tick: (e.tick + 1) as u64, kind: EventKind::DetectorTick { node } });
    assert(q[q.len() - 2] == Event { tick: (e.tick + 1) as u64, kind: EventKind::HeartbeatSend { from: node } });
    law_recovery_forgets_suspicions(pre, post, node);
}

/// With suspicion-level logging on, a live node's detector tick logs, in node
/// order, exactly one sample for each other node of the cluster for which its
/// checked detector (the node's first detector `i`, after its check at the
/// tick), asked for that node's level, answers one: the sample is stamped with
/// the tick and the observer and carries that level. The answers the detector
/// gave, and the node position of each sample, are returned.
pub proof fn law_levels_logged<D: FailureDetector>(pre: Engine<D>, post: Engine<D>, node: NodeId, i: int) -> (w: (
    Seq<Option<D::Level>>,
    Seq<int>,
))
    requires
        post.stepped(&pre),
        pre.events()[earliest(pre.events())].kind == (EventKind::DetectorTick { node }),
        pre.logging(),
        alive_in(pre.nodes(), node),
        first_detector(pre.detectors(), node, i),
    ensures
        pre.stats().phi_log@.is_prefix_of(post.stats().phi_log@),
        ({
            let (answers, pos) = w;
            let t = pre.events()[earliest(pre.events())].tick;
            let nodes = pre.nodes();
            let det = post.detectors()[i].1;
            let extra = post.stats().phi_log@.subrange(pre.stats().phi_log@.len() as int, post.stats().phi_log@.len() as int);
            &&& pre.detectors()[i].1.ticked(&det, t)
            &&& answers.len() == nodes.len()
            &&& forall|j: int| 0 <= j < nodes.len() && nodes[j].id != node ==> call_ensures(
                D::phi_for_node,
                (&det, nodes[j].id),
                #[trigger] answers[j],
            )
            &&& pos.len() == extra.len()
            &&& forall|a: int, b: int| 0 <= a < b < pos.len() ==> #[trigger] pos[a] < #[trigger] pos[b]
            &&& forall|a: int|
                #![trigger pos[a]]
                0 <= a < pos.len() ==> 0 <= pos[a] < nodes.len() && nodes[pos[a]].id != node && answers[pos[a]]
                    == Some(extra[a].phi) && extra[a].tick == t && extra[a].observer == node && extra[a].observed
                    == nodes[pos[a]].id
            &&& forall|j: int| 0 <= j < nodes.len() && nodes[j].id != node && (#[trigger] answers[j]) is Some ==> exists|a: int|
                0 <= a < pos.len() && #[trigger] pos[a] == j
        }),
{
    let e = pre.events()[earliest(pre.events())];
    let mid = choose|mid: Engine<D>| #[trigger] mid.took_next(&pre) && post.handled(&mid, e);
    assert(post.handled_detector_tick(&mid, node));
    let n0 = pre.stats().phi_log@.len();
    assert(pre.stats().phi_log@.is_prefix_of(post.stats().phi_log@)) by {
        assert(post.stats().phi_log@.subrange(0, n0 as int) =~= pre.stats().phi_log@);
    }
    assert(first_detector(mid.detectors(), node, i));
    assert(has_detector(mid.detectors(), node));
    let det = post.detectors()[i].1;
    let answers = choose|answers: Seq<Option<D::Level>>|
        #[trigger] levels_answered(det, mid.nodes(), node, answers)
        && post.stats().phi_log@.subrange(
            mid.stats().phi_log@.len() as int,
            post.stats().phi_log@.len() as int,
        ) == level_samples(mid.nodes(), answers, node, mid.current());
    let pos = lemma_level_sample_positions(mid.nodes(), answers, node, mid.current());
    (answers, pos)
}

/// Every detection that a step records is stamped with the step's tick, and
/// is a true positive exactly when its node was crashed then, with the time
/// since that node's latest crash as latency.
pub proof fn law_detections_classified<D: FailureDetector>(pre: Engine<D>, post: Engine<D>)
    requires
        post.stepped(&pre),
    ensures
        pre.stats().detections@.is_prefix_of(post.stats().detections@),
        forall|j: int| pre.stats().detections@.len() <= j < post.stats().detections@.len() ==> {
            let d = #[trigger] post.stats().detections@[j];
            d == detection_for(pre.nodes(), pre.stats().crashes@, pre.events()[earliest(pre.events())].tick, d.node)
        },
{
    let e = pre.events()[earliest(pre.events())];
    let mid = choose|mid: Engine<D>| #[trigger] mid.took_next(&pre) && post.handled(&mid, e);
    let n = pre.stats().detections@.len();
    match e.kind {
        EventKind::DetectorTick { node } => {
            if alive_in(mid.nodes(), node) && has_detector(mid.detectors(), node) {
                let k = choose|k: int| 0 <= k < mid.detectors().len() && #[trigger] mid.detectors()[k].0 == node;
                let fi = lemma_first_detector(mid.detectors(), node, k);
                assert(first_detector(mid.detectors(), node, fi));
                let dd = post.detectors()[fi].1;
                let (s1, s2) = choose|s1: Seq<NodeId>, s2: Seq<NodeId>|
                    #![trigger narrowed(fold_suspicions(mid.active(), node, s1).0, node, s2)]
                    dd.reports(s1) && dd.reports(s2) && post.active() =~= narrowed(fold_suspicions(mid.active(), node, s1).0, node, s2)
                    && post.stats().detections@ =~= mid.stats().detections@
                        + fold_suspicions(mid.active(), node, s1).1.map_values(
                        |x: NodeId| detection_for(mid.nodes(), mid.stats().crashes@, mid.current(), x),
                    );
                let fresh = fold_suspicions(mid.active(), node, s1).1;
                assert forall|j: int| n <= j < post.stats().detections@.len() implies {
                    let d = #[trigger] post.stats().detections@[j];
                    d == detection_for(pre.nodes(), pre.stats().crashes@, e.tick, d.node)
                } by {
                    assert(post.stats().detections@[j] == detection_for(mid.nodes(), mid.stats().crashes@, mid.current(), fresh[j - n]));
                }
                assert(pre.stats().detections@.is_prefix_of(post.stats().detections@)) by {
                    assert(post.stats().detections@.subrange(0, n as int) =~= pre.stats().detections@);
                }
            }
        },
        _ => {},
    }
}

/// Every detection that a step records with a latency `l` counts from its
/// node's most recent crash: a crash of that node is recorded `l` ticks before
/// the detection, and none is recorded after it; a true positive of a node
/// with a recorded crash carries a latency.
pub proof fn law_detection_latency<D: FailureDetector>(pre: Engine<D>, post: Engine<D>)
    requires
        post.stepped(&pre),
        crashes_before(pre.stats().crashes@, pre.events()[earliest(pre.events())].tick),
    ensures
        forall|j: int| pre.stats().detections@.len() <= j < post.stats().detections@.len() ==> {
            let d = #[trigger] post.stats().detections@[j];
            let c = post.stats().crashes@;
            &&& d.latency matches Some(l) ==> exists|i: int|
                0 <= i < c.len() && #[trigger] c[i] == ((d.tick - l) as u64, d.node) && forall|k: int|
                    i < k < c.len() ==> (#[trigger] c[k]).1 != d.node
            &&& d.true_positive && (exists|i: int| 0 <= i < c.len() && (#[trigger] c[i]).1 == d.node) ==> d.latency is Some
        },
{
    let e = pre.events()[earliest(pre.events())];
    let mid = choose|mid: Engine<D>| #[trigger] mid.took_next(&pre) && post.handled(&mid, e);
    law_detections_classified(pre, post);
    let n = pre.stats().detections@.len();
    if post.stats().detections@.len() > n {
        assert(post.stats().crashes == pre.stats().crashes) by {
            match e.kind {
                EventKind::DetectorTick { node } => {},
                _ => {
                    assert(post.stats().detections == mid.stats().detections);
                },
            }
        }
        assert forall|j: int| n <= j < post.stats().detections@.len() implies {
            let d = #[trigger] post.stats().detections@[j];
            let c = post.stats().crashes@;
            &&& d.latency matches Some(l) ==> exists|i: int|
                0 <= i < c.len() && #[trigger] c[i] == ((d.tick - l) as u64, d.node) && forall|k: int|
                    i < k < c.len() ==> (#[trigger] c[k]).1 != d.node
            &&& d.true_positive && (exists|i: int| 0 <= i < c.len() && (#[trigger] c[i]).1 == d.node) ==> d.latency is Some
        } by {
            let d = post.stats().detections@[j];
            law_latency_from_latest_crash(pre.nodes(), pre.stats().crashes@, e.tick, d.node);
        }
    }
}

/// A heartbeat send is determined by the state it starts from: the seeded
/// generator fixes which heartbeats get through and when, so two outcomes of
/// the same send schedule the same events, count the same messages and leave
/// the generator in the same place.
pub proof fn law_heartbeat_send_is_determined<D: FailureDetector>(pre: Engine<D>, a: Engine<D>, b: Engine<D>, from: NodeId)
    requires
        a.handled_heartbeat_send(&pre, from),
        b.handled_heartbeat_send(&pre, from),
    ensures
        a.events() == b.events(),
        a.stats().message_count == b.stats().message_count,
        a.rng_state() == b.rng_state(),
{
    if alive_in(pre.nodes(), from) {
        let n0 = pre.events().len();
        let ka = (a.stats().message_count - pre.stats().message_count) as int;
        let kb = (b.stats().message_count - pre.stats().message_count) as int;
        let sa = a.events().subrange(n0 as int, n0 + ka);
        let sb = b.events().subrange(n0 as int, n0 + kb);
        if pre.network() is Some && pre.rng_state() is Some {
            assert(sa == sb);
            assert(ka == sa.len());
            assert(kb == sb.len());
        }
        assert(ka == kb);
        assert(a.events() =~= b.events()) by {
            assert forall|j: int| 0 <= j < a.events().len() implies a.events()[j] == b.events()[j] by {
                if j < n0 {
                    assert(a.events().subrange(0, n0 as int)[j] == b.events().subrange(0, n0 as int)[j]);
                } else if j < n0 + ka {
                    assert(sa[j - n0] == sb[j - n0]);
                }
            }
        }
    }
}

/// Two events alike: equal, or gossip alike in all but the identity of the
/// list they carry, whose contents agree.
pub open spec fn event_alike(a: Event, b: Event) -> bool {
    ||| a == b
    ||| (a.tick == b.tick && gossip_alike(a.kind, b.kind))
}

/// Two gossip arrivals alike: the same sender and receiver, and lists with
/// the same contents.
pub open spec fn gossip_alike(a: EventKind, b: EventKind) -> bool {
    match (a, b) {
        (
            EventKind::GossipArrival { from: f1, to: t1, suspected: s1 },
            EventKind::GossipArrival { from: f2, to: t2, suspected: s2 },
        ) => f1 == f2 && t1 == t2 && s1@ == s2@,
        _ => false,
    }
}

/// Two event sequences alike position by position.
pub open spec fn events_alike(a: Seq<Event>, b: Seq<Event>) -> bool {
    &&& a.len() == b.len()
    &&& forall|j: int| 0 <= j < a.len() ==> #[trigger] event_alike(a[j], b[j])
}

/// Two networks alike: both absent, or with the same settings and blocks.
pub open spec fn network_alike(a: Option<Network>, b: Option<Network>) -> bool {
    match (a, b) {
        (None, None) => true,
        (Some(x), Some(y)) => x.settings() == y.settings() && x.blocked() == y.blocked(),
        _ => false,
    }
}

/// Two detector lists alike: the same ids, in order, with agreeing detectors.
pub open spec fn detectors_alike<D: FailureDetector>(a: Seq<(NodeId, D)>, b: Seq<(NodeId, D)>) -> bool {
    &&& a.len() == b.len()
    &&& forall|j: int| #![trigger a[j], b[j]] 0 <= j < a.len() ==> a[j].0 == b[j].0 && a[j].1.agrees_with(&b[j].1)
}

impl<D: FailureDetector> Engine<D> {
    /// Two engines in the same state, as far as what a run does and records:
    /// the clock, the horizon, the queue, the counts and the recorded
    /// detections, crashes and recoveries, the nodes, the network, the
    /// detectors, the generator and the reported pairs. The suspicion-level
    /// samples are left out: the detectors say nothing of their values.
    pub open spec fn alike(&self, other: &Self) -> bool {
        &&& self.current() == other.current()
        &&& self.max_tick() == other.max_tick()
        &&& self.logging() == other.logging()
        &&& events_alike(self.events(), other.events())
        &&& self.stats().message_count == other.stats().message_count
        &&& self.stats().detections@ == other.stats().detections@
        &&& self.stats().crashes@ == other.stats().crashes@
        &&& self.stats().recoveries@ == other.stats().recoveries@
        &&& self.nodes() == other.nodes()
        &&& network_alike(self.network(), other.network())
        &&& detectors_alike(self.detectors(), other.detectors())
        &&& self.rng_state() == other.rng_state()
        &&& self.has_rng() == other.has_rng()
        &&& self.active() == other.active()
    }
}

proof fn lemma_earliest_alike(a: Seq<Event>, b: Seq<Event>)
    requires
        events_alike(a, b),
    ensures
        earliest(a) == earliest(b),
    decreases a.len(),
{
    if a.len() > 1 {
        assert(events_alike(a.drop_last(), b.drop_last())) by {
            assert forall|j: int| 0 <= j < a.drop_last().len() implies #[trigger] event_alike(a.drop_last()[j], b.drop_last()[j]) by {
                assert(event_alike(a[j], b[j]));
            }
        }
        lemma_earliest_alike(a.drop_last(), b.drop_last());
        lemma_earliest(a.drop_last());
        let k = earliest(a.drop_last());
        assert(event_alike(a[k], b[k]));
        assert(event_alike(a[a.len() - 1], b[b.len() - 1]));
    }
}

proof fn lemma_events_remove_alike(a: Seq<Event>, b: Seq<Event>, k: int)
    requires
        events_alike(a, b),
        0 <= k < a.len(),
    ensures
        events_alike(a.remove(k), b.remove(k)),
        event_alike(a[k], b[k]),
{
    assert forall|j: int| 0 <= j < a.remove(k).len() implies #[trigger] event_alike(a.remove(k)[j], b.remove(k)[j]) by {
        if j < k {
            assert(event_alike(a[j], b[j]));
        } else {
            assert(event_alike(a[j + 1], b[j + 1]));
        }
    }
}

/// A queue that grows from alike prefixes by alike events stays alike.
proof fn lemma_events_grow_alike(a: Seq<Event>, b: Seq<Event>, pa: Seq<Event>, pb: Seq<Event>)
    requires
        events_alike(pa, pb),
        a.len() == b.len(),
        pa.len() <= a.len(),
        a.subrange(0, pa.len() as int) == pa,
        b.subrange(0, pb.len() as int) == pb,
        forall|j: int| pa.len() <= j < a.len() ==> #[trigger] event_alike(a[j], b[j]),
    ensures
        events_alike(a, b),
{
    assert forall|j: int| 0 <= j < a.len() implies #[trigger] event_alike(a[j], b[j]) by {
        if j < pa.len() {
            assert(a.subrange(0, pa.len() as int)[j] == a[j]);
            assert(b.subrange(0, pb.len() as int)[j] == b[j]);
            assert(event_alike(pa[j], pb[j]));
        }
    }
}

proof fn lemma_delivery_alike(n1: Network, n2: Network, from: NodeId, to: NodeId, now: Tick, seed: u64, h: Seq<Draw>)
    requires
        n1.settings() == n2.settings(),
        n1.blocked() == n2.blocked(),
    ensures
        delivery(n1, from, to, now, seed, h) == delivery(n2, from, to, now, seed, h),
{
}

proof fn lemma_heartbeats_alike(n1: Network, n2: Network, from: NodeId, peers: Seq<NodeId>, now: Tick, seed: u64, h: Seq<Draw>)
    requires
        n1.settings() == n2.settings(),
        n1.blocked() == n2.blocked(),
    ensures
        heartbeats(n1, from, peers, now, seed, h) == heartbeats(n2, from, peers, now, seed, h),
    decreases peers.len(),
{
    if peers.len() > 0 {
        lemma_heartbeats_alike(n1, n2, from, peers.drop_last(), now, seed, h);
        let (evs, h1) = heartbeats(n1, from, peers.drop_last(), now, seed, h);
        lemma_delivery_alike(n1, n2, from, peers.last(), now, seed, h1);
    }
}

proof fn lemma_gossip_sends_alike(n1: Network, n2: Network, from: NodeId, targets: Seq<NodeId>, now: Tick, seed: u64, h: Seq<Draw>)
    requires
        n1.settings() == n2.settings(),
        n1.blocked() == n2.blocked(),
    ensures
        gossip_sends(n1, from, targets, now, seed, h) == gossip_sends(n2, from, targets, now, seed, h),
    decreases targets.len(),
{
    if targets.len() > 0 {
        lemma_gossip_sends_alike(n1, n2, from, targets.drop_last(), now, seed, h);
        let (ps, h1) = gossip_sends(n1, from, targets.drop_last(), now, seed, h);
        lemma_delivery_alike(n1, n2, from, targets.last(), now, seed, h1);
    }
}

/// Two chains of gossip steps over the same evidence from agreeing detectors
/// agree at every step.
proof fn lemma_noted_chains<D: FailureDetector>(c1: Seq<D>, c2: Seq<D>, suspected: Seq<NodeId>, source: NodeId, j: int)
    requires
        deterministic_detectors::<D>(),
        noted_each(c1, suspected, source),
        noted_each(c2, suspected, source),
        c1[0].agrees_with(&c2[0]),
        0 <= j <= suspected.len(),
    ensures
        c1[j].agrees_with(&c2[j]),
    decreases j,
{
    if j > 0 {
        lemma_noted_chains(c1, c2, suspected, source, j - 1);
        assert(c1[j - 1].noted(&c1[j], suspected[j - 1], source));
        assert(c2[j - 1].noted(&c2[j], suspected[j - 1], source));
    }
}

/// Detector lists alike stay alike when one entry changes, on each side, to
/// agreeing detectors.
proof fn lemma_detectors_entry_alike<D: FailureDetector>(
    a1: Seq<(NodeId, D)>,
    a2: Seq<(NodeId, D)>,
    b1: Seq<(NodeId, D)>,
    b2: Seq<(NodeId, D)>,
    i: int,
)
    requires
        detectors_alike(a1, a2),
        0 <= i < a1.len(),
        only_entry_changed(a1, b1, i),
        only_entry_changed(a2, b2, i),
        b1[i].1.agrees_with(&b2[i].1),
    ensures
        detectors_alike(b1, b2),
{
    assert forall|j: int| #![trigger b1[j], b2[j]] 0 <= j < b1.len() implies b1[j].0 == b2[j].0 && b1[j].1.agrees_with(&b2[j].1) by {
        assert(a1[j].0 == a2[j].0 && a1[j].1.agrees_with(&a2[j].1));
        if j != i {
            assert(b1[j] == a1[j]);
            assert(b2[j] == a2[j]);
        }
    }
}

/// The first detector of a node sits at the same place in alike lists.
proof fn lemma_first_detector_alike<D: FailureDetector>(a1: Seq<(NodeId, D)>, a2: Seq<(NodeId, D)>, id: NodeId) -> (i: int)
    requires
        detectors_alike(a1, a2),
        has_detector(a1, id),
    ensures
        first_detector(a1, id, i),
        first_detector(a2, id, i),
        has_detector(a2, id),
{
    let k = choose|k: int| 0 <= k < a1.len() && #[trigger] a1[k].0 == id;
    let i = lemma_first_detector(a1, id, k);
    assert(a1[i].0 == a2[i].0);
    assert forall|k2: int| 0 <= k2 < i implies #[trigger] a2[k2].0 != id by {
        assert(a1[k2].0 == a2[k2].0);
    }
    i
}

proof fn lemma_has_detector_alike<D: FailureDetector>(a1: Seq<(NodeId, D)>, a2: Seq<(NodeId, D)>, id: NodeId)
    requires
        detectors_alike(a1, a2),
    ensures
        has_detector(a1, id) == has_detector(a2, id),
{
    if has_detector(a1, id) {
        lemma_first_detector_alike(a1, a2, id);
    }
    if has_detector(a2, id) {
        let k = choose|k: int| 0 <= k < a2.len() && #[trigger] a2[k].0 == id;
        assert(a1[k].0 == a2[k].0);
    }
}

proof fn lemma_send_alike<D: FailureDetector>(m1: Engine<D>, m2: Engine<D>, b1: Engine<D>, b2: Engine<D>, from: NodeId)
    requires
        m1.alike(&m2),
        b1.handled_heartbeat_send(&m1, from),
        b2.handled_heartbeat_send(&m2, from),
    ensures
        b1.alike(&b2),
{
    if alive_in(m1.nodes(), from) {
        let node = m1.nodes()[node_pos(m1.nodes(), from)];
        let now = m1.current();
        let n0 = m1.events().len();
        let k1 = (b1.stats().message_count - m1.stats().message_count) as int;
        let k2 = (b2.stats().message_count - m2.stats().message_count) as int;
        let sent1 = b1.events().subrange(n0 as int, n0 + k1);
        let sent2 = b2.events().subrange(n0 as int, n0 + k2);
        if m1.network() is Some && m1.rng_state() is Some {
            let (seed, hist) = m1.rng_state()->0;
            lemma_heartbeats_alike(m1.network()->0, m2.network()->0, from, node.peers@, now, seed, hist);
            assert(sent1 == sent2);
            assert(k1 == sent1.len());
            assert(k2 == sent2.len());
        }
        assert(k1 == k2);
        assert forall|j: int| n0 <= j < b1.events().len() implies #[trigger] event_alike(b1.events()[j], b2.events()[j]) by {
            if j < n0 + k1 {
                assert(sent1[j - n0] == sent2[j - n0]);
            } else {
                assert(b1.events()[j] == b1.events().last());
                assert(b2.events()[j] == b2.events().last());
            }
        }
        lemma_events_grow_alike(b1.events(), b2.events(), m1.events(), m2.events());
    }
}

proof fn lemma_tick_alike<D: FailureDetector>(m1: Engine<D>, m2: Engine<D>, b1: Engine<D>, b2: Engine<D>, node: NodeId)
    requires
        deterministic_detectors::<D>(),
        m1.alike(&m2),
        b1.handled_detector_tick(&m1, node),
        b2.handled_detector_tick(&m2, node),
    ensures
        b1.alike(&b2),
{
    if alive_in(m1.nodes(), node) {
        let now = m1.current();
        assert forall|j: int| m1.events().len() <= j < b1.events().len() implies #[trigger] event_alike(b1.events()[j], b2.events()[j]) by {
            assert(b1.events()[j] == b1.events().last());
            assert(b2.events()[j] == b2.events().last());
        }
        assert(b1.events().subrange(0, m1.events().len() as int) =~= m1.events());
        assert(b2.events().subrange(0, m2.events().len() as int) =~= m2.events());
        lemma_events_grow_alike(b1.events(), b2.events(), m1.events(), m2.events());
        lemma_has_detector_alike(m1.detectors(), m2.detectors(), node);
        if has_detector(m1.detectors(), node) {
            let i = lemma_first_detector_alike(m1.detectors(), m2.detectors(), node);
            let d1 = b1.detectors()[i].1;
            let d2 = b2.detectors()[i].1;
            assert(m1.detectors()[i].1.agrees_with(&m2.detectors()[i].1));
            assert(m1.detectors()[i].1.ticked(&d1, now));
            assert(m2.detectors()[i].1.ticked(&d2, now));
            assert(d1.agrees_with(&d2));
            lemma_detectors_entry_alike(m1.detectors(), m2.detectors(), b1.detectors(), b2.detectors(), i);
            let (s1, s2) = choose|s1: Seq<NodeId>, s2: Seq<NodeId>|
                #![trigger narrowed(fold_suspicions(m1.active(), node, s1).0, node, s2)]
                d1.reports(s1) && d1.reports(s2)
                && b1.active() =~= narrowed(fold_suspicions(m1.active(), node, s1).0, node, s2)
                && b1.stats().detections@ =~= m1.stats().detections@
                    + fold_suspicions(m1.active(), node, s1).1.map_values(
                    |x: NodeId| detection_for(m1.nodes(), m1.stats().crashes@, now, x),
                );
            let (r1, r2) = choose|s1: Seq<NodeId>, s2: Seq<NodeId>|
                #![trigger narrowed(fold_suspicions(m2.active(), node, s1).0, node, s2)]
                d2.reports(s1) && d2.reports(s2)
                && b2.active() =~= narrowed(fold_suspicions(m2.active(), node, s1).0, node, s2)
                && b2.stats().detections@ =~= m2.stats().detections@
                    + fold_suspicions(m2.active(), node, s1).1.map_values(
                    |x: NodeId| detection_for(m2.nodes(), m2.stats().crashes@, now, x),
                );
            assert(s1 == r1);
            assert(s2 == r2);
        }
    }
}

proof fn lemma_round_alike<D: FailureDetector>(m1: Engine<D>, m2: Engine<D>, b1: Engine<D>, b2: Engine<D>, from: NodeId)
    requires
        deterministic_detectors::<D>(),
        m1.alike(&m2),
        b1.handled_gossip_round(&m1, from),
        b2.handled_gossip_round(&m2, from),
    ensures
        b1.alike(&b2),
{
    lemma_has_detector_alike(m1.detectors(), m2.detectors(), from);
    if alive_in(m1.nodes(), from) && has_detector(m1.detectors(), from) {
        let i = lemma_first_detector_alike(m1.detectors(), m2.detectors(), from);
        let o1 = choose|o: Option<GossipOffer>| #[trigger] m1.detectors()[i].1.offers(o) && b1.gossiped(&m1, from, o);
        let o2 = choose|o: Option<GossipOffer>| #[trigger] m2.detectors()[i].1.offers(o) && b2.gossiped(&m2, from, o);
        assert(m1.detectors()[i].1.agrees_with(&m2.detectors()[i].1));
        assert(offers_alike(o1, o2));
        match (o1, o2) {
            (Some(g1), Some(g2)) => {
                let now = m1.current();
                let peers = m1.nodes()[node_pos(m1.nodes(), from)].peers@;
                let n0 = m1.events().len();
                let k1 = (b1.stats().message_count - m1.stats().message_count) as int;
                let k2 = (b2.stats().message_count - m2.stats().message_count) as int;
                let sent1 = b1.events().subrange(n0 as int, n0 + k1);
                let sent2 = b2.events().subrange(n0 as int, n0 + k2);
                let width = if (g1.fanout as int) < peers.len() { g1.fanout as int } else { peers.len() as int };
                if g1.suspicions@.len() > 0 && m1.network() is Some && m1.rng_state() is Some {
                    let (seed, hist) = m1.rng_state()->0;
                    let order = order_drawn(seed, hist, peers);
                    let h1 = hist.push(Draw::Shuffle { len: peers.len() as usize });
                    lemma_gossip_sends_alike(m1.network()->0, m2.network()->0, from, order.take(width), now, seed, h1);
                    let pairs = gossip_sends(m1.network()->0, from, order.take(width), now, seed, h1).0;
                    assert(k1 == pairs.len());
                    assert(k2 == pairs.len());
                    assert forall|j: int| 0 <= j < k1 implies #[trigger] event_alike(sent1[j], sent2[j]) by {
                        assert(carries(sent1[j], from, pairs[j], g1.suspicions@));
                        assert(carries(sent2[j], from, pairs[j], g2.suspicions@));
                    }
                } else {
                    assert(k1 == 0);
                    assert(k2 == 0);
                }
                assert forall|j: int| n0 <= j < b1.events().len() implies #[trigger] event_alike(b1.events()[j], b2.events()[j]) by {
                    if j < n0 + k1 {
                        assert(sent1[j - n0] == b1.events()[j]);
                        assert(sent2[j - n0] == b2.events()[j]);
                        assert(event_alike(sent1[j - n0], sent2[j - n0]));
                    } else {
                        assert(b1.events()[j] == b1.events().last());
                        assert(b2.events()[j] == b2.events().last());
                    }
                }
                lemma_events_grow_alike(b1.events(), b2.events(), m1.events(), m2.events());
            },
            _ => {},
        }
    }
}

proof fn lemma_heartbeat_arrival_alike<D: FailureDetector>(
    m1: Engine<D>,
    m2: Engine<D>,
    b1: Engine<D>,
    b2: Engine<D>,
    from: NodeId,
    to: NodeId,
)
    requires
        deterministic_detectors::<D>(),
        m1.alike(&m2),
        b1.handled_heartbeat_arrival(&m1, from, to),
        b2.handled_heartbeat_arrival(&m2, from, to),
    ensures
        b1.alike(&b2),
{
    lemma_has_detector_alike(m1.detectors(), m2.detectors(), to);
    if alive_in(m1.nodes(), to) && has_detector(m1.detectors(), to) {
        let i = lemma_first_detector_alike(m1.detectors(), m2.detectors(), to);
        assert(m1.detectors()[i].1.agrees_with(&m2.detectors()[i].1));
        assert(m1.detectors()[i].1.heard(&b1.detectors()[i].1, from, m1.current()));
        assert(m2.detectors()[i].1.heard(&b2.detectors()[i].1, from, m2.current()));
        lemma_detectors_entry_alike(m1.detectors(), m2.detectors(), b1.detectors(), b2.detectors(), i);
    }
}

proof fn lemma_gossip_arrival_alike<D: FailureDetector>(
    m1: Engine<D>,
    m2: Engine<D>,
    b1: Engine<D>,
    b2: Engine<D>,
    from: NodeId,
    to: NodeId,
    suspected: Seq<NodeId>,
)
    requires
        deterministic_detectors::<D>(),
        m1.alike(&m2),
        b1.handled_gossip_arrival(&m1, from, to, suspected),
        b2.handled_gossip_arrival(&m2, from, to, suspected),
    ensures
        b1.alike(&b2),
{
    lemma_has_detector_alike(m1.detectors(), m2.detectors(), to);
    if alive_in(m1.nodes(), to) && has_detector(m1.detectors(), to) {
        let i = lemma_first_detector_alike(m1.detectors(), m2.detectors(), to);
        let c1 = choose|chain: Seq<D>| #[trigger] noted_each(chain, suspected, from) && chain[0] == m1.detectors()[i].1
            && chain.last() == b1.detectors()[i].1;
        let c2 = choose|chain: Seq<D>| #[trigger] noted_each(chain, suspected, from) && chain[0] == m2.detectors()[i].1
            && chain.last() == b2.detectors()[i].1;
        assert(m1.detectors()[i].1.agrees_with(&m2.detectors()[i].1));
        lemma_noted_chains(c1, c2, suspected, from, suspected.len() as int);
        lemma_detectors_entry_alike(m1.detectors(), m2.detectors(), b1.detectors(), b2.detectors(), i);
    }
}

/// Handling alike events from alike states leads to alike states.
proof fn lemma_handled_alike<D: FailureDetector>(m1: Engine<D>, m2: Engine<D>, b1: Engine<D>, b2: Engine<D>, e1: Event, e2: Event)
    requires
        deterministic_detectors::<D>(),
        m1.alike(&m2),
        event_alike(e1, e2),
        b1.handled(&m1, e1),
        b2.handled(&m2, e2),
    ensures
        b1.alike(&b2),
{
    if e1 == e2 {
        match e1.kind {
            EventKind::HeartbeatSend { from } => lemma_send_alike(m1, m2, b1, b2, from),
            EventKind::HeartbeatArrival { from, to } => lemma_heartbeat_arrival_alike(m1, m2, b1, b2, from, to),
            EventKind::NodeCrash { node } => {},
            EventKind::NodeRecover { node } => {
                assert(b1.events() =~= m1.events().push(b1.events()[m1.events().len() as int]).push(b1.events().last()));
                assert forall|j: int| m1.events().len() <= j < b1.events().len() implies #[trigger] event_alike(b1.events()[j], b2.events()[j]) by {}
                assert(b1.events().subrange(0, m1.events().len() as int) =~= m1.events());
                assert(b2.events().subrange(0, m2.events().len() as int) =~= m2.events());
                lemma_events_grow_alike(b1.events(), b2.events(), m1.events(), m2.events());
            },
            EventKind::DetectorTick { node } => lemma_tick_alike(m1, m2, b1, b2, node),
            EventKind::GossipRound { from } => lemma_round_alike(m1, m2, b1, b2, from),
            EventKind::GossipArrival { from, to, suspected } => lemma_gossip_arrival_alike(m1, m2, b1, b2, from, to, suspected@),
            EventKind::PartitionStart { groups } => {},
            EventKind::PartitionEnd => {},
        }
    } else {
        match (e1.kind, e2.kind) {
            (
                EventKind::GossipArrival { from: f1, to: t1, suspected: s1 },
                EventKind::GossipArrival { from: f2, to: t2, suspected: s2 },
            ) => lemma_gossip_arrival_alike(m1, m2, b1, b2, f1, t1, s1@),
            _ => {},
        }
    }
}

/// One step from alike states leads to alike states.
proof fn lemma_step_alike<D: FailureDetector>(a1: Engine<D>, a2: Engine<D>, b1: Engine<D>, b2: Engine<D>)
    requires
        deterministic_detectors::<D>(),
        a1.alike(&a2),
        b1.stepped(&a1),
        b2.stepped(&a2),
    ensures
        b1.alike(&b2),
{
    lemma_earliest_alike(a1.events(), a2.events());
    let k = earliest(a1.events());
    lemma_earliest(a1.events());
    lemma_events_remove_alike(a1.events(), a2.events(), k);
    let e1 = a1.events()[k];
    let e2 = a2.events()[k];
    let mid1 = choose|mid: Engine<D>| #[trigger] mid.took_next(&a1) && b1.handled(&mid, e1);
    let mid2 = choose|mid: Engine<D>| #[trigger] mid.took_next(&a2) && b2.handled(&mid, e2);
    assert(mid1.alike(&mid2));
    lemma_handled_alike(mid1, mid2, b1, b2, e1, e2);
}

/// Alike states stop alike.
proof fn lemma_stop_alike<D: FailureDetector>(a1: Engine<D>, a2: Engine<D>, c1: Engine<D>, c2: Engine<D>)
    requires
        a1.alike(&a2),
        c1.stopped(&a1),
        c2.stopped(&a2),
    ensures
        c1.alike(&c2),
{
    if a1.events().len() > 0 {
        lemma_earliest_alike(a1.events(), a2.events());
        lemma_earliest(a1.events());
        lemma_events_remove_alike(a1.events(), a2.events(), earliest(a1.events()));
    }
}

/// Of alike states, one stops exactly when the other does.
proof fn lemma_stop_or_step_alike<D: FailureDetector>(a1: Engine<D>, a2: Engine<D>, b2: Engine<D>, c1: Engine<D>)
    requires
        a1.alike(&a2),
        c1.stopped(&a1),
    ensures
        !b2.stepped(&a2),
{
    if b2.stepped(&a2) {
        lemma_earliest_alike(a1.events(), a2.events());
        lemma_earliest(a2.events());
        assert(event_alike(a1.events()[earliest(a1.events())], a2.events()[earliest(a2.events())]));
    }
}

/// Of alike states, the other one cannot stop where one steps.
proof fn lemma_step_or_stop_alike<D: FailureDetector>(a1: Engine<D>, a2: Engine<D>, b1: Engine<D>, c2: Engine<D>)
    requires
        a1.alike(&a2),
        c2.stopped(&a2),
    ensures
        !b1.stepped(&a1),
{
    if b1.stepped(&a1) {
        lemma_earliest_alike(a1.events(), a2.events());
        lemma_earliest(a1.events());
        assert(event_alike(a1.events()[earliest(a1.events())], a2.events()[earliest(a2.events())]));
    }
}

proof fn lemma_runs_alike<D: FailureDetector>(t1: Seq<Engine<D>>, t2: Seq<Engine<D>>, i: int)
    requires
        deterministic_detectors::<D>(),
        t1.len() > 0,
        t2.len() > 0,
        t1[0].alike(&t2[0]),
        Engine::is_run(t1),
        Engine::is_run(t2),
        0 <= i < t1.len(),
        i < t2.len(),
    ensures
        t1[i].alike(&t2[i]),
    decreases i,
{
    if i > 0 {
        lemma_runs_alike(t1, t2, i - 1);
        assert(t1[i].stepped(&t1[i - 1]));
        assert(t2[i].stepped(&t2[i - 1]));
        lemma_step_alike(t1[i - 1], t2[i - 1], t1[i], t2[i]);
    }
}

/// A run is a function of where it starts: for detectors that behave as
/// functions of their state, two runs from alike states (the same clock,
/// queue, records, nodes, network, generator and detector states) take the
/// same number of steps and end in alike states.
pub proof fn law_runs_are_reproducible<D: FailureDetector>(
    t1: Seq<Engine<D>>,
    t2: Seq<Engine<D>>,
    f1: Engine<D>,
    f2: Engine<D>,
)
    requires
        deterministic_detectors::<D>(),
        t1.len() > 0,
        t2.len() > 0,
        t1[0].alike(&t2[0]),
        Engine::is_run(t1),
        Engine::is_run(t2),
        f1.stopped(&t1.last()),
        f2.stopped(&t2.last()),
    ensures
        t1.len() == t2.len(),
        f1.alike(&f2),
{
    if t1.len() < t2.len() {
        let n = t1.len() - 1;
        lemma_runs_alike(t1, t2, n);
        assert(t2[n + 1].stepped(&t2[n]));
        lemma_stop_or_step_alike(t1[n], t2[n], t2[n + 1], f1);
    } else if t2.len() < t1.len() {
        let n = t2.len() - 1;
        lemma_runs_alike(t1, t2, n);
        assert(t1[n + 1].stepped(&t1[n]));
        lemma_step_or_stop_alike(t1[n], t2[n], t1[n + 1], f2);
    } else {
        lemma_runs_alike(t1, t2, t1.len() - 1);
        lemma_stop_alike(t1.last(), t2.last(), f1, f2);
    }
}

/// Every engine is alike to itself, for detectors that behave as functions of
/// their state; so two runs from the same engine end alike.
pub proof fn law_alike_is_reflexive<D: FailureDetector>(e: Engine<D>)
    requires
        deterministic_detectors::<D>(),
    ensures
        e.alike(&e),
{
    assert forall|j: int| 0 <= j < e.events().len() implies #[trigger] event_alike(e.events()[j], e.events()[j]) by {}
    assert forall|j: int| #![trigger e.detectors()[j]] 0 <= j < e.detectors().len() implies e.detectors()[j].1.agrees_with(
        &e.detectors()[j].1,
    ) by {}
    match e.network() {
        Some(n) => {},
        None => {},
    }
}

} // verus!
