use vstd::prelude::*;


use crate::clock::Tick;
use crate::node::NodeId;
use crate::random::{value_drawn, word_drawn, Draw, Generator};

verus! {

/// 2^53: the scale of `NetworkConfig::drop_chance`.
pub const DROP_SCALE: u64 = 0x20_0000_0000_0000;

/// Configuration for the simulated network.
#[derive(Debug, Clone, Copy)]
pub struct NetworkConfig {
    /// Base one-way latency in ticks.
    pub base_latency: Tick,
    /// Maximum jitter added to base latency (uniform distribution).
    pub jitter: Tick,
    /// Probability that a message is dropped, counted out of `DROP_SCALE` (2^53):
    /// a message is dropped when the top 53 bits of a fresh random word fall
    /// below it. 0 never drops and draws nothing; `DROP_SCALE` always drops.
    pub drop_chance: u64,
}

impl Default for NetworkConfig {
    fn default() -> (c: Self)
        ensures
            c.base_latency == 10,
            c.jitter == 2,
            c.drop_chance == 0,
    {
        Self { base_latency: 10, jitter: 2, drop_chance: 0 }
    }
}

/// The ordered pairs that a partition into `groups` blocks: a sender in one
/// group and a receiver in another.
pub open spec fn partition_pairs(groups: Seq<Vec<NodeId>>) -> Set<(NodeId, NodeId)> {
    Set::new(
        |p: (NodeId, NodeId)|
            exists|i: int, j: int|
                #![trigger groups[i]@.contains(p.0), groups[j]@.contains(p.1)]
                0 <= i < groups.len() && 0 <= j < groups.len() && i != j
                    && groups[i]@.contains(p.0) && groups[j]@.contains(p.1),
    )
}

/// A partition blocks in both directions: if it blocks `a` sending to `b`,
/// it blocks `b` sending to `a`.
pub proof fn law_partition_symmetric(groups: Seq<Vec<NodeId>>, a: NodeId, b: NodeId)
    ensures
        partition_pairs(groups).contains((a, b)) == partition_pairs(groups).contains((b, a)),
{
    if partition_pairs(groups).contains((a, b)) {
        let (i, j) = choose|i: int, j: int|
            0 <= i < groups.len() && 0 <= j < groups.len() && i != j && groups[i]@.contains(a)
                && groups[j]@.contains(b);
        let q = (b, a);
        assert(groups[j]@.contains(q.0) && groups[i]@.contains(q.1));
        assert(partition_pairs(groups).contains(q));
    }
    if partition_pairs(groups).contains((b, a)) {
        let (i, j) = choose|i: int, j: int|
            0 <= i < groups.len() && 0 <= j < groups.len() && i != j && groups[i]@.contains(b)
                && groups[j]@.contains(a);
        let q = (a, b);
        assert(groups[j]@.contains(q.0) && groups[i]@.contains(q.1));
        assert(partition_pairs(groups).contains(q));
    }
}

/// A partition into groups that share no node blocks every pair across two
/// groups and no pair within one group.
pub proof fn law_partition_separates_groups(groups: Seq<Vec<NodeId>>, i: int, j: int, a: NodeId, b: NodeId)
    requires
        0 <= i < groups.len(),
        0 <= j < groups.len(),
        groups[i]@.contains(a),
        groups[j]@.contains(b),
        forall|x: int, y: int, n: NodeId|
            0 <= x < groups.len() && 0 <= y < groups.len() && x != y && #[trigger] groups[x]@.contains(n)
                ==> !#[trigger] groups[y]@.contains(n),
    ensures
        partition_pairs(groups).contains((a, b)) == (i != j),
{
    if i != j {
        let q = (a, b);
        assert(groups[i]@.contains(q.0) && groups[j]@.contains(q.1));
        assert(partition_pairs(groups).contains(q));
    } else if partition_pairs(groups).contains((a, b)) {
        let (x, y) = choose|x: int, y: int|
            0 <= x < groups.len() && 0 <= y < groups.len() && x != y && groups[x]@.contains(a)
                && groups[y]@.contains(b);
        if x != i {
            assert(!groups[x]@.contains(a));
        } else {
            assert(y != i);
            assert(!groups[y]@.contains(b));
        }
    }
}

/// Pairs blocked between group `x` and group `y`, in both directions.
pub open spec fn pairs_between(gx: Seq<NodeId>, gy: Seq<NodeId>) -> Set<(NodeId, NodeId)> {
    Set::new(
        |p: (NodeId, NodeId)|
            (gx.contains(p.0) && gy.contains(p.1)) || (gy.contains(p.0) && gx.contains(p.1)),
    )
}

/// Pairs blocked between group `i` and the groups `i + 1 .. j`.
pub open spec fn row_pairs(g: Seq<Vec<NodeId>>, i: int, j: int) -> Set<(NodeId, NodeId)> {
    Set::new(
        |p: (NodeId, NodeId)|
            exists|y: int|
                #![trigger g[y]@.contains(p.1)]
                #![trigger g[y]@.contains(p.0)]
                i < y < j && ((g[i]@.contains(p.0) && g[y]@.contains(p.1)) || (g[y]@.contains(p.0)
                    && g[i]@.contains(p.1))),
    )
}

/// Pairs blocked between each group `x < i` and every later group.
pub open spec fn rows_pairs(g: Seq<Vec<NodeId>>, i: int) -> Set<(NodeId, NodeId)> {
    Set::new(
        |p: (NodeId, NodeId)|
            exists|x: int, y: int|
                #![trigger g[x]@.contains(p.0), g[y]@.contains(p.1)]
                #![trigger g[y]@.contains(p.0), g[x]@.contains(p.1)]
                0 <= x < i && x < y < g.len() && ((g[x]@.contains(p.0) && g[y]@.contains(p.1)) || (
                g[y]@.contains(p.0) && g[x]@.contains(p.1))),
    )
}

proof fn lemma_row_pairs_step(g: Seq<Vec<NodeId>>, i: int, j: int)
    requires
        0 <= i < j < g.len(),
    ensures
        row_pairs(g, i, j + 1) == row_pairs(g, i, j) + pairs_between(g[i]@, g[j]@),
{
    assert(row_pairs(g, i, j + 1) =~= row_pairs(g, i, j) + pairs_between(g[i]@, g[j]@));
}

proof fn lemma_rows_pairs_step(g: Seq<Vec<NodeId>>, i: int)
    requires
        0 <= i < g.len(),
    ensures
        rows_pairs(g, i + 1) == rows_pairs(g, i) + row_pairs(g, i, g.len() as int),
{
    let row = row_pairs(g, i, g.len() as int);
    assert forall|p: (NodeId, NodeId)| #[trigger] rows_pairs(g, i + 1).contains(p) implies (
    rows_pairs(g, i) + row).contains(p) by {
        let (x, y) = choose|x: int, y: int|
            0 <= x < i + 1 && x < y < g.len() && ((g[x]@.contains(p.0) && g[y]@.contains(p.1)) || (
            g[y]@.contains(p.0) && g[x]@.contains(p.1)));
        if x < i {
            assert(rows_pairs(g, i).contains(p));
        } else {
            assert(row.contains(p));
        }
    }
    assert forall|p: (NodeId, NodeId)| #[trigger] (rows_pairs(g, i) + row).contains(p) implies rows_pairs(
        g,
        i + 1,
    ).contains(p) by {
        if rows_pairs(g, i).contains(p) {
            let (x, y) = choose|x: int, y: int|
                0 <= x < i && x < y < g.len() && ((g[x]@.contains(p.0) && g[y]@.contains(p.1)) || (
                g[y]@.contains(p.0) && g[x]@.contains(p.1)));
            assert(g[x]@.contains(p.0) && g[y]@.contains(p.1) || g[y]@.contains(p.0) && g[x]@.contains(
                p.1,
            ));
        } else {
            let y = choose|y: int|
                i < y < g.len() && ((g[i]@.contains(p.0) && g[y]@.contains(p.1)) || (g[y]@.contains(
                    p.0,
                ) && g[i]@.contains(p.1)));
            assert(g[i]@.contains(p.0) && g[y]@.contains(p.1) || g[y]@.contains(p.0) && g[i]@.contains(
                p.1,
            ));
        }
    }
    assert(rows_pairs(g, i + 1) =~= rows_pairs(g, i) + row);
}

proof fn lemma_rows_pairs_all(g: Seq<Vec<NodeId>>)
    ensures
        rows_pairs(g, g.len() as int) == partition_pairs(g),
{
    assert forall|p: (NodeId, NodeId)| #[trigger] partition_pairs(g).contains(p) implies rows_pairs(
        g,
        g.len() as int,
    ).contains(p) by {
        let (x, y) = choose|x: int, y: int|
            0 <= x < g.len() && 0 <= y < g.len() && x != y && g[x]@.contains(p.0) && g[y]@.contains(
                p.1,
            );
        assert(g[x]@.contains(p.0) && g[y]@.contains(p.1));
    }
    assert forall|p: (NodeId, NodeId)| #[trigger] rows_pairs(g, g.len() as int).contains(p) implies partition_pairs(
        g,
    ).contains(p) by {
        let (x, y) = choose|x: int, y: int|
            0 <= x < g.len() && x < y < g.len() && ((g[x]@.contains(p.0) && g[y]@.contains(p.1)) || (
            g[y]@.contains(p.0) && g[x]@.contains(p.1)));
        if g[x]@.contains(p.0) && g[y]@.contains(p.1) {
        } else {
            assert(g[y]@.contains(p.0) && g[x]@.contains(p.1));
        }
    }
    assert(rows_pairs(g, g.len() as int) =~= partition_pairs(g));
}

/// What `delivery_tick` does with a message from `from` to `to` sent at
/// `send`, drawing from a generator seeded with `seed` after the draws
/// `history`: a blocked message draws nothing and is lost; otherwise, when
/// drops are possible, a word is drawn and the message is lost when its top
/// 53 bits fall below `drop_chance`; a message that is not lost arrives
/// `base_latency` plus a drawn jitter in `0..=jitter` (none drawn when the
/// jitter is 0) after `send`. The result is the arrival tick, if any, and the
/// draws made by then.
pub open spec fn delivery(net: Network, from: NodeId, to: NodeId, send: Tick, seed: u64, history: Seq<Draw>) -> (
    Option<Tick>,
    Seq<Draw>,
) {
    let c = net.settings();
    if net.blocked().contains((from, to)) {
        (None, history)
    } else {
        let h1 = if c.drop_chance > 0 {
            history.push(Draw::Word)
        } else {
            history
        };
        if c.drop_chance > 0 && (word_drawn(seed, history) >> 11u64) < c.drop_chance {
            (None, h1)
        } else if c.jitter > 0 {
            (
                Some((send + c.base_latency + value_drawn(seed, h1, 0, c.jitter)) as u64),
                h1.push(Draw::Between { low: 0, high: c.jitter }),
            )
        } else {
            (Some((send + c.base_latency) as u64), h1)
        }
    }
}

/// What becomes of a message: a blocked pair loses it and draws nothing;
/// otherwise, when drops are possible, the first draw is one word, and the
/// message is lost exactly when that word's top 53 bits fall below the drop
/// chance; a message that is not lost with no jitter arrives exactly
/// `base_latency` after `send`, drawing nothing more.
pub proof fn law_delivery_outcome(net: Network, from: NodeId, to: NodeId, send: Tick, seed: u64, history: Seq<Draw>)
    ensures
        ({
            let (r, h) = delivery(net, from, to, send, seed, history);
            let c = net.settings();
            let lost = c.drop_chance > 0 && (word_drawn(seed, history) >> 11u64) < c.drop_chance;
            &&& net.blocked().contains((from, to)) ==> r is None && h == history
            &&& !net.blocked().contains((from, to)) ==> {
                &&& r is None <==> lost
                &&& c.drop_chance > 0 ==> h.len() > history.len() && h.subrange(0, history.len() as int + 1)
                    == history.push(Draw::Word)
                &&& c.drop_chance == 0 ==> h.len() >= history.len() && h.subrange(0, history.len() as int)
                    == history
                &&& lost ==> h == history.push(Draw::Word)
                &&& !lost && c.jitter == 0 ==> r == Some((send + c.base_latency) as u64) && h == (if c.drop_chance
                    > 0 {
                    history.push(Draw::Word)
                } else {
                    history
                })
            }
        }),
{
    let c = net.settings();
    let hw = history.push(Draw::Word);
    let b = Draw::Between { low: 0, high: c.jitter };
    assert(hw.subrange(0, history.len() as int + 1) =~= hw);
    assert(hw.push(b).subrange(0, history.len() as int + 1) =~= hw);
    assert(history.subrange(0, history.len() as int) =~= history);
    assert(history.push(b).subrange(0, history.len() as int) =~= history);
}

/// A delivered message draws its jitter whatever the drop chance: when a
/// message that is not blocked arrives and the jitter is nonzero, the last
/// draw made for it is one in `0..=jitter`, made right after the drop
/// decision's word (when drops are possible) or first (when they are not),
/// and the message arrives `base_latency` plus that drawn value after `send`.
pub proof fn law_jitter_drawn_whatever_the_drops(
    net: Network,
    from: NodeId,
    to: NodeId,
    send: Tick,
    seed: u64,
    history: Seq<Draw>,
)
    requires
        !net.blocked().contains((from, to)),
        net.settings().jitter > 0,
        delivery(net, from, to, send, seed, history).0 is Some,
    ensures
        ({
            let (r, h) = delivery(net, from, to, send, seed, history);
            let c = net.settings();
            &&& h.len() > 0
            &&& h.last() == (Draw::Between { low: 0, high: c.jitter })
            &&& c.drop_chance > 0 ==> h.drop_last() == history.push(Draw::Word)
            &&& c.drop_chance == 0 ==> h.drop_last() == history
            &&& r == Some((send + c.base_latency + value_drawn(seed, h.drop_last(), 0, c.jitter)) as u64)
        }),
{
    let c = net.settings();
    let h1 = if c.drop_chance > 0 {
        history.push(Draw::Word)
    } else {
        history
    };
    assert(h1.push(Draw::Between { low: 0, high: c.jitter }).drop_last() =~= h1);
}

/// Simulated network that computes delivery times and drop decisions.
#[derive(Debug)]
pub struct Network {
    pub config: NetworkConfig,
    /// Blocked (sender, receiver) pairs of the active partitions; each pair once.
    blocked_pairs: Vec<(NodeId, NodeId)>,
}

impl Network {
    /// The network's configuration.
    pub closed spec fn settings(&self) -> NetworkConfig {
        self.config
    }

    /// The set of (sender, receiver) pairs that cannot currently communicate.
    pub closed spec fn blocked(&self) -> Set<(NodeId, NodeId)> {
        self.blocked_pairs@.to_set()
    }

    /// A network with the given configuration and no partition.
    pub fn new(config: NetworkConfig) -> (n: Self)
        ensures
            n.settings() == config,
            n.blocked() == Set::<(NodeId, NodeId)>::empty(),
    {
        let n = Self { config, blocked_pairs: Vec::new() };
        assert(n.blocked() =~= Set::<(NodeId, NodeId)>::empty());
        n
    }

    /// The network's configuration.
    pub fn settings_now(&self) -> (c: NetworkConfig)
        ensures
            c == self.settings(),
    {
        self.config
    }

    /// Whether the pair is blocked.
    pub fn is_blocked(&self, from: NodeId, to: NodeId) -> (b: bool)
        ensures
            b == self.blocked().contains((from, to)),
    {
        let mut i: usize = 0;
        while i < self.blocked_pairs.len()
            invariant
                0 <= i <= self.blocked_pairs@.len(),
                forall|k: int| 0 <= k < i ==> self.blocked_pairs@[k] != (from, to),
            decreases self.blocked_pairs@.len() - i,
        {
            let (a, b) = self.blocked_pairs[i];
            if a == from && b == to {
                assert(self.blocked_pairs@[i as int] == (from, to));
                return true;
            }
            i = i + 1;
        }
        assert(!self.blocked_pairs@.contains((from, to)));
        false
    }

    fn block_pair(&mut self, from: NodeId, to: NodeId)
        ensures
            final(self).blocked() == old(self).blocked().insert((from, to)),
            final(self).settings() == old(self).settings(),
    {
        if !self.is_blocked(from, to) {
            self.blocked_pairs.push((from, to));
            assert(self.blocked_pairs@.to_set() =~= old(self).blocked_pairs@.to_set().insert((from, to))) by {
                assert(self.blocked_pairs@ == old(self).blocked_pairs@.push((from, to)));
                assert forall|p: (NodeId, NodeId)| #[trigger] self.blocked_pairs@.contains(p) implies
                    old(self).blocked_pairs@.contains(p) || p == (from, to) by {
                    let k = choose|k: int| 0 <= k < self.blocked_pairs@.len() && self.blocked_pairs@[k] == p;
                    if k < old(self).blocked_pairs@.len() {
                        assert(old(self).blocked_pairs@[k] == p);
                    }
                }
                assert forall|p: (NodeId, NodeId)| #[trigger] old(self).blocked_pairs@.contains(p) implies
                    self.blocked_pairs@.contains(p) by {
                    let k = choose|k: int| 0 <= k < old(self).blocked_pairs@.len() && old(self).blocked_pairs@[k] == p;
                    assert(self.blocked_pairs@[k] == p);
                }
                assert(self.blocked_pairs@[old(self).blocked_pairs@.len() as int] == (from, to));
            }
        } else {
            assert(old(self).blocked().insert((from, to)) =~= old(self).blocked());
        }
    }

    /// Blocks `a` to every member of `group` and every member of `group` to `a`.
    fn block_with_group(&mut self, a: NodeId, group: &Vec<NodeId>)
        ensures
            final(self).settings() == old(self).settings(),
            final(self).blocked() == old(self).blocked() + pairs_between(seq![a], group@),
    {
        let mut k: usize = 0;
        while k < group.len()
            invariant
                0 <= k <= group@.len(),
                self.config == old(self).config,
                self.blocked() == old(self).blocked() + pairs_between(seq![a], group@.take(k as int)),
            decreases group@.len() - k,
        {
            let b = group[k];
            self.block_pair(a, b);
            self.block_pair(b, a);
            proof {
                let before = group@.take(k as int);
                let after = group@.take(k as int + 1);
                assert(after == before.push(b));
                assert(pairs_between(seq![a], after) =~= pairs_between(seq![a], before).insert((a, b)).insert((b, a))) by {
                    assert(seq![a][0] == a);
                    assert(seq![a].contains(a));
                    assert(after[k as int] == b);
                    assert forall|x: NodeId| #[trigger] after.contains(x) <==> (before.contains(x) || x == b) by {
                        if after.contains(x) {
                            let i = choose|i: int| 0 <= i < after.len() && after[i] == x;
                            if i < k {
                                assert(before[i] == x);
                            }
                        }
                        if before.contains(x) {
                            let i = choose|i: int| 0 <= i < before.len() && before[i] == x;
                            assert(after[i] == x);
                        }
                    }
                }
            }
            k = k + 1;
        }
        assert(group@.take(group@.len() as int) == group@);
    }

    /// Blocks every member of `gx` from and to every member of `gy`.
    fn block_between(&mut self, gx: &Vec<NodeId>, gy: &Vec<NodeId>)
        ensures
            final(self).settings() == old(self).settings(),
            final(self).blocked() == old(self).blocked() + pairs_between(gx@, gy@),
    {
        let mut k: usize = 0;
        while k < gx.len()
            invariant
                0 <= k <= gx@.len(),
                self.config == old(self).config,
                self.blocked() == old(self).blocked() + pairs_between(gx@.take(k as int), gy@),
            decreases gx@.len() - k,
        {
            let a = gx[k];
            self.block_with_group(a, gy);
            proof {
                let before = gx@.take(k as int);
                let after = gx@.take(k as int + 1);
                assert(after == before.push(a));
                assert forall|x: NodeId| #[trigger] after.contains(x) <==> (before.contains(x) || x == a) by {
                    if after.contains(x) {
                        let i = choose|i: int| 0 <= i < after.len() && after[i] == x;
                        if i < k {
                            assert(before[i] == x);
                        }
                    }
                    if before.contains(x) {
                        let i = choose|i: int| 0 <= i < before.len() && before[i] == x;
                        assert(after[i] == x);
                    }
                    if x == a {
                        assert(after[k as int] == a);
                    }
                }
                assert(seq![a].contains(a)) by { assert(seq![a][0] == a); }
                assert forall|x: NodeId| #[trigger] seq![a].contains(x) implies x == a by {}
                assert(pairs_between(after, gy@) =~= pairs_between(before, gy@) + pairs_between(seq![a], gy@));
            }
            k = k + 1;
        }
        assert(gx@.take(gx@.len() as int) == gx@);
    }

    /// Apply a partition: nodes in different groups cannot communicate.
    /// Each group is a list of node ids that can talk to each other.
    pub fn apply_partition(&mut self, groups: &[Vec<NodeId>])
        ensures
            final(self).settings() == old(self).settings(),
            final(self).blocked() == old(self).blocked() + partition_pairs(groups@),
    {
        let n = groups.len();
        let ghost g = groups@;
        let mut i: usize = 0;
        while i < n
            invariant
                n == g.len(),
                g == groups@,
                0 <= i <= n,
                self.settings() == old(self).settings(),
                self.blocked() == old(self).blocked() + rows_pairs(g, i as int),
            decreases n - i,
        {
            let ghost row_start = self.blocked();
            let mut j: usize = i + 1;
            while j < n
                invariant
                    n == g.len(),
                    g == groups@,
                    0 <= i < n,
                    i + 1 <= j <= n,
                    self.settings() == old(self).settings(),
                    self.blocked() == row_start + row_pairs(g, i as int, j as int),
                decreases n - j,
            {
                self.block_between(&groups[i], &groups[j]);
                proof {
                    lemma_row_pairs_step(g, i as int, j as int);
                }
                j = j + 1;
            }
            proof {
                lemma_rows_pairs_step(g, i as int);
            }
            i = i + 1;
        }
        proof {
            lemma_rows_pairs_all(g);
        }
    }

    /// Remove all active partition rules.
    pub fn clear_partitions(&mut self)
        ensures
            final(self).settings() == old(self).settings(),
            final(self).blocked() == Set::<(NodeId, NodeId)>::empty(),
    {
        self.blocked_pairs.clear();
        assert(self.blocked_pairs@.to_set() =~= Set::<(NodeId, NodeId)>::empty());
    }

    /// Compute the delivery tick for a message sent at `send_tick`.
    /// Returns `None` if the message is dropped or blocked by a partition.
    /// A blocked message draws nothing from the generator.
    pub fn delivery_tick(&self, from: NodeId, to: NodeId, send_tick: Tick, rng: &mut Generator) -> (r:
        Option<Tick>)
        requires
            send_tick + self.settings().base_latency + self.settings().jitter <= u64::MAX,
        ensures
            (r, final(rng).history()) == delivery(*self, from, to, send_tick, old(rng).seed(), old(rng).history()),
            final(rng).seed() == old(rng).seed(),
            self.blocked().contains((from, to)) ==> r is None && *final(rng) == *old(rng),
            !self.blocked().contains((from, to)) && self.settings().drop_chance == 0 ==> r is Some,
            !self.blocked().contains((from, to)) && self.settings().drop_chance >= DROP_SCALE ==> r is None,
            self.settings().drop_chance == 0 && self.settings().jitter == 0 ==> *final(rng) == *old(rng),
            r matches Some(t) ==> send_tick + self.settings().base_latency <= t
                <= send_tick + self.settings().base_latency + self.settings().jitter,
    {
        if self.is_blocked(from, to) {
            return None;
        }
        if self.config.drop_chance > 0 {
            let word = rng.word();
            let fraction = word >> 11u64;
            assert(fraction < DROP_SCALE) by (bit_vector)
                requires
                    fraction == word >> 11u64,
                    DROP_SCALE == 0x20_0000_0000_0000u64,
            ;
            if fraction < self.config.drop_chance {
                return None;
            }
        }
        let jitter = if self.config.jitter > 0 {
            rng.between(0, self.config.jitter)
        } else {
            0
        };
        Some(send_tick + self.config.base_latency + jitter)
    }
}

} // verus!
