//! A small map keyed by node id, kept as a list of entries in the order in
//! which the keys first arrived, so that walking it is deterministic.
use vstd::prelude::*;

use crate::node::NodeId;

verus! {

/// Whether no two entries share a key.
/// The ids other than `k`.
pub open spec fn other_than(k: NodeId) -> spec_fn(NodeId) -> bool {
    |x: NodeId| x != k
}

pub open spec fn keys_unique<V>(s: Seq<(NodeId, V)>) -> bool {
    forall|i: int, j: int| 0 <= i < s.len() && 0 <= j < s.len() && i != j ==> s[i].0 != s[j].0
}

/// The map that a list of entries with distinct keys stands for.
pub open spec fn entries_map<V>(s: Seq<(NodeId, V)>) -> Map<NodeId, V> {
    Map::new(
        |k: NodeId| exists|i: int| 0 <= i < s.len() && s[i].0 == k,
        |k: NodeId| s[choose|i: int| 0 <= i < s.len() && s[i].0 == k].1,
    )
}

/// In a list with distinct keys, the entry at `i` is what the map holds for its key.
pub proof fn lemma_entry_in_map<V>(s: Seq<(NodeId, V)>, i: int)
    requires
        keys_unique(s),
        0 <= i < s.len(),
    ensures
        entries_map(s).contains_key(s[i].0),
        entries_map(s)[s[i].0] == s[i].1,
{
    let k = s[i].0;
    assert(exists|j: int| 0 <= j < s.len() && s[j].0 == k);
    let c = choose|j: int| 0 <= j < s.len() && s[j].0 == k;
    assert(c == i);
}

/// Whether `x` occurs in `v`.
pub fn ids_contain(v: &Vec<NodeId>, x: NodeId) -> (b: bool)
    ensures
        b == v@.contains(x),
{
    let mut i: usize = 0;
    while i < v.len()
        invariant
            0 <= i <= v@.len(),
            forall|j: int| 0 <= j < i ==> v@[j] != x,
        decreases v@.len() - i,
    {
        if v[i] == x {
            assert(v@[i as int] == x);
            return true;
        }
        i = i + 1;
    }
    false
}

/// A copy of a list of ids.
pub fn copy_ids(v: &Vec<NodeId>) -> (r: Vec<NodeId>)
    ensures
        r@ == v@,
{
    let mut r: Vec<NodeId> = Vec::new();
    let mut i: usize = 0;
    while i < v.len()
        invariant
            0 <= i <= v@.len(),
            r@ == v@.take(i as int),
        decreases v@.len() - i,
    {
        r.push(v[i]);
        proof {
            v@.lemma_take_succ_push(i as int);
        }
        i = i + 1;
    }
    proof {
        v@.lemma_take_len();
    }
    r
}

/// A map from node ids to values, walked in first-insertion order.
///
/// The detectors keep their per-node state here rather than in a hashed
/// map: what a detector reports is walked in this order, so a fixed order
/// keeps each run, and every random draw in it, a function of the scenario
/// and the seed, where a hashed map's walk order would vary from process to
/// process.
#[derive(Debug)]
pub struct NodeMap<V> {
    entries: Vec<(NodeId, V)>,
}

impl<V> NodeMap<V> {
    #[verifier::type_invariant]
    pub(crate) open spec fn unique(&self) -> bool {
        keys_unique(self.entries())
    }

    /// The entries, in first-insertion order.
    pub closed spec fn entries(&self) -> Seq<(NodeId, V)> {
        self.entries@
    }

    /// The map that the entries stand for.
    pub closed spec fn view(&self) -> Map<NodeId, V> {
        entries_map(self.entries@)
    }

    /// The keys, in first-insertion order.
    pub closed spec fn keys(&self) -> Seq<NodeId> {
        self.entries@.map_values(|e: (NodeId, V)| e.0)
    }

    /// Facts that tie the entries, the keys and the map together.
    pub proof fn lemma_shape(&self)
        requires
            keys_unique(self.entries()),
        ensures
            keys_unique(self.entries()),
            self.keys().len() == self.entries().len(),
            forall|i: int| 0 <= i < self.keys().len() ==> #[trigger] self.keys()[i] == self.entries()[i].0,
            forall|i: int| 0 <= i < self.entries().len() ==> self.view().contains_key(#[trigger] self.entries()[i].0)
                && self.view()[self.entries()[i].0] == self.entries()[i].1,
            forall|k: NodeId| #[trigger] self.view().contains_key(k) <==> self.keys().contains(k),
            self.keys().no_duplicates(),
    {
        let s = self.entries@;
        assert forall|i: int| 0 <= i < s.len() implies self.view().contains_key(#[trigger] s[i].0)
            && self.view()[s[i].0] == s[i].1 by {
            lemma_entry_in_map(s, i);
        }
        assert forall|k: NodeId| #[trigger] self.view().contains_key(k) <==> self.keys().contains(k) by {
            if self.view().contains_key(k) {
                let i = choose|i: int| 0 <= i < s.len() && s[i].0 == k;
                assert(self.keys()[i] == k);
            }
            if self.keys().contains(k) {
                let i = choose|i: int| 0 <= i < self.keys().len() && self.keys()[i] == k;
                assert(s[i].0 == k);
            }
        }
    }

    /// An empty map.
    pub fn new() -> (m: Self)
        ensures
            m.entries() == Seq::<(NodeId, V)>::empty(),
            m.view() == Map::<NodeId, V>::empty(),
            m.keys() == Seq::<NodeId>::empty(),
    {
        let m = NodeMap { entries: Vec::new() };
        assert(m.view() =~= Map::<NodeId, V>::empty());
        assert(m.keys() =~= Seq::<NodeId>::empty());
        m
    }

    /// Number of entries.
    pub fn len(&self) -> (n: usize)
        ensures
            n == self.entries().len(),
            n == self.view().len(),
            keys_unique(self.entries()),
    {
        proof {
            use_type_invariant(self);
            self.lemma_shape();
            assert(self.view().dom() =~= self.keys().to_set());
            self.keys().unique_seq_to_set();
        }
        self.entries.len()
    }

    /// Position of `k` among the entries, if present.
    fn position(&self, k: NodeId) -> (r: Option<usize>)
        ensures
            r matches Some(i) ==> i < self.entries().len() && self.entries()[i as int].0 == k,
            r is None ==> !self.view().contains_key(k),
    {
        let mut i: usize = 0;
        while i < self.entries.len()
            invariant
                0 <= i <= self.entries@.len(),
                forall|j: int| 0 <= j < i ==> self.entries@[j].0 != k,
            decreases self.entries@.len() - i,
        {
            if self.entries[i].0 == k {
                return Some(i);
            }
            i = i + 1;
        }
        None
    }

    /// Whether `k` has an entry.
    pub fn contains_key(&self, k: NodeId) -> (b: bool)
        ensures
            b == self.view().contains_key(k),
    {
        proof {
            use_type_invariant(self);
            self.lemma_shape();
        }
        self.position(k).is_some()
    }

    /// The value stored for `k`, if any.
    pub fn get(&self, k: NodeId) -> (r: Option<&V>)
        ensures
            r is Some == self.view().contains_key(k),
            r matches Some(v) ==> *v == self.view()[k],
    {
        proof {
            use_type_invariant(self);
            self.lemma_shape();
        }
        match self.position(k) {
            Some(i) => Some(&self.entries[i].1),
            None => None,
        }
    }

    /// The key of the entry at `i`.
    pub fn key_at(&self, i: usize) -> (k: NodeId)
        requires
            i < self.entries().len(),
        ensures
            k == self.entries()[i as int].0,
            k == self.keys()[i as int],
            self.view().contains_key(k),
    {
        proof {
            use_type_invariant(self);
            self.lemma_shape();
        }
        self.entries[i].0
    }

    /// The value of the entry at `i`.
    pub fn value_at(&self, i: usize) -> (v: &V)
        requires
            i < self.entries().len(),
        ensures
            *v == self.entries()[i as int].1,
            *v == self.view()[self.entries()[i as int].0],
    {
        proof {
            use_type_invariant(self);
            self.lemma_shape();
        }
        &self.entries[i].1
    }

    /// Stores `v` for `k`: a present key keeps its position, a new key goes last.
    pub fn insert(&mut self, k: NodeId, v: V)
        ensures
            final(self).view() == old(self).view().insert(k, v),
            old(self).view().contains_key(k) ==> final(self).keys() == old(self).keys(),
            !old(self).view().contains_key(k) ==> final(self).keys() == old(self).keys().push(k),
    {
        proof {
            use_type_invariant(&*self);
            self.lemma_shape();
        }
        let ghost s = self.entries@;
        let pos = self.position(k);
        let mut entries: Vec<(NodeId, V)> = Vec::new();
        std::mem::swap(&mut entries, &mut self.entries);
        match pos {
            Some(i) => {
                entries.set(i, (k, v));
                proof {
                    let t = s.update(i as int, (k, v));
                    assert(entries@ == t);
                    assert(keys_unique(t));
                    assert forall|j: int| 0 <= j < t.len() implies entries_map(t).contains_key(#[trigger] t[j].0)
                        && entries_map(t)[t[j].0] == t[j].1 by {
                        lemma_entry_in_map(t, j);
                    }
                    assert(entries_map(t) =~= entries_map(s).insert(k, v)) by {
                        assert forall|x: NodeId| #[trigger] entries_map(t).contains_key(x) <==> entries_map(s).insert(k, v).contains_key(x) by {
                            if entries_map(t).contains_key(x) {
                                let j = choose|j: int| 0 <= j < t.len() && t[j].0 == x;
                                if j != i {
                                    assert(s[j].0 == x);
                                    lemma_entry_in_map(s, j);
                                }
                            }
                            if entries_map(s).contains_key(x) {
                                let j = choose|j: int| 0 <= j < s.len() && s[j].0 == x;
                                assert(t[j].0 == x);
                            }
                            if x == k {
                                assert(t[i as int].0 == k);
                            }
                        }
                        assert forall|x: NodeId| #[trigger] entries_map(t).contains_key(x) implies entries_map(t)[x] == entries_map(s).insert(k, v)[x] by {
                            let j = choose|j: int| 0 <= j < t.len() && t[j].0 == x;
                            if j != i {
                                assert(s[j] == t[j]);
                                lemma_entry_in_map(s, j);
                            }
                        }
                    }
                    assert(t.map_values(|e: (NodeId, V)| e.0) =~= s.map_values(|e: (NodeId, V)| e.0));
                }
            },
            None => {
                entries.push((k, v));
                proof {
                    let t = s.push((k, v));
                    assert(entries@ == t);
                    assert forall|j: int| 0 <= j < s.len() implies s[j].0 != k by {
                        lemma_entry_in_map(s, j);
                    }
                    assert(keys_unique(t));
                    assert forall|j: int| 0 <= j < t.len() implies entries_map(t).contains_key(#[trigger] t[j].0)
                        && entries_map(t)[t[j].0] == t[j].1 by {
                        lemma_entry_in_map(t, j);
                    }
                    assert(entries_map(t) =~= entries_map(s).insert(k, v)) by {
                        assert forall|x: NodeId| #[trigger] entries_map(t).contains_key(x) <==> entries_map(s).insert(k, v).contains_key(x) by {
                            if entries_map(t).contains_key(x) {
                                let j = choose|j: int| 0 <= j < t.len() && t[j].0 == x;
                                if j < s.len() {
                                    assert(s[j].0 == x);
                                }
                            }
                            if entries_map(s).contains_key(x) {
                                let j = choose|j: int| 0 <= j < s.len() && s[j].0 == x;
                                assert(t[j].0 == x);
                            }
                            if x == k {
                                assert(t[s.len() as int].0 == k);
                            }
                        }
                        assert forall|x: NodeId| #[trigger] entries_map(t).contains_key(x) implies entries_map(t)[x] == entries_map(s).insert(k, v)[x] by {
                            let j = choose|j: int| 0 <= j < t.len() && t[j].0 == x;
                            if j < s.len() {
                                assert(s[j] == t[j]);
                                lemma_entry_in_map(s, j);
                            }
                        }
                    }
                    assert(t.map_values(|e: (NodeId, V)| e.0) =~= s.map_values(|e: (NodeId, V)| e.0).push(k));
                }
            },
        }
        self.entries = entries;
    }

    /// Drops the entry for `k`, if any; the other entries keep their order.
    pub fn remove(&mut self, k: NodeId)
        ensures
            final(self).view() == old(self).view().remove(k),
            final(self).keys() == old(self).keys().filter(other_than(k)),
    {
        proof {
            use_type_invariant(&*self);
            self.lemma_shape();
        }
        let ghost s = self.entries@;
        let pos = self.position(k);
        let mut entries: Vec<(NodeId, V)> = Vec::new();
        std::mem::swap(&mut entries, &mut self.entries);
        match pos {
            Some(i) => {
                entries.remove(i);
                proof {
                    let t = s.remove(i as int);
                    assert(entries@ == t);
                    assert(keys_unique(t));
                    assert(entries_map(t) =~= entries_map(s).remove(k)) by {
                        assert forall|x: NodeId| #[trigger] entries_map(t).contains_key(x) <==> entries_map(s).remove(k).contains_key(x) by {
                            if entries_map(t).contains_key(x) {
                                let j = choose|j: int| 0 <= j < t.len() && t[j].0 == x;
                                if j < i {
                                    assert(s[j].0 == x);
                                } else {
                                    assert(s[j + 1].0 == x);
                                }
                            }
                            if entries_map(s).contains_key(x) && x != k {
                                let j = choose|j: int| 0 <= j < s.len() && s[j].0 == x;
                                if j < i {
                                    assert(t[j].0 == x);
                                } else {
                                    assert(j != i);
                                    assert(t[j - 1].0 == x);
                                }
                            }
                        }
                        assert forall|x: NodeId| #[trigger] entries_map(t).contains_key(x) implies entries_map(t)[x] == entries_map(s).remove(k)[x] by {
                            let j = choose|j: int| 0 <= j < t.len() && t[j].0 == x;
                            lemma_entry_in_map(t, j);
                            if j < i {
                                assert(s[j] == t[j]);
                                lemma_entry_in_map(s, j);
                            } else {
                                assert(s[j + 1] == t[j]);
                                lemma_entry_in_map(s, j + 1);
                            }
                        }
                    }
                    lemma_filter_remove_unique(s.map_values(|e: (NodeId, V)| e.0), i as int, k);
                    assert(t.map_values(|e: (NodeId, V)| e.0) =~= s.map_values(|e: (NodeId, V)| e.0).remove(i as int));
                }
            },
            None => {
                proof {
                    let ks = s.map_values(|e: (NodeId, V)| e.0);
                    assert(!ks.contains(k));
                    lemma_filter_absent(ks, k);
                    assert(entries_map(s).remove(k) =~= entries_map(s));
                }
            },
        }
        self.entries = entries;
    }
}

/// Filtering out a value that does not occur changes nothing.
pub proof fn lemma_filter_absent(s: Seq<NodeId>, k: NodeId)
    requires
        !s.contains(k),
    ensures
        s.filter(other_than(k)) == s,
    decreases s.len(),
{
    reveal(Seq::filter);
    if s.len() > 0 {
        assert(!s.drop_last().contains(k)) by {
            if s.drop_last().contains(k) {
                let i = choose|i: int| 0 <= i < s.drop_last().len() && s.drop_last()[i] == k;
                assert(s[i] == k);
            }
        }
        lemma_filter_absent(s.drop_last(), k);
        assert(s.last() != k) by {
            assert(s[s.len() - 1] == s.last());
        }
        assert(s.drop_last().push(s.last()) =~= s);
    }
}

/// Filtering out the only occurrence of a value removes exactly its position.
pub proof fn lemma_filter_remove_unique(s: Seq<NodeId>, i: int, k: NodeId)
    requires
        0 <= i < s.len(),
        s[i] == k,
        forall|j: int| 0 <= j < s.len() && j != i ==> s[j] != k,
    ensures
        s.filter(other_than(k)) == s.remove(i),
    decreases s.len(),
{
    reveal(Seq::filter);
    let p = s.drop_last();
    if i == s.len() - 1 {
        assert(!p.contains(k)) by {
            if p.contains(k) {
                let j = choose|j: int| 0 <= j < p.len() && p[j] == k;
                assert(s[j] == k);
            }
        }
        lemma_filter_absent(p, k);
        assert(s.remove(i) =~= p);
    } else {
        lemma_filter_remove_unique(p, i, k);
        assert(s.last() != k) by {
            assert(s[s.len() - 1] == s.last());
        }
        assert(p.remove(i).push(s.last()) =~= s.remove(i));
    }
}

} // verus!
