//! A small map from coordinates to values, kept as a list of distinct keys
//! in insertion order.
use vstd::prelude::*;
use crate::coordinates::{Coordinate, CoordModel};

verus! {

/// Coordinates mapped to values; each key appears once.
#[derive(Debug)]
pub struct CoordTable<V> {
    entries: Vec<(Coordinate, V)>,
}

impl<V: View> View for CoordTable<V> {
    type V = Map<CoordModel, V::V>;

    closed spec fn view(&self) -> Map<CoordModel, V::V> {
        Map::new(|k: CoordModel| self.has_key(k), |k: CoordModel| self.entries@[self.index_of(k)].1@)
    }
}

impl<V: View> CoordTable<V> {
    /// Keys are pairwise distinct.
    pub closed spec fn wf(&self) -> bool {
        forall|i: int, j: int|
            0 <= i < self.entries@.len() && 0 <= j < self.entries@.len() && i != j
                ==> #[trigger] self.entries@[i].0@ != #[trigger] self.entries@[j].0@
    }

    closed spec fn has_key(&self, k: CoordModel) -> bool {
        exists|i: int| 0 <= i < self.entries@.len() && #[trigger] self.entries@[i].0@ == k
    }

    closed spec fn index_of(&self, k: CoordModel) -> int {
        choose|i: int| 0 <= i < self.entries@.len() && #[trigger] self.entries@[i].0@ == k
    }

    /// The keys in insertion order.
    pub closed spec fn key_order(&self) -> Seq<CoordModel> {
        self.entries@.map_values(|e: (Coordinate, V)| e.0@)
    }

    proof fn lemma_entry(&self, i: int)
        requires
            self.wf(),
            0 <= i < self.entries@.len(),
        ensures
            self@.contains_key(self.entries@[i].0@),
            self@[self.entries@[i].0@] == self.entries@[i].1@,
            self.index_of(self.entries@[i].0@) == i,
    {
        let k = self.entries@[i].0@;
        assert(self.has_key(k));
        let j = self.index_of(k);
        assert(self.entries@[j].0@ == k);
    }

    /// Every key of the table is listed once in `key_order`.
    pub proof fn lemma_key_order(&self)
        requires
            self.wf(),
        ensures
            self.key_order().len() == self@.dom().len(),
            self@.dom().finite(),
            forall|k: CoordModel| #[trigger] self@.contains_key(k) <==> self.key_order().contains(k),
            self.key_order().no_duplicates(),
    {
        let ks = self.key_order();
        assert forall|k: CoordModel| #[trigger] self@.contains_key(k) <==> ks.contains(k) by {
            if self.has_key(k) {
                let i = self.index_of(k);
                assert(ks[i] == k);
            }
            if ks.contains(k) {
                let i = choose|i: int| 0 <= i < ks.len() && ks[i] == k;
                assert(self.entries@[i].0@ == k);
            }
        }
        assert forall|i: int, j: int| 0 <= i < ks.len() && 0 <= j < ks.len() && i != j implies ks[i]
            != ks[j] by {
            assert(self.entries@[i].0@ != self.entries@[j].0@);
        }
        assert(self@.dom() =~= ks.to_set());
        ks.unique_seq_to_set();
    }

    pub fn new() -> (r: CoordTable<V>)
        ensures
            r.wf(),
            r@ == Map::<CoordModel, V::V>::empty(),
            r.key_order() == Seq::<CoordModel>::empty(),
    {
        let r = CoordTable { entries: Vec::new() };
        assert(r@ =~= Map::<CoordModel, V::V>::empty());
        assert(r.key_order() =~= Seq::<CoordModel>::empty());
        r
    }

    pub fn len(&self) -> (r: usize)
        requires
            self.wf(),
        ensures
            r == self@.dom().len(),
            r == self.key_order().len(),
    {
        proof {
            self.lemma_key_order();
        }
        self.entries.len()
    }

    /// The key at position `i` of the insertion order.
    pub fn key_at(&self, i: usize) -> (r: &Coordinate)
        requires
            i < self.key_order().len(),
        ensures
            r@ == self.key_order()[i as int],
    {
        &self.entries[i].0
    }

    /// The value under the key at position `i` of the insertion order.
    pub fn value_at(&self, i: usize) -> (r: &V)
        requires
            self.wf(),
            i < self.key_order().len(),
        ensures
            r@ == self@[self.key_order()[i as int]],
    {
        proof {
            self.lemma_entry(i as int);
        }
        &self.entries[i].1
    }

    /// Position of `key` in the insertion order.
    pub fn find(&self, key: &Coordinate) -> (r: Option<usize>)
        requires
            self.wf(),
        ensures
            r matches Some(i) ==> i < self.key_order().len() && self.key_order()[i as int] == key@,
            r is None <==> !self@.contains_key(key@),
    {
        let mut i: usize = 0;
        while i < self.entries.len()
            invariant
                self.wf(),
                i <= self.entries@.len(),
                forall|j: int| 0 <= j < i ==> #[trigger] self.entries@[j].0@ != key@,
            decreases self.entries@.len() - i,
        {
            if self.entries[i].0.same_as(key) {
                proof {
                    self.lemma_entry(i as int);
                }
                return Some(i);
            }
            i = i + 1;
        }
        proof {
            if self.has_key(key@) {
                let j = self.index_of(key@);
                assert(self.entries@[j].0@ == key@);
            }
        }
        None
    }

    /// The value under `key`.
    pub fn get(&self, key: &Coordinate) -> (r: Option<&V>)
        requires
            self.wf(),
        ensures
            r is Some <==> self@.contains_key(key@),
            r matches Some(v) ==> v@ == self@[key@],
    {
        match self.find(key) {
            Some(i) => Some(self.value_at(i)),
            None => None,
        }
    }

    /// Puts `value` under `key`; a new key goes to the end of the order.
    pub fn insert(&mut self, key: Coordinate, value: V)
        requires
            old(self).wf(),
        ensures
            final(self).wf(),
            final(self)@ == old(self)@.insert(key@, value@),
            old(self)@.contains_key(key@) ==> final(self).key_order() == old(self).key_order(),
            !old(self)@.contains_key(key@) ==> final(self).key_order() == old(self).key_order().push(
                key@,
            ),
    {
        let ghost before = *self;
        let ghost k = key@;
        let ghost v = value@;
        match self.find(&key) {
            Some(i) => {
                self.entries.set(i, (key, value));
                proof {
                    assert forall|a: int, b: int|
                        0 <= a < self.entries@.len() && 0 <= b < self.entries@.len() && a != b
                            implies #[trigger] self.entries@[a].0@ != #[trigger] self.entries@[b].0@ by {
                        assert(before.entries@[a].0@ != before.entries@[b].0@);
                    }
                    assert forall|q: CoordModel| #[trigger] self@.contains_key(q)
                        == before@.insert(k, v).contains_key(q) by {
                        if self.has_key(q) {
                            let j = self.index_of(q);
                            if j != i {
                                assert(before.entries@[j].0@ == q);
                            }
                        }
                        if before.has_key(q) {
                            let j = before.index_of(q);
                            assert(self.entries@[j].0@ == q);
                        }
                        if q == k {
                            assert(self.entries@[i as int].0@ == q);
                        }
                    }
                    assert forall|q: CoordModel| #[trigger] self@.contains_key(q) implies self@[q]
                        == before@.insert(k, v)[q] by {
                        let j = self.index_of(q);
                        self.lemma_entry(j);
                        if j != i {
                            before.lemma_entry(j);
                        }
                    }
                    assert(self@ =~= before@.insert(k, v));
                    assert(self.key_order() =~= before.key_order());
                }
            },
            None => {
                self.entries.push((key, value));
                proof {
                    let n = before.entries@.len() as int;
                    assert forall|a: int, b: int|
                        0 <= a < self.entries@.len() && 0 <= b < self.entries@.len() && a != b
                            implies #[trigger] self.entries@[a].0@ != #[trigger] self.entries@[b].0@ by {
                        if a < n && b < n {
                            assert(before.entries@[a].0@ != before.entries@[b].0@);
                        } else if a < n {
                            assert(before.has_key(before.entries@[a].0@));
                        } else {
                            assert(before.has_key(before.entries@[b].0@));
                        }
                    }
                    assert forall|q: CoordModel| #[trigger] self@.contains_key(q)
                        == before@.insert(k, v).contains_key(q) by {
                        if self.has_key(q) {
                            let j = self.index_of(q);
                            if j < n {
                                assert(before.entries@[j].0@ == q);
                            }
                        }
                        if before.has_key(q) {
                            let j = before.index_of(q);
                            assert(self.entries@[j].0@ == q);
                        }
                        if q == k {
                            assert(self.entries@[n].0@ == q);
                        }
                    }
                    assert forall|q: CoordModel| #[trigger] self@.contains_key(q) implies self@[q]
                        == before@.insert(k, v)[q] by {
                        let j = self.index_of(q);
                        self.lemma_entry(j);
                        if j < n {
                            before.lemma_entry(j);
                        }
                    }
                    assert(self@ =~= before@.insert(k, v));
                    assert(self.key_order() =~= before.key_order().push(k));
                }
            },
        }
    }
}

} // verus!
