//! A map by numbers, with the numbers also in the order in which they came.

use std::collections::hash_map::Entry;
use std::collections::HashMap;
use vstd::prelude::*;

use crate::table::{distinct, lemma_same_map, map_of};

verus! {

broadcast use vstd::std_specs::hash::group_hash_axioms;

/// A map by numbers that can be gone through in the order in which they came.
pub struct Ids<V> {
    map: HashMap<u32, V>,
    order: Vec<u32>,
}

impl<V> View for Ids<V> {
    type V = Map<u32, V>;

    closed spec fn view(&self) -> Map<u32, V> {
        self.map@
    }
}

impl<V> Ids<V> {
    /// Numbers and values in order.
    pub closed spec fn pairs(&self) -> Seq<(u32, V)> {
        Seq::new(self.order@.len(), |i: int| (self.order@[i], self.map@[self.order@[i]]))
    }

    /// The order holds every number of the map once, and no other.
    pub closed spec fn wf(&self) -> bool {
        &&& self.order@.no_duplicates()
        &&& forall|i: int| 0 <= i < self.order@.len() ==> self.map@.contains_key(#[trigger] self.order@[i])
        &&& forall|id: u32| #[trigger] self.map@.contains_key(id) ==> self.order@.contains(id)
    }

    pub fn new() -> (r: Self)
        ensures
            r.wf(),
            r@ == Map::<u32, V>::empty(),
    {
        Ids { map: HashMap::new(), order: Vec::new() }
    }

    /// How many numbers there are.
    pub fn len(&self) -> (r: usize)
        ensures
            r == self.pairs().len(),
            self.wf() ==> r == self@.dom().len() && self@.dom().finite(),
    {
        proof {
            if self.wf() {
                lemma_ids(*self);
                crate::table::lemma_map_of(self.pairs());
            }
        }
        self.order.len()
    }

    /// The number at a place in the order.
    pub fn key_at(&self, i: usize) -> (r: u32)
        requires
            i < self.pairs().len(),
        ensures
            r == self.pairs()[i as int].0,
            self.wf() ==> self@.contains_key(r),
    {
        self.order[i]
    }

    /// The value at a place in the order.
    pub fn value_at(&self, i: usize) -> (r: &V)
        requires
            self.wf(),
            i < self.pairs().len(),
        ensures
            *r == self.pairs()[i as int].1,
            self@.contains_pair(self.pairs()[i as int].0, *r),
    {
        self.map.get(&self.order[i]).unwrap()
    }

    pub fn contains_key(&self, id: u32) -> (r: bool)
        ensures
            r == self@.contains_key(id),
    {
        self.map.contains_key(&id)
    }

    pub fn get(&self, id: u32) -> (r: Option<&V>)
        ensures
            match r {
                Some(v) => self@.contains_pair(id, *v),
                None => !self@.contains_key(id),
            },
    {
        self.map.get(&id)
    }

    /// The value of a number, to be changed.
    pub fn get_mut(&mut self, id: u32) -> (r: Option<&mut V>)
        requires
            old(self).wf(),
        ensures
            final(self).wf(),
            match r {
                Some(v) => {
                    &&& old(self)@.contains_pair(id, *v)
                    &&& final(self)@ == old(self)@.insert(id, *final(v))
                    &&& final(self).pairs().len() == old(self).pairs().len()
                    &&& forall|j: int|
                        0 <= j < old(self).pairs().len() ==> (#[trigger] final(self).pairs()[j]) == if old(
                            self,
                        ).pairs()[j].0 == id {
                            (id, *final(v))
                        } else {
                            old(self).pairs()[j]
                        }
                },
                None => !old(self)@.contains_key(id) && *final(self) == *old(self),
            },
    {
        if !self.map.contains_key(&id) {
            return None;
        }
        match self.map.entry(id) {
            Entry::Occupied(e) => Some(e.into_mut()),
            Entry::Vacant(_) => None,
        }
    }

    /// Sets the value of a number. A new one goes to the end of the order; the value that a
    /// known one had is returned.
    pub fn insert(&mut self, id: u32, v: V) -> (r: Option<V>)
        requires
            old(self).wf(),
        ensures
            final(self).wf(),
            final(self)@ == old(self)@.insert(id, v),
            match r {
                Some(o) => old(self)@.contains_pair(id, o) && final(self).pairs().len() == old(self).pairs().len(),
                None => !old(self)@.contains_key(id) && final(self).pairs() == old(self).pairs().push((id, v)),
            },
    {
        let ghost before = *self;
        let known = self.map.insert(id, v);
        if known.is_none() {
            assert(!before.order@.contains(id)) by {
                if before.order@.contains(id) {
                    let i = choose|i: int| 0 <= i < before.order@.len() && before.order@[i] == id;
                    assert(before.map@.contains_key(before.order@[i]));
                }
            }
            self.order.push(id);
            proof {
                let n = before.order@.len() as int;
                assert forall|k: u32| #[trigger] self.map@.contains_key(k) implies self.order@.contains(k) by {
                    if k == id {
                        assert(self.order@[n] == id);
                    } else {
                        let i = choose|i: int| 0 <= i < n && before.order@[i] == k;
                        assert(self.order@[i] == k);
                    }
                }
                assert forall|i: int| 0 <= i < self.order@.len() implies self.map@.contains_key(
                    #[trigger] self.order@[i],
                ) by {
                    if i < n {
                        assert(before.map@.contains_key(before.order@[i]));
                    }
                }
            }
            assert(self.pairs() =~= before.pairs().push((id, v)));
        } else {
            assert forall|i: int| 0 <= i < self.order@.len() implies self.map@.contains_key(#[trigger] self.order@[i]) by {
                assert(before.map@.contains_key(before.order@[i]));
            }
        }
        known
    }

    /// Takes a number out and returns its value.
    pub fn remove(&mut self, id: u32) -> (r: Option<V>)
        requires
            old(self).wf(),
        ensures
            final(self).wf(),
            final(self)@ == old(self)@.remove(id),
            match r {
                Some(v) => old(self)@.contains_pair(id, v),
                None => !old(self)@.contains_key(id) && final(self).pairs() == old(self).pairs(),
            },
    {
        let ghost before = *self;
        let v = self.map.remove(&id);
        let n: usize = self.order.len();
        let mut i: usize = 0;
        while i < n && self.order[i] != id
            invariant
                n == self.order@.len(),
                i <= n,
                forall|k: int| 0 <= k < i ==> self.order@[k] != id,
            decreases n - i,
        {
            i += 1;
        }
        if i < n {
            let _ = self.order.remove(i);
        }
        proof {
            let o = before.order@;
            let q = self.order@;
            if v is None {
                assert(before.map@.remove(id) =~= before.map@);
                if i < n {
                    assert(before.map@.contains_key(o[i as int]));
                }
                assert(self.pairs() =~= before.pairs());
            }
            assert forall|k: u32| #[trigger] self.map@.contains_key(k) implies q.contains(k) by {
                let j = choose|j: int| 0 <= j < o.len() && o[j] == k;
                if i < n && j > i {
                    assert(q[j - 1] == k);
                } else {
                    assert(q[j] == k);
                }
            }
            assert forall|j: int| 0 <= j < q.len() implies self.map@.contains_key(#[trigger] q[j]) by {
                if i < n && j >= i {
                    assert(before.map@.contains_key(o[j + 1]));
                    assert(o[j + 1] != o[i as int]);
                } else {
                    assert(before.map@.contains_key(o[j]));
                }
            }
        }
        v
    }
}

/// The view is the map of the pairs, in which no number occurs twice.
pub proof fn lemma_ids<V>(t: Ids<V>)
    requires
        t.wf(),
    ensures
        distinct(t.pairs()),
        t@ == map_of(t.pairs()),
{
    let p = t.pairs();
    assert forall|i: int| 0 <= i < p.len() implies t@.contains_key((#[trigger] p[i]).0) && t@[p[i].0] == p[i].1 by {
        assert(t.map@.contains_key(t.order@[i]));
    }
    assert forall|id: u32| #[trigger] t@.contains_key(id) implies exists|i: int|
        0 <= i < p.len() && (#[trigger] p[i]).0 == id by {
        let i = choose|i: int| 0 <= i < t.order@.len() && t.order@[i] == id;
        assert(p[i].0 == id);
    }
    lemma_same_map(p, t@);
}

} // verus!
