//! A small map that keeps its keys in the order in which they came.

use vstd::prelude::*;

verus! {

/// What a table can be keyed by: values that are the same exactly when they
/// stand for the same thing.
pub trait Key: Sized {
    type Id;

    spec fn id(&self) -> Self::Id;

    fn same(&self, other: &Self) -> (r: bool)
        ensures
            r == (self.id() == other.id()),
    ;

    fn duplicate(&self) -> (r: Self)
        ensures
            r.id() == self.id(),
    ;
}

impl Key for String {
    type Id = Seq<char>;

    open spec fn id(&self) -> Seq<char> {
        self@
    }

    fn same(&self, other: &Self) -> (r: bool) {
        crate::text::same_str(self, other)
    }

    fn duplicate(&self) -> (r: Self) {
        crate::text::owned(self)
    }
}

impl Key for Vec<u8> {
    type Id = Seq<u8>;

    open spec fn id(&self) -> Seq<u8> {
        self@
    }

    fn same(&self, other: &Self) -> (r: bool) {
        crate::bytes::same_bytes(self, other)
    }

    fn duplicate(&self) -> (r: Self) {
        crate::bytes::copy_of(self)
    }
}

/// The map of a list of pairs; a later pair wins.
pub open spec fn map_of<I, V>(s: Seq<(I, V)>) -> Map<I, V>
    decreases s.len(),
{
    if s.len() == 0 {
        Map::empty()
    } else {
        map_of(s.drop_last()).insert(s.last().0, s.last().1)
    }
}

/// No key occurs twice.
pub open spec fn distinct<I, V>(s: Seq<(I, V)>) -> bool {
    forall|i: int, j: int| 0 <= i < j < s.len() ==> (#[trigger] s[i]).0 != (#[trigger] s[j]).0
}

pub proof fn lemma_map_of<I, V>(s: Seq<(I, V)>)
    requires
        distinct(s),
    ensures
        map_of(s).dom().finite(),
        map_of(s).dom().len() == s.len(),
        forall|i: int| 0 <= i < s.len() ==> map_of(s).contains_key((#[trigger] s[i]).0) && map_of(s)[s[i].0] == s[i].1,
        forall|id: I| #[trigger] map_of(s).contains_key(id) ==> exists|i: int| 0 <= i < s.len() && (#[trigger] s[i]).0
            == id,
    decreases s.len(),
{
    if s.len() > 0 {
        let d = s.drop_last();
        let m = map_of(d);
        let n = map_of(s);
        assert forall|i: int, j: int| 0 <= i < j < d.len() implies (#[trigger] d[i]).0 != (#[trigger] d[j]).0 by {
            assert(s[i].0 != s[j].0);
        }
        lemma_map_of(d);
        if m.contains_key(s.last().0) {
            let i = choose|i: int| 0 <= i < d.len() && (#[trigger] d[i]).0 == s.last().0;
            assert(s[i].0 != s[s.len() - 1].0);
        }
        assert(n.dom() =~= m.dom().insert(s.last().0));
        assert forall|i: int| 0 <= i < s.len() implies n.contains_key((#[trigger] s[i]).0) && n[s[i].0] == s[i].1 by {
            if i < d.len() {
                assert(d[i] == s[i]);
                assert(s[i].0 != s[s.len() - 1].0);
            }
        }
        assert forall|id: I| #[trigger] n.contains_key(id) implies exists|i: int|
            0 <= i < s.len() && (#[trigger] s[i]).0 == id by {
            if id == s.last().0 {
                assert(s[s.len() - 1].0 == id);
            } else {
                assert(m.contains_key(id));
                let i = choose|i: int| 0 <= i < d.len() && (#[trigger] d[i]).0 == id;
                assert(s[i].0 == id);
            }
        }
    } else {
        assert(map_of(s).dom() =~= Set::empty());
    }
}

/// Two lists of distinct keys with the same pairs give the same map.
pub proof fn lemma_same_map<I, V>(s: Seq<(I, V)>, m: Map<I, V>)
    requires
        distinct(s),
        forall|i: int| 0 <= i < s.len() ==> m.contains_key((#[trigger] s[i]).0) && m[s[i].0] == s[i].1,
        forall|id: I| #[trigger] m.contains_key(id) ==> exists|i: int| 0 <= i < s.len() && (#[trigger] s[i]).0 == id,
    ensures
        map_of(s) == m,
{
    lemma_map_of(s);
    let n = map_of(s);
    assert forall|id: I| n.contains_key(id) == m.contains_key(id) by {
        if n.contains_key(id) {
            let i = choose|i: int| 0 <= i < s.len() && (#[trigger] s[i]).0 == id;
            assert(m.contains_key(s[i].0));
        }
        if m.contains_key(id) {
            let i = choose|i: int| 0 <= i < s.len() && (#[trigger] s[i]).0 == id;
            assert(n.contains_key(s[i].0));
        }
    }
    assert forall|id: I| n.contains_key(id) implies n[id] == m[id] by {
        let i = choose|i: int| 0 <= i < s.len() && (#[trigger] s[i]).0 == id;
        assert(n[s[i].0] == s[i].1);
        assert(m[s[i].0] == s[i].1);
    }
    assert(n =~= m);
}

/// A map that keeps its keys in the order in which they came.
pub struct Table<K: Key, V> {
    entries: Vec<(K, V)>,
}

impl<K: Key, V> View for Table<K, V> {
    type V = Map<K::Id, V>;

    closed spec fn view(&self) -> Map<K::Id, V> {
        map_of(self.pairs())
    }
}

impl<K: Key, V> Table<K, V> {
    /// Keys and values in order.
    pub closed spec fn pairs(&self) -> Seq<(K::Id, V)> {
        Seq::new(self.entries@.len(), |i: int| (self.entries@[i].0.id(), self.entries@[i].1))
    }

    /// No key occurs twice.
    pub open spec fn wf(&self) -> bool {
        distinct(self.pairs())
    }

    pub fn new() -> (r: Self)
        ensures
            r.wf(),
            r@ == Map::<K::Id, V>::empty(),
            r.pairs() == Seq::<(K::Id, V)>::empty(),
    {
        let r = Table { entries: Vec::new() };
        assert(r.pairs() =~= Seq::<(K::Id, V)>::empty());
        r
    }

    /// How many keys there are.
    pub fn len(&self) -> (r: usize)
        ensures
            r == self.pairs().len(),
            self.wf() ==> r == self@.dom().len() && self@.dom().finite(),
    {
        proof {
            if self.wf() {
                lemma_map_of(self.pairs());
            }
        }
        self.entries.len()
    }

    /// The key at a place in the order.
    pub fn key_at(&self, i: usize) -> (r: &K)
        requires
            i < self.pairs().len(),
        ensures
            r.id() == self.pairs()[i as int].0,
            self.wf() ==> self@.contains_key(r.id()),
    {
        proof {
            if self.wf() {
                lemma_map_of(self.pairs());
                assert(self@.contains_key(self.pairs()[i as int].0));
            }
        }
        &self.entries[i].0
    }

    /// The value at a place in the order.
    pub fn value_at(&self, i: usize) -> (r: &V)
        requires
            i < self.pairs().len(),
        ensures
            *r == self.pairs()[i as int].1,
            self.wf() ==> self@.contains_pair(self.pairs()[i as int].0, *r),
    {
        proof {
            if self.wf() {
                lemma_map_of(self.pairs());
                assert(self@.contains_key(self.pairs()[i as int].0));
            }
        }
        &self.entries[i].1
    }

    /// The place of a key.
    pub fn position(&self, k: &K) -> (r: Option<usize>)
        requires
            self.wf(),
        ensures
            match r {
                Some(i) => i < self.pairs().len() && self.pairs()[i as int].0 == k.id() && self@.contains_key(k.id())
                    && self@[k.id()] == self.pairs()[i as int].1,
                None => !self@.contains_key(k.id()),
            },
    {
        proof {
            lemma_map_of(self.pairs());
        }
        let mut i: usize = 0;
        while i < self.entries.len()
            invariant
                self.wf(),
                i <= self.entries@.len(),
                self.pairs().len() == self.entries@.len(),
                forall|j: int| 0 <= j < i ==> (#[trigger] self.pairs()[j]).0 != k.id(),
            decreases self.entries@.len() - i,
        {
            if self.entries[i].0.same(k) {
                proof {
                    lemma_map_of(self.pairs());
                    assert(self@.contains_key(self.pairs()[i as int].0));
                }
                return Some(i);
            }
            i += 1;
        }
        None
    }

    pub fn contains_key(&self, k: &K) -> (r: bool)
        requires
            self.wf(),
        ensures
            r == self@.contains_key(k.id()),
    {
        match self.position(k) {
            Some(_) => true,
            None => false,
        }
    }

    pub fn get(&self, k: &K) -> (r: Option<&V>)
        requires
            self.wf(),
        ensures
            match r {
                Some(v) => self@.contains_pair(k.id(), *v),
                None => !self@.contains_key(k.id()),
            },
    {
        match self.position(k) {
            Some(i) => Some(&self.entries[i].1),
            None => None,
        }
    }

    /// The value of a key, to be changed.
    pub fn get_mut(&mut self, k: &K) -> (r: Option<&mut V>)
        requires
            old(self).wf(),
        ensures
            final(self).wf(),
            match r {
                Some(v) => {
                    &&& old(self)@.contains_pair(k.id(), *v)
                    &&& final(self)@ == old(self)@.insert(k.id(), *final(v))
                    &&& final(self).pairs().len() == old(self).pairs().len()
                    &&& forall|j: int|
                        0 <= j < old(self).pairs().len() ==> (#[trigger] final(self).pairs()[j]) == if old(
                            self,
                        ).pairs()[j].0 == k.id() {
                            (k.id(), *final(v))
                        } else {
                            old(self).pairs()[j]
                        }
                },
                None => !old(self)@.contains_key(k.id()) && *final(self) == *old(self),
            },
    {
        let ghost before = self.pairs();
        match self.position(k) {
            Some(i) => {
                let e = &mut self.entries[i].1;
                proof {
                    lemma_update(before, i as int, *final(e));
                    assert(after_borrow(self).pairs() =~= before.update(i as int, (k.id(), *final(e))));
                }
                Some(e)
            },
            None => None,
        }
    }
}

impl<K: Key, V> Table<K, V> {
    /// Sets the value of a key. A new key goes to the end of the order; the
    /// value that a known key had is returned.
    pub fn insert(&mut self, k: K, v: V) -> (r: Option<V>)
        requires
            old(self).wf(),
        ensures
            final(self).wf(),
            final(self)@ == old(self)@.insert(k.id(), v),
            match r {
                Some(o) => old(self)@.contains_pair(k.id(), o) && final(self).pairs().len() == old(self).pairs().len(),
                None => !old(self)@.contains_key(k.id()) && final(self).pairs() == old(self).pairs().push((k.id(), v)),
            },
    {
        let ghost before = self.pairs();
        match self.position(&k) {
            Some(i) => {
                let ghost id = k.id();
                proof {
                    lemma_update(before, i as int, v);
                }
                let (_, o) = self.entries.remove(i);
                self.entries.insert(i, (k, v));
                assert(self.pairs() =~= before.update(i as int, (id, v)));
                Some(o)
            },
            None => {
                proof {
                    lemma_push(before, k.id(), v);
                }
                self.entries.push((k, v));
                assert(self.pairs() =~= before.push((k.id(), v)));
                assert(self.pairs().drop_last() =~= before);
                None
            },
        }
    }

    /// Adds a key that is not there yet, at the end of the order.
    pub fn push_new(&mut self, k: K, v: V)
        requires
            old(self).wf(),
            !old(self)@.contains_key(k.id()),
        ensures
            final(self).wf(),
            final(self)@ == old(self)@.insert(k.id(), v),
            final(self).pairs() == old(self).pairs().push((k.id(), v)),
    {
        let ghost before = self.pairs();
        proof {
            lemma_push(before, k.id(), v);
        }
        self.entries.push((k, v));
        assert(self.pairs() =~= before.push((k.id(), v)));
    }

    /// Takes the last key in the order out.
    pub fn pop(&mut self) -> (r: Option<(K, V)>)
        requires
            old(self).wf(),
        ensures
            final(self).wf(),
            match r {
                Some((k, v)) => {
                    &&& old(self).pairs().len() > 0
                    &&& old(self).pairs().last() == (k.id(), v)
                    &&& final(self).pairs() == old(self).pairs().drop_last()
                    &&& old(self)@.contains_pair(k.id(), v)
                    &&& final(self)@ == old(self)@.remove(k.id())
                },
                None => old(self).pairs().len() == 0 && *final(self) == *old(self),
            },
    {
        let n: usize = self.entries.len();
        if n == 0 {
            return None;
        }
        let r = self.remove_at(n - 1);
        assert(old(self).pairs().remove(n - 1) =~= old(self).pairs().drop_last());
        Some(r)
    }

    /// Takes the key at a place out.
    pub fn remove_at(&mut self, i: usize) -> (r: (K, V))
        requires
            old(self).wf(),
            i < old(self).pairs().len(),
        ensures
            final(self).wf(),
            r.0.id() == old(self).pairs()[i as int].0,
            r.1 == old(self).pairs()[i as int].1,
            old(self)@.contains_pair(r.0.id(), r.1),
            final(self)@ == old(self)@.remove(r.0.id()),
            final(self).pairs() == old(self).pairs().remove(i as int),
    {
        let ghost before = self.pairs();
        proof {
            lemma_remove(before, i as int);
            lemma_map_of(before);
            assert(map_of(before).contains_key(before[i as int].0));
        }
        let r = self.entries.remove(i);
        assert(self.pairs() =~= before.remove(i as int));
        r
    }

    /// Takes a key out and returns its value.
    pub fn remove(&mut self, k: &K) -> (r: Option<V>)
        requires
            old(self).wf(),
        ensures
            final(self).wf(),
            final(self)@ == old(self)@.remove(k.id()),
            match r {
                Some(v) => old(self)@.contains_pair(k.id(), v),
                None => !old(self)@.contains_key(k.id()) && *final(self) == *old(self),
            },
    {
        match self.position(k) {
            Some(i) => {
                let (_, v) = self.remove_at(i);
                Some(v)
            },
            None => {
                assert(self@ =~= self@.remove(k.id()));
                None
            },
        }
    }
}

/// The view of a table is the map of its pairs.
pub proof fn lemma_table_view<K: Key, V>(t: Table<K, V>)
    ensures
        t@ == map_of(t.pairs()),
{
}

proof fn lemma_push<I, V>(s: Seq<(I, V)>, id: I, v: V)
    requires
        distinct(s),
        !map_of(s).contains_key(id),
    ensures
        distinct(s.push((id, v))),
        map_of(s.push((id, v))) == map_of(s).insert(id, v),
{
    let t = s.push((id, v));
    lemma_map_of(s);
    assert(t.drop_last() =~= s);
    assert forall|a: int, b: int| 0 <= a < b < t.len() implies (#[trigger] t[a]).0 != (#[trigger] t[b]).0 by {
        assert(map_of(s).contains_key(s[a].0));
        if b < s.len() {
            assert(s[a].0 != s[b].0);
        }
    }
}

proof fn lemma_remove<I, V>(s: Seq<(I, V)>, i: int)
    requires
        distinct(s),
        0 <= i < s.len(),
    ensures
        distinct(s.remove(i)),
        map_of(s.remove(i)) == map_of(s).remove(s[i].0),
{
    let t = s.remove(i);
    lemma_map_of(s);
    assert forall|a: int, b: int| 0 <= a < b < t.len() implies (#[trigger] t[a]).0 != (#[trigger] t[b]).0 by {
        let x = if a < i {
            a
        } else {
            a + 1
        };
        let y = if b < i {
            b
        } else {
            b + 1
        };
        assert(s[x].0 != s[y].0);
    }
    let m = map_of(s).remove(s[i].0);
    assert forall|j: int| 0 <= j < t.len() implies m.contains_key((#[trigger] t[j]).0) && m[t[j].0] == t[j].1 by {
        let x = if j < i {
            j
        } else {
            j + 1
        };
        assert(t[j] == s[x]);
        assert(map_of(s).contains_key(s[x].0));
        if x < i {
            assert(s[x].0 != s[i].0);
        } else {
            assert(s[i].0 != s[x].0);
        }
    }
    assert forall|id: I| #[trigger] m.contains_key(id) implies exists|j: int|
        0 <= j < t.len() && (#[trigger] t[j]).0 == id by {
        assert(map_of(s).contains_key(id));
        let x = choose|x: int| 0 <= x < s.len() && (#[trigger] s[x]).0 == id;
        let j = if x < i {
            x
        } else {
            x - 1
        };
        assert(t[j].0 == id);
    }
    lemma_same_map(t, m);
}

proof fn lemma_update<I, V>(s: Seq<(I, V)>, i: int, v: V)
    requires
        distinct(s),
        0 <= i < s.len(),
    ensures
        distinct(s.update(i, (s[i].0, v))),
        map_of(s.update(i, (s[i].0, v))) == map_of(s).insert(s[i].0, v),
{
    let t = s.update(i, (s[i].0, v));
    lemma_map_of(s);
    assert forall|a: int, b: int| 0 <= a < b < t.len() implies (#[trigger] t[a]).0 != (#[trigger] t[b]).0 by {
        assert(s[a].0 != s[b].0);
    }
    let m = map_of(s).insert(s[i].0, v);
    assert forall|j: int| 0 <= j < t.len() implies m.contains_key((#[trigger] t[j]).0) && m[t[j].0] == t[j].1 by {
        assert(map_of(s).contains_key(s[j].0));
        if j < i {
            assert(s[j].0 != s[i].0);
        } else if i < j {
            assert(s[i].0 != s[j].0);
        }
    }
    assert forall|id: I| #[trigger] m.contains_key(id) implies exists|j: int|
        0 <= j < t.len() && (#[trigger] t[j]).0 == id by {
        assert(map_of(s).contains_key(id) || id == s[i].0);
        if id == s[i].0 {
            assert(t[i].0 == id);
        } else {
            let j = choose|j: int| 0 <= j < s.len() && (#[trigger] s[j]).0 == id;
            assert(t[j].0 == id);
        }
    }
    lemma_same_map(t, m);
}

} // verus!
