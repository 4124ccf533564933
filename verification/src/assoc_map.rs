//! A small insertion-ordered map, kept as a vector of key/value pairs whose
//! keys are pairwise distinct. The client's tables are all small, and their
//! iteration order is part of what the client's contracts state.
use vstd::prelude::*;

use crate::packet_id::PacketId;

verus! {

/// Keys whose equality can be decided at run time, in agreement with their views.
pub trait KeyEq: View + Sized {
    fn key_eq(&self, other: &Self) -> (b: bool)
        ensures
            b == (self@ == other@),
    ;
}

impl KeyEq for u8 {
    fn key_eq(&self, other: &Self) -> (b: bool) {
        *self == *other
    }
}

impl KeyEq for PacketId {
    fn key_eq(&self, other: &Self) -> (b: bool) {
        proof {
            PacketId::lemma_ext_equal(*self, *other);
        }
        self.get_packet_id() == other.get_packet_id() && self.get_request_id() == other.get_request_id()
    }
}

impl KeyEq for String {
    fn key_eq(&self, other: &Self) -> (b: bool) {
        *self == *other
    }
}

impl KeyEq for (u8, String) {
    fn key_eq(&self, other: &Self) -> (b: bool) {
        self.0 == other.0 && self.1 == other.1
    }
}

/// A map from keys to values that remembers the order in which keys first
/// entered it.
#[derive(Debug)]
pub struct AssocMap<K, V> {
    entries: Vec<(K, V)>,
}

impl<K: KeyEq, V> View for AssocMap<K, V> {
    type V = Map<K::V, V>;

    open spec fn view(&self) -> Map<K::V, V> {
        Map::new(|k: K::V| self.has(k), |k: K::V| self.value_of(k))
    }
}

impl<K: KeyEq, V> AssocMap<K, V> {
    /// The pairs, in insertion order.
    pub closed spec fn entries(self) -> Seq<(K, V)> {
        self.entries@
    }

    pub open spec fn len_spec(self) -> nat {
        self.entries().len()
    }

    /// The view of the key of the `i`-th pair.
    pub open spec fn key_at(self, i: int) -> K::V {
        self.entries()[i].0@
    }

    /// The value of the `i`-th pair.
    pub open spec fn value_at(self, i: int) -> V {
        self.entries()[i].1
    }

    /// The keys' views, in insertion order.
    pub open spec fn key_seq(self) -> Seq<K::V> {
        Seq::new(self.len_spec(), |i: int| self.key_at(i))
    }

    /// No key occurs twice.
    pub open spec fn wf(self) -> bool {
        forall|i: int, j: int|
            0 <= i < self.len_spec() && 0 <= j < self.len_spec() && i != j ==> #[trigger] self.key_at(i)
                != #[trigger] self.key_at(j)
    }

    pub open spec fn has(self, k: K::V) -> bool {
        exists|i: int| 0 <= i < self.len_spec() && #[trigger] self.key_at(i) == k
    }

    /// The position of key `k` (meaningful when the map has it).
    pub open spec fn index_of(self, k: K::V) -> int {
        choose|i: int| 0 <= i < self.len_spec() && #[trigger] self.key_at(i) == k
    }

    pub open spec fn value_of(self, k: K::V) -> V {
        self.value_at(self.index_of(k))
    }

    /// In a well-formed map, the key of position `i` is found at `i`.
    pub proof fn lemma_index_of(self, i: int)
        requires
            self.wf(),
            0 <= i < self.len_spec(),
        ensures
            self.has(self.key_at(i)),
            self.index_of(self.key_at(i)) == i,
            self@.contains_key(self.key_at(i)),
            self@[self.key_at(i)] == self.value_at(i),
    {
        let k = self.key_at(i);
        assert(self.has(k));
        let j = self.index_of(k);
        assert(self.key_at(j) == k);
    }

    /// Every key of the map stands at some position.
    pub proof fn lemma_has(self, k: K::V)
        requires
            self.wf(),
            self@.contains_key(k),
        ensures
            0 <= self.index_of(k) < self.len_spec(),
            self.key_at(self.index_of(k)) == k,
            self@[k] == self.value_at(self.index_of(k)),
    {
    }

    /// Keys of the map, as a set, are those of the key sequence.
    pub proof fn lemma_key_seq(self)
        ensures
            forall|k: K::V| #[trigger] self@.contains_key(k) <==> self.key_seq().contains(k),
            self.key_seq().len() == self.len_spec(),
    {
        assert forall|k: K::V| #[trigger] self@.contains_key(k) <==> self.key_seq().contains(k) by {
            if self@.contains_key(k) {
                let i = self.index_of(k);
                assert(self.key_seq()[i] == k);
            }
            if self.key_seq().contains(k) {
                let i = choose|i: int| 0 <= i < self.key_seq().len() && self.key_seq()[i] == k;
                assert(self.key_at(i) == k);
            }
        }
    }

    pub fn new() -> (m: Self)
        ensures
            m.wf(),
            m@ == Map::<K::V, V>::empty(),
            m.len_spec() == 0,
    {
        let m = AssocMap { entries: Vec::new() };
        assert(m@ =~= Map::<K::V, V>::empty());
        m
    }

    pub fn len(&self) -> (n: usize)
        ensures
            n == self.len_spec(),
    {
        self.entries.len()
    }

    pub fn key(&self, i: usize) -> (k: &K)
        requires
            i < self.len_spec(),
        ensures
            k@ == self.key_at(i as int),
            *k == self.entries()[i as int].0,
    {
        &self.entries[i].0
    }

    pub fn value(&self, i: usize) -> (v: &V)
        requires
            i < self.len_spec(),
        ensures
            *v == self.value_at(i as int),
    {
        &self.entries[i].1
    }

    /// The position of `k`, if the map has it.
    pub fn find(&self, k: &K) -> (r: Option<usize>)
        requires
            self.wf(),
        ensures
            r is None <==> !self@.contains_key(k@),
            r matches Some(i) ==> i < self.len_spec() && self.key_at(i as int) == k@ && self.index_of(
                k@,
            ) == i,
    {
        let mut i: usize = 0;
        while i < self.entries.len()
            invariant
                i <= self.len_spec(),
                self.wf(),
                self.len_spec() == self.entries@.len(),
                forall|j: int| 0 <= j < i ==> self.key_at(j) != k@,
            decreases self.len_spec() - i,
        {
            if self.entries[i].0.key_eq(k) {
                proof {
                    self.lemma_index_of(i as int);
                }
                return Some(i);
            }
            i += 1;
        }
        None
    }

    pub fn contains_key(&self, k: &K) -> (b: bool)
        requires
            self.wf(),
        ensures
            b == self@.contains_key(k@),
    {
        self.find(k).is_some()
    }

    pub fn get(&self, k: &K) -> (r: Option<&V>)
        requires
            self.wf(),
        ensures
            r is Some <==> self@.contains_key(k@),
            r matches Some(v) ==> *v == self@[k@],
    {
        match self.find(k) {
            Some(i) => {
                proof {
                    self.lemma_index_of(i as int);
                }
                Some(&self.entries[i].1)
            },
            None => None,
        }
    }

    /// Replaces the value at position `i`, handing back the one it held.
    pub fn replace_value(&mut self, i: usize, v: V) -> (old_v: V)
        requires
            old(self).wf(),
            i < old(self).len_spec(),
        ensures
            final(self).wf(),
            old_v == old(self).value_at(i as int),
            final(self).entries() == old(self).entries().update(i as int, (old(self).entries()[i as int].0, v)),
            final(self)@ == old(self)@.insert(old(self).key_at(i as int), v),
            final(self).key_seq() == old(self).key_seq(),
    {
        let (k, old_v) = self.entries.remove(i);
        self.entries.insert(i, (k, v));
        proof {
            let o = *old(self);
            let n = *self;
            assert(n.entries() =~= o.entries().update(i as int, (o.entries()[i as int].0, v)));
            assert forall|a: int, b: int|
                0 <= a < n.len_spec() && 0 <= b < n.len_spec() && a != b implies #[trigger] n.key_at(a)
                != #[trigger] n.key_at(b) by {
                assert(n.key_at(a) == o.key_at(a));
                assert(n.key_at(b) == o.key_at(b));
            }
            let key = o.key_at(i as int);
            assert forall|x: K::V| #[trigger] n@.contains_key(x) == o@.insert(key, v).contains_key(x) by {
                if n.has(x) {
                    let j = n.index_of(x);
                    assert(o.key_at(j) == x);
                }
                if o.has(x) {
                    let j = o.index_of(x);
                    assert(n.key_at(j) == x);
                }
            }
            assert forall|x: K::V| #[trigger] n@.contains_key(x) implies n@[x] == o@.insert(key, v)[x] by {
                let j = n.index_of(x);
                n.lemma_index_of(j);
                if x == key {
                    o.lemma_index_of(i as int);
                    n.lemma_index_of(i as int);
                } else {
                    assert(o.key_at(j) == x);
                    o.lemma_index_of(j);
                }
            }
            assert(n@ =~= o@.insert(key, v));
            assert(n.key_seq() =~= o.key_seq());
        }
        old_v
    }

    /// Maps `k` to `v`: in place if `k` is already there, at the end if not.
    pub fn insert(&mut self, k: K, v: V)
        requires
            old(self).wf(),
        ensures
            final(self).wf(),
            final(self)@ == old(self)@.insert(k@, v),
            old(self)@.contains_key(k@) ==> final(self).key_seq() == old(self).key_seq(),
            !old(self)@.contains_key(k@) ==> final(self).key_seq() == old(self).key_seq().push(k@),
    {
        match self.find(&k) {
            Some(i) => {
                let _ = self.replace_value(i, v);
            },
            None => {
                self.entries.push((k, v));
                proof {
                    let o = *old(self);
                    let n = *self;
                    let key = k@;
                    assert(n.entries() =~= o.entries().push((k, v)));
                    assert forall|a: int, b: int|
                        0 <= a < n.len_spec() && 0 <= b < n.len_spec() && a != b implies #[trigger] n.key_at(a)
                        != #[trigger] n.key_at(b) by {
                        if a < o.len_spec() && b < o.len_spec() {
                            assert(n.key_at(a) == o.key_at(a));
                            assert(n.key_at(b) == o.key_at(b));
                        } else if a < o.len_spec() {
                            assert(n.key_at(a) == o.key_at(a));
                        } else {
                            assert(n.key_at(b) == o.key_at(b));
                        }
                    }
                    assert forall|x: K::V| #[trigger] n@.contains_key(x) == o@.insert(key, v).contains_key(x) by {
                        if n.has(x) {
                            let j = n.index_of(x);
                            if j < o.len_spec() {
                                assert(o.key_at(j) == x);
                            }
                        }
                        if o.has(x) {
                            let j = o.index_of(x);
                            assert(n.key_at(j) == x);
                        }
                        if x == key {
                            assert(n.key_at(o.len_spec() as int) == x);
                        }
                    }
                    assert forall|x: K::V| #[trigger] n@.contains_key(x) implies n@[x] == o@.insert(key, v)[x] by {
                        let j = n.index_of(x);
                        n.lemma_index_of(j);
                        if x == key {
                            if j < o.len_spec() {
                                assert(o.key_at(j) == x);
                            }
                            assert(j == o.len_spec());
                        } else {
                            assert(j < o.len_spec());
                            assert(o.key_at(j) == x);
                            o.lemma_index_of(j);
                        }
                    }
                    assert(n@ =~= o@.insert(key, v));
                    assert(n.key_seq() =~= o.key_seq().push(key));
                }
            },
        }
    }

    /// Removes the pair at position `i`, keeping the others in order.
    pub fn remove_at(&mut self, i: usize) -> (pair: (K, V))
        requires
            old(self).wf(),
            i < old(self).len_spec(),
        ensures
            final(self).wf(),
            pair == old(self).entries()[i as int],
            final(self).entries() == old(self).entries().remove(i as int),
            final(self)@ == old(self)@.remove(old(self).key_at(i as int)),
            final(self).key_seq() == old(self).key_seq().remove(i as int),
    {
        let pair = self.entries.remove(i);
        proof {
            let o = *old(self);
            let n = *self;
            let key = o.key_at(i as int);
            assert(n.entries() =~= o.entries().remove(i as int));
            assert forall|a: int| 0 <= a < n.len_spec() implies #[trigger] n.key_at(a) == (if a < i {
                o.key_at(a)
            } else {
                o.key_at(a + 1)
            }) by {}
            assert forall|a: int, b: int|
                0 <= a < n.len_spec() && 0 <= b < n.len_spec() && a != b implies #[trigger] n.key_at(a)
                != #[trigger] n.key_at(b) by {
                let oa = if a < i { a } else { a + 1 };
                let ob = if b < i { b } else { b + 1 };
                assert(n.key_at(a) == o.key_at(oa));
                assert(n.key_at(b) == o.key_at(ob));
            }
            assert forall|x: K::V| #[trigger] n@.contains_key(x) == o@.remove(key).contains_key(x) by {
                if n.has(x) {
                    let j = n.index_of(x);
                    let oj = if j < i { j } else { j + 1 };
                    assert(o.key_at(oj) == x);
                    assert(oj != i);
                    o.lemma_index_of(i as int);
                }
                if o.has(x) && x != key {
                    let j = o.index_of(x);
                    assert(j != i);
                    let nj = if j < i { j } else { j - 1 };
                    assert(n.key_at(nj) == x);
                }
            }
            assert forall|x: K::V| #[trigger] n@.contains_key(x) implies n@[x] == o@.remove(key)[x] by {
                let j = n.index_of(x);
                n.lemma_index_of(j);
                let oj = if j < i { j } else { j + 1 };
                assert(o.key_at(oj) == x);
                o.lemma_index_of(oj);
            }
            assert(n@ =~= o@.remove(key));
            assert(n.key_seq() =~= o.key_seq().remove(i as int));
        }
        pair
    }

    /// Removes `k`, handing back its value if it was there.
    pub fn remove(&mut self, k: &K) -> (r: Option<V>)
        requires
            old(self).wf(),
        ensures
            final(self).wf(),
            final(self)@ == old(self)@.remove(k@),
            r is Some <==> old(self)@.contains_key(k@),
            r matches Some(v) ==> v == old(self)@[k@],
            !old(self)@.contains_key(k@) ==> *final(self) == *old(self),
            old(self)@.contains_key(k@) ==> final(self).key_seq() == old(self).key_seq().remove(
                old(self).index_of(k@),
            ),
    {
        match self.find(k) {
            Some(i) => {
                proof {
                    old(self).lemma_index_of(i as int);
                }
                let (_, v) = self.remove_at(i);
                Some(v)
            },
            None => {
                proof {
                    assert(old(self)@.remove(k@) =~= old(self)@);
                }
                None
            },
        }
    }
}

} // verus!
