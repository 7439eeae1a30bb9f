use std::collections::hash_map::RandomState;
use std::collections::HashMap;
use std::hash::{BuildHasher, Hash};
use vstd::prelude::*;
use vstd::std_specs::cmp::PartialEqSpec;
use vstd::std_specs::hash::{builds_valid_hashers, obeys_key_model};

use crate::fix_vec::FixedVec;

verus! {

broadcast use vstd::std_specs::hash::group_hash_axioms;

/// Creates the key index of a cache with the given hash builder.
///
/// Calls `HashMap::with_capacity_and_hasher`; the contract states that the
/// new map is empty, as its documentation says.
#[verifier::external_body]
fn map_with_hasher<K, S>(cap: usize, hash_builder: S) -> (res: HashMap<K, usize, S>)
    ensures
        res@.dom().is_empty(),
{
    HashMap::with_capacity_and_hasher(cap, hash_builder)
}

/// The hash builder of a map.
///
/// Calls `HashMap::hasher`; nothing is stated of the builder it returns.
#[verifier::external_body]
fn map_hasher<K, S>(map: &HashMap<K, usize, S>) -> &S {
    map.hasher()
}

/// A cache of at most `capacity` entries that evicts the least recently
/// used entry when a new key comes in while it is full.  Reading or writing
/// an entry makes it the most recently used.
#[verifier::reject_recursive_types(K)]
#[verifier::reject_recursive_types(S)]
pub struct LruCache<K, V, S> {
    map: HashMap<K, usize, S>,
    list: FixedVec<(K, V)>,
    cap: usize,
}

impl<K, V, S> View for LruCache<K, V, S> {
    type V = Seq<(K, V)>;

    /// The entries, from the most recently used to the least recently used.
    open spec fn view(&self) -> Seq<(K, V)> {
        self.entries()
    }
}

/// No key occurs twice among the entries.
pub open spec fn distinct_keys<K, V>(s: Seq<(K, V)>) -> bool {
    forall|a: int, b: int| 0 <= a < b < s.len() ==> (#[trigger] s[a]).0 != (#[trigger] s[b]).0
}

/// Whether some entry has key `k`.
pub open spec fn has_key<K, V>(s: Seq<(K, V)>, k: K) -> bool {
    exists|m: int| 0 <= m < s.len() && (#[trigger] s[m]).0 == k
}

/// The position of the entry with key `k`.
pub open spec fn key_pos<K, V>(s: Seq<(K, V)>, k: K) -> int {
    choose|m: int| 0 <= m < s.len() && (#[trigger] s[m]).0 == k
}

/// Removing entry `p` of entries with distinct keys keeps every other
/// entry, found by its key.
pub proof fn lemma_remove_keeps<K, V>(s: Seq<(K, V)>, p: int, k: K)
    requires
        distinct_keys(s),
        0 <= p < s.len(),
        k != s[p].0,
    ensures
        distinct_keys(s.remove(p)),
        has_key(s.remove(p), k) == has_key(s, k),
        has_key(s, k) ==> s.remove(p)[key_pos(s.remove(p), k)] == s[key_pos(s, k)],
{
    let r = s.remove(p);
    assert forall|a: int, b: int| 0 <= a < b < r.len() implies (#[trigger] r[a]).0 != (#[trigger] r[b]).0 by {
        let a2 = if a < p { a } else { a + 1 };
        let b2 = if b < p { b } else { b + 1 };
        assert(r[a] == s[a2] && r[b] == s[b2]);
    }
    if has_key(s, k) {
        let q = key_pos(s, k);
        assert(q != p);
        let q2 = if q < p { q } else { q - 1 };
        assert(r[q2] == s[q]);
        assert(has_key(r, k));
        let m = key_pos(r, k);
        if m != q2 {
            if m < q2 {
                assert(r[m].0 != r[q2].0);
            } else {
                assert(r[q2].0 != r[m].0);
            }
        }
    }
    if has_key(r, k) {
        let m = key_pos(r, k);
        let m2 = if m < p { m } else { m + 1 };
        assert(s[m2] == r[m]);
        assert(has_key(s, k));
    }
}

/// In entries with distinct keys, the entry at `a` is the one found by its
/// key.
pub proof fn lemma_pos_of_entry<K, V>(s: Seq<(K, V)>, a: int)
    requires
        distinct_keys(s),
        0 <= a < s.len(),
    ensures
        key_pos(s, s[a].0) == a,
{
    let k = s[a].0;
    assert(has_key(s, k));
    let m = key_pos(s, k);
    if m != a {
        if m < a {
            assert(s[m].0 != s[a].0);
        } else {
            assert(s[a].0 != s[m].0);
        }
    }
}

impl<K, V, S> LruCache<K, V, S> {
    /// The entries, from the most recently used to the least recently used.
    pub closed spec fn entries(&self) -> Seq<(K, V)> {
        self.list@.map_values(|e: (usize, (K, V))| e.1)
    }

    /// The maximal number of entries.
    pub closed spec fn spec_capacity(&self) -> nat {
        self.cap as nat
    }

    /// Internal consistency: the key index and the recency list agree.
    pub closed spec fn wf(&self) -> bool {
        &&& obeys_key_model::<K>()
        &&& builds_valid_hashers::<S>()
        &&& self.list.wf()
        &&& self.cap > 0
        &&& self.list.spec_capacity() >= self.cap
        &&& self.list@.len() <= self.cap
        &&& forall|j: usize| #[trigger] self.list.holds(j) ==> {
            &&& self.map@.contains_key(self.list.data_at(j).0)
            &&& self.map@[self.list.data_at(j).0] == j
        }
        &&& forall|k: K| #[trigger] self.map@.contains_key(k) ==> {
            &&& self.list.holds(self.map@[k])
            &&& self.list.data_at(self.map@[k]).0 == k
        }
    }

    proof fn lemma_keys(&self)
        requires
            self.wf(),
        ensures
            distinct_keys(self@),
            self@.len() == self.list@.len(),
            self@.len() <= self.spec_capacity(),
            forall|k: K| #[trigger] self.map@.contains_key(k) <==> has_key(self@, k),
            forall|k: K| self.map@.contains_key(k) ==> self.list.order().index_of(#[trigger] self.map@[k])
                == key_pos(self@, k),
            forall|k: K| #[trigger] has_key(self@, k) ==> self@[key_pos(self@, k)].0 == k,
    {
        self.list.lemma_wf();
        let o = self.list.order();
        assert forall|a: int, b: int| 0 <= a < b < self@.len() implies (#[trigger] self@[a]).0 != (#[trigger] self@[b]).0 by {
            assert(self.list.holds(o[a]));
            assert(self.list.holds(o[b]));
        }
        assert forall|k: K| #[trigger] self.map@.contains_key(k) <==> has_key(self@, k) by {
            if self.map@.contains_key(k) {
                let j = self.map@[k];
                assert(self.list.holds(j));
                let m = choose|m: int| 0 <= m < o.len() && o[m] == j;
                assert(self@[m].0 == k);
            }
            if has_key(self@, k) {
                let m = choose|m: int| 0 <= m < self@.len() && (#[trigger] self@[m]).0 == k;
                assert(self.list.holds(o[m]));
            }
        }
        assert forall|k: K| self.map@.contains_key(k) implies self.list.order().index_of(#[trigger] self.map@[k])
            == key_pos(self@, k) by {
            let j = self.map@[k];
            assert(self.list.holds(j));
            let m = o.index_of(j);
            assert(self@[m].0 == k);
            let p = key_pos(self@, k);
            assert(0 <= p < self@.len() && self@[p].0 == k);
            assert(self.list.holds(o[p]));
            assert(o[p] == j);
        }
    }

    /// The maximal number of entries.
    pub fn capacity(&self) -> (res: usize)
        ensures
            res == self.spec_capacity(),
    {
        self.cap
    }

    /// Number of entries.
    pub fn len(&self) -> (res: usize)
        requires
            self.wf(),
        ensures
            res == self@.len(),
    {
        self.list.len()
    }

    /// Whether the cache holds no entry.
    pub fn is_empty(&self) -> (res: bool)
        requires
            self.wf(),
        ensures
            res == (self@.len() == 0),
    {
        self.list.len() == 0
    }

    /// Removes every entry.
    pub fn clear(&mut self)
        requires
            old(self).wf(),
        ensures
            final(self).wf(),
            final(self)@ == Seq::<(K, V)>::empty(),
            final(self).spec_capacity() == old(self).spec_capacity(),
    {
        self.map.clear();
        self.list.clear();
        proof {
            assert(self@ =~= Seq::<(K, V)>::empty());
        }
    }

    /// Raises the capacity by `additional`.
    pub fn reserve(&mut self, additional: usize)
        requires
            old(self).wf(),
            old(self).spec_capacity() + additional <= usize::MAX,
        ensures
            final(self).wf(),
            final(self)@ == old(self)@,
            final(self).spec_capacity() == old(self).spec_capacity() + additional,
    {
        proof {
            self.list.lemma_wf();
        }
        self.cap = self.cap + additional;
        if self.list.capacity() < self.cap {
            self.list.resize(self.cap);
        }
        proof {
            let o = self.list.order();
            assert forall|j: usize| #[trigger] self.list.holds(j) implies self.list.data_at(j) == old(self).list.data_at(j) by {
                let k = choose|k: int| 0 <= k < o.len() && o[k] == j;
                assert(self.list@[k].1 == old(self).list@[k].1);
            }
            assert(self@ =~= old(self)@);
            assert(self.list.wf());
            assert forall|k: K| #[trigger] self.map@.contains_key(k) implies {
                &&& self.list.holds(self.map@[k])
                &&& self.list.data_at(self.map@[k]).0 == k
            } by {
                assert(old(self).list.holds(self.map@[k]));
            }
            assert forall|j: usize| #[trigger] self.list.holds(j) implies {
                &&& self.map@.contains_key(self.list.data_at(j).0)
                &&& self.map@[self.list.data_at(j).0] == j
            } by {
                assert(old(self).list.holds(j));
            }
        }
    }

    /// The hash builder of the key index.
    pub fn hasher(&self) -> &S {
        map_hasher(&self.map)
    }
}

impl<K: Hash + Eq + Copy, V> LruCache<K, V, RandomState> {
    /// An empty cache for at most `cap` entries (at least one).
    pub fn new(cap: usize) -> (res: Self)
        requires
            obeys_key_model::<K>(),
        ensures
            res.wf(),
            res@ == Seq::<(K, V)>::empty(),
            res.spec_capacity() == if cap == 0 { 1 } else { cap },
    {
        let cap = if cap == 0 { 1 } else { cap };
        let res = LruCache { map: HashMap::with_capacity(cap), list: FixedVec::new(cap), cap };
        proof {
            assert(res@ =~= Seq::<(K, V)>::empty());
        }
        res
    }
}

impl<K: Hash + Eq + Copy, V, S: BuildHasher> LruCache<K, V, S> {
    /// An empty cache for at most `cap` entries (at least one) whose key
    /// index hashes with `hash_builder`.
    pub fn with_hasher(cap: usize, hash_builder: S) -> (res: Self)
        requires
            obeys_key_model::<K>(),
            builds_valid_hashers::<S>(),
        ensures
            res.wf(),
            res@ == Seq::<(K, V)>::empty(),
            res.spec_capacity() == if cap == 0 { 1 } else { cap },
    {
        let cap = if cap == 0 { 1 } else { cap };
        let res = LruCache { map: map_with_hasher(cap, hash_builder), list: FixedVec::new(cap), cap };
        proof {
            assert(res@ =~= Seq::<(K, V)>::empty());
        }
        res
    }

    /// Whether some entry has key `k`; the recency order is left as it is.
    pub fn contains_key(&self, k: &K) -> (res: bool)
        requires
            self.wf(),
        ensures
            res == has_key(self@, *k),
    {
        proof {
            self.lemma_keys();
        }
        self.map.contains_key(k)
    }

    /// The value of key `k`, without touching the recency order.
    pub fn raw_get(&self, k: &K) -> (res: Option<&V>)
        requires
            self.wf(),
        ensures
            res is Some <==> has_key(self@, *k),
            res matches Some(v) ==> *v == self@[key_pos(self@, *k)].1,
    {
        proof {
            self.lemma_keys();
        }
        match self.map.get(k) {
            Some(i) => {
                let idx = *i;
                proof {
                    self.list.lemma_wf();
                    let m = self.list.order().index_of(idx);
                    assert(self@[m] == self.list.data_at(idx));
                }
                match self.list.get(idx) {
                    Some(p) => Some(&p.1),
                    None => None,
                }
            },
            None => None,
        }
    }

    /// The entry of key `k`, without touching the recency order.
    pub(crate) fn raw_get_key_value(&self, k: &K) -> (res: Option<(&K, &V)>)
        requires
            self.wf(),
        ensures
            res is Some <==> has_key(self@, *k),
            res matches Some(kv) ==> *kv.0 == self@[key_pos(self@, *k)].0 && *kv.1 == self@[key_pos(self@, *k)].1,
    {
        proof {
            self.lemma_keys();
        }
        match self.map.get(k) {
            Some(i) => {
                let idx = *i;
                proof {
                    self.list.lemma_wf();
                    let m = self.list.order().index_of(idx);
                    assert(self@[m] == self.list.data_at(idx));
                }
                match self.list.get(idx) {
                    Some(p) => Some((&p.0, &p.1)),
                    None => None,
                }
            },
            None => None,
        }
    }

    /// The cache `new` agrees with `old` on the key index and on which slot
    /// holds which key.
    proof fn lemma_wf_keep(old: &Self, new: &Self)
        requires
            old.wf(),
            new.map@ == old.map@,
            new.list.wf(),
            new.cap == old.cap,
            new.list.spec_capacity() == old.list.spec_capacity(),
            new.list@.len() == old.list@.len(),
            forall|j: usize| #[trigger] new.list.holds(j) <==> old.list.holds(j),
            forall|j: usize| old.list.holds(j) ==> (#[trigger] new.list.data_at(j)).0 == old.list.data_at(j).0,
        ensures
            new.wf(),
    {
        assert forall|j: usize| #[trigger] new.list.holds(j) implies {
            &&& new.map@.contains_key(new.list.data_at(j).0)
            &&& new.map@[new.list.data_at(j).0] == j
        } by {
            assert(old.list.holds(j));
        }
        assert forall|k: K| #[trigger] new.map@.contains_key(k) implies {
            &&& new.list.holds(new.map@[k])
            &&& new.list.data_at(new.map@[k]).0 == k
        } by {
            assert(old.list.holds(old.map@[k]));
        }
    }

    /// The value of key `k`, which must be present; the recency order is
    /// left as it is.
    pub fn index(&self, k: &K) -> (res: &V)
        requires
            self.wf(),
            has_key(self@, *k),
        ensures
            *res == self@[key_pos(self@, *k)].1,
    {
        self.raw_get(k).unwrap()
    }

    /// The value of key `k`; the entry becomes the most recently used.
    pub fn get(&mut self, k: &K) -> (res: Option<&V>)
        requires
            old(self).wf(),
        ensures
            final(self).wf(),
            final(self).spec_capacity() == old(self).spec_capacity(),
            res is Some <==> has_key(old(self)@, *k),
            res matches Some(v) ==> {
                let p = key_pos(old(self)@, *k);
                &&& *v == old(self)@[p].1
                &&& final(self)@ == seq![old(self)@[p]] + old(self)@.remove(p)
            },
            res is None ==> final(self)@ == old(self)@,
    {
        proof {
            self.lemma_keys();
        }
        let idx = match self.map.get(k) {
            Some(i) => *i,
            None => return None,
        };
        self.touch(idx);
        match self.list.get(idx) {
            Some(p) => Some(&p.1),
            None => None,
        }
    }

    /// Makes the entry in slot `idx` the most recently used.
    fn touch(&mut self, idx: usize)
        requires
            old(self).wf(),
            old(self).list.holds(idx),
        ensures
            final(self).wf(),
            final(self).map == old(self).map,
            final(self).cap == old(self).cap,
            final(self).list.holds(idx),
            final(self).list.order().index_of(idx) == 0,
            final(self).list.data_at(idx) == old(self).list.data_at(idx),
            ({
                let p = old(self).list.order().index_of(idx);
                &&& final(self)@ == seq![old(self)@[p]] + old(self)@.remove(p)
                &&& old(self)@[p] == old(self).list.data_at(idx)
            }),
    {
        proof {
            self.list.lemma_wf();
        }
        let _ = self.list.move_head(idx);
        proof {
            let p = old(self).list.order().index_of(idx);
            Self::lemma_wf_keep(&*old(self), &*self);
            assert(self.list.order()[0] == idx);
            self.list.lemma_wf();
            assert(self@ =~= seq![old(self)@[p]] + old(self)@.remove(p));
        }
    }

    /// The key and value of key `k`; the entry becomes the most recently used.
    pub fn get_key_value(&mut self, k: &K) -> (res: Option<(&K, &V)>)
        requires
            old(self).wf(),
        ensures
            final(self).wf(),
            final(self).spec_capacity() == old(self).spec_capacity(),
            res is Some <==> has_key(old(self)@, *k),
            res matches Some(kv) ==> {
                let p = key_pos(old(self)@, *k);
                &&& *kv.0 == old(self)@[p].0
                &&& *kv.1 == old(self)@[p].1
                &&& final(self)@ == seq![old(self)@[p]] + old(self)@.remove(p)
            },
            res is None ==> final(self)@ == old(self)@,
    {
        proof {
            self.lemma_keys();
        }
        let idx = match self.map.get(k) {
            Some(i) => *i,
            None => return None,
        };
        self.touch(idx);
        match self.list.get(idx) {
            Some(p) => Some((&p.0, &p.1)),
            None => None,
        }
    }

    /// The value of key `k`, for change; the entry becomes the most recently
    /// used.
    pub fn get_mut(&mut self, k: &K) -> (res: Option<&mut V>)
        requires
            old(self).wf(),
        ensures
            final(self).wf(),
            final(self).spec_capacity() == old(self).spec_capacity(),
            res is Some <==> has_key(old(self)@, *k),
            res matches Some(v) ==> {
                let p = key_pos(old(self)@, *k);
                &&& *v == old(self)@[p].1
                &&& final(self)@ == seq![(old(self)@[p].0, *final(v))] + old(self)@.remove(p)
            },
            res is None ==> final(self)@ == old(self)@,
    {
        proof {
            self.lemma_keys();
            self.list.lemma_wf();
        }
        let idx = match self.map.get(k) {
            Some(i) => *i,
            None => return None,
        };
        match self.list.move_head(idx) {
            Some(r) => Some(&mut r.1),
            None => None,
        }
    }

    /// The entry of key `k`, its value to change in place, without touching
    /// the recency order.
    pub(crate) fn peek_key_mut(&mut self, k: &K) -> (res: Option<(&K, &mut V)>)
        requires
            old(self).wf(),
        ensures
            final(self).wf(),
            final(self).spec_capacity() == old(self).spec_capacity(),
            res is Some <==> has_key(old(self)@, *k),
            res matches Some(kv) ==> {
                let p = key_pos(old(self)@, *k);
                &&& *kv.0 == old(self)@[p].0
                &&& *kv.1 == old(self)@[p].1
                &&& final(self)@ == old(self)@.update(p, (old(self)@[p].0, *final(kv.1)))
            },
            res is None ==> final(self)@ == old(self)@,
    {
        proof {
            self.lemma_keys();
            self.list.lemma_wf();
        }
        let idx = match self.map.get(k) {
            Some(i) => *i,
            None => return None,
        };
        proof {
            let m = self.list.order().index_of(idx);
            assert(self@[m] == self.list.data_at(idx));
            assert(self.list.holds(idx));
        }
        match self.list.get_mut(idx) {
            Some(r) => Some((&r.0, &mut r.1)),
            None => None,
        }
    }

    /// The value of key `k`, for change, without touching the recency order.
    pub(crate) fn peek_mut(&mut self, k: &K) -> (res: Option<&mut V>)
        requires
            old(self).wf(),
        ensures
            final(self).wf(),
            final(self).spec_capacity() == old(self).spec_capacity(),
            res is Some <==> has_key(old(self)@, *k),
            res matches Some(v) ==> {
                let p = key_pos(old(self)@, *k);
                &&& *v == old(self)@[p].1
                &&& final(self)@ == old(self)@.update(p, (old(self)@[p].0, *final(v)))
            },
            res is None ==> final(self)@ == old(self)@,
    {
        proof {
            self.lemma_keys();
            self.list.lemma_wf();
        }
        let idx = match self.map.get(k) {
            Some(i) => *i,
            None => return None,
        };
        proof {
            let m = self.list.order().index_of(idx);
            assert(self@[m] == self.list.data_at(idx));
            assert(self.list.holds(idx));
        }
        match self.list.get_mut(idx) {
            Some(r) => Some(&mut r.1),
            None => None,
        }
    }

    /// The `m`-th entry from the most recently used on, its value to change
    /// in place, without touching the recency order; `None` past the end.
    pub fn iter_mut_at(&mut self, m: usize) -> (res: Option<(&K, &mut V)>)
        requires
            old(self).wf(),
        ensures
            final(self).wf(),
            final(self).spec_capacity() == old(self).spec_capacity(),
            res is Some <==> m < old(self)@.len(),
            res matches Some(kv) ==> {
                &&& *kv.0 == old(self)@[m as int].0
                &&& *kv.1 == old(self)@[m as int].1
                &&& final(self)@ == old(self)@.update(m as int, (old(self)@[m as int].0, *final(kv.1)))
            },
            res is None ==> final(self)@ == old(self)@,
    {
        proof {
            self.lemma_keys();
            self.list.lemma_wf();
        }
        let items = self.list.iter();
        if m >= items.len() {
            return None;
        }
        let idx = items[m].0;
        proof {
            assert(idx == self.list@[m as int].0);
            assert(self.list.order()[m as int] == idx);
            assert(self.list.order().index_of(idx) == m);
            assert(self@[m as int] == self.list.data_at(idx));
            assert(self.list.holds(idx));
        }
        match self.list.get_mut(idx) {
            Some(r) => Some((&r.0, &mut r.1)),
            None => None,
        }
    }

    /// Puts `v` under key `k` as the most recently used entry.  An existing
    /// entry of `k` gets the new value and its old one is handed back with
    /// the key; a new key on a full cache evicts the least recently used
    /// entry.
    pub fn capture_insert(&mut self, k: K, v: V) -> (res: Option<(K, V)>)
        requires
            old(self).wf(),
            old(self)@.len() < usize::MAX - 1,
        ensures
            final(self).wf(),
            final(self).spec_capacity() == old(self).spec_capacity(),
            has_key(old(self)@, k) ==> {
                let p = key_pos(old(self)@, k);
                &&& res == Some((k, old(self)@[p].1))
                &&& final(self)@ == seq![(k, v)] + old(self)@.remove(p)
            },
            !has_key(old(self)@, k) ==> {
                &&& res is None
                &&& final(self)@ == seq![(k, v)] + if old(self)@.len() == old(self).spec_capacity() {
                    old(self)@.drop_last()
                } else {
                    old(self)@
                }
            },
    {
        proof {
            self.lemma_keys();
            self.list.lemma_wf();
        }
        match self.map.get(&k) {
            Some(i) => {
                let idx = *i;
                let mut v = v;
                match self.list.move_head(idx) {
                    Some(r) => {
                        std::mem::swap(&mut r.1, &mut v);
                    },
                    None => {},
                }
                Some((k, v))
            },
            None => {
                if self.list.len() == self.cap {
                    self.evict();
                }
                proof {
                    self.lemma_keys();
                    self.list.lemma_wf();
                }
                let ghost mid = *self;
                match self.list.insert_head((k, v)) {
                    Some((idx, _)) => {
                        proof {
                            assert(!mid.map@.contains_key(k));
                        }
                        self.map.insert(k, idx);
                        proof {
                            assert forall|j: usize| #[trigger] self.list.holds(j) implies {
                                &&& self.map@.contains_key(self.list.data_at(j).0)
                                &&& self.map@[self.list.data_at(j).0] == j
                            } by {
                                if j != idx {
                                    assert(mid.list.holds(j));
                                }
                            }
                            assert forall|kk: K| #[trigger] self.map@.contains_key(kk) implies {
                                &&& self.list.holds(self.map@[kk])
                                &&& self.list.data_at(self.map@[kk]).0 == kk
                            } by {
                                if kk != k {
                                    assert(mid.map@.contains_key(kk));
                                    assert(mid.list.holds(mid.map@[kk]));
                                }
                            }
                            assert(self@ =~= seq![(k, v)] + mid@);
                        }
                    },
                    None => {},
                }
                None
            },
        }
    }

    /// Removes the least recently used entry of a full cache.
    fn evict(&mut self)
        requires
            old(self).wf(),
            old(self)@.len() == old(self).spec_capacity(),
        ensures
            final(self).wf(),
            final(self).cap == old(self).cap,
            final(self)@ == old(self)@.drop_last(),
    {
        proof {
            self.lemma_keys();
            self.list.lemma_wf();
        }
        let ghost o = self.list.order();
        match self.list.pop_tail() {
            Some(e) => {
                let ghost t = o.last();
                proof {
                    assert(o[o.len() - 1] == t);
                    assert(old(self).list.holds(t));
                    assert(e == old(self).list.data_at(t));
                }
                self.map.remove(&e.0);
                proof {
                    assert forall|j: usize| #[trigger] self.list.holds(j) implies {
                        &&& self.map@.contains_key(self.list.data_at(j).0)
                        &&& self.map@[self.list.data_at(j).0] == j
                    } by {
                        assert(old(self).list.holds(j));
                        assert(j != t) by {
                            let m = choose|m: int| 0 <= m < self.list.order().len() && self.list.order()[m] == j;
                            assert(self.list.order()[m] == o[m]);
                        }
                    }
                    assert forall|kk: K| #[trigger] self.map@.contains_key(kk) implies {
                        &&& self.list.holds(self.map@[kk])
                        &&& self.list.data_at(self.map@[kk]).0 == kk
                    } by {
                        let j = old(self).map@[kk];
                        assert(old(self).list.holds(j));
                        assert(j != t);
                        let m = choose|m: int| 0 <= m < o.len() && o[m] == j;
                        assert(m != o.len() - 1);
                        assert(self.list.order()[m] == j);
                    }
                    assert(self@ =~= old(self)@.drop_last());
                }
            },
            None => {},
        }
    }

    /// Puts `v` under key `k` as the most recently used entry; gives back the
    /// value it replaces, if any.  A new key on a full cache evicts the least
    /// recently used entry.
    pub fn insert(&mut self, k: K, v: V) -> (res: Option<V>)
        requires
            old(self).wf(),
            old(self)@.len() < usize::MAX - 1,
        ensures
            final(self).wf(),
            final(self).spec_capacity() == old(self).spec_capacity(),
            has_key(old(self)@, k) ==> {
                let p = key_pos(old(self)@, k);
                &&& res == Some(old(self)@[p].1)
                &&& final(self)@ == seq![(k, v)] + old(self)@.remove(p)
            },
            !has_key(old(self)@, k) ==> {
                &&& res is None
                &&& final(self)@ == seq![(k, v)] + if old(self)@.len() == old(self).spec_capacity() {
                    old(self)@.drop_last()
                } else {
                    old(self)@
                }
            },
    {
        match self.capture_insert(k, v) {
            Some((_, old_v)) => Some(old_v),
            None => None,
        }
    }

    /// Removes the entry of key `k` and gives it back.
    pub fn remove(&mut self, k: &K) -> (res: Option<(K, V)>)
        requires
            old(self).wf(),
        ensures
            final(self).wf(),
            final(self).spec_capacity() == old(self).spec_capacity(),
            has_key(old(self)@, *k) ==> {
                let p = key_pos(old(self)@, *k);
                &&& res == Some(old(self)@[p])
                &&& final(self)@ == old(self)@.remove(p)
            },
            !has_key(old(self)@, *k) ==> res is None && final(self)@ == old(self)@,
    {
        proof {
            self.lemma_keys();
            self.list.lemma_wf();
        }
        match self.map.remove(k) {
            Some(idx) => {
                proof {
                    assert(old(self).list.holds(idx));
                }
                let res = self.list.remove(idx);
                proof {
                    let key = *k;
                    assert forall|j: usize| #[trigger] self.list.holds(j) implies {
                        &&& self.map@.contains_key(self.list.data_at(j).0)
                        &&& self.map@[self.list.data_at(j).0] == j
                    } by {
                        assert(old(self).list.holds(j));
                    }
                    assert forall|kk: K| #[trigger] self.map@.contains_key(kk) implies {
                        &&& self.list.holds(self.map@[kk])
                        &&& self.list.data_at(self.map@[kk]).0 == kk
                    } by {
                        assert(old(self).map@.contains_key(kk));
                        assert(old(self).list.holds(old(self).map@[kk]));
                    }
                    let p = old(self).list.order().index_of(idx);
                    assert(self@ =~= old(self)@.remove(p));
                }
                res
            },
            None => None,
        }
    }

    /// Removes the most recently used entry and gives it back.
    pub fn pop(&mut self) -> (res: Option<(K, V)>)
        requires
            old(self).wf(),
        ensures
            final(self).wf(),
            final(self).spec_capacity() == old(self).spec_capacity(),
            old(self)@.len() > 0 ==> res == Some(old(self)@[0]) && final(self)@ == old(self)@.drop_first(),
            old(self)@.len() == 0 ==> res is None && final(self)@ == old(self)@,
    {
        proof {
            self.lemma_keys();
            self.list.lemma_wf();
        }
        let ghost o = self.list.order();
        match self.list.pop_head() {
            Some(e) => {
                proof {
                    assert(old(self).list.holds(o[0]));
                }
                self.map.remove(&e.0);
                proof {
                    let h = o[0];
                    assert forall|j: usize| #[trigger] self.list.holds(j) implies {
                        &&& self.map@.contains_key(self.list.data_at(j).0)
                        &&& self.map@[self.list.data_at(j).0] == j
                    } by {
                        assert(old(self).list.holds(j));
                    }
                    assert forall|kk: K| #[trigger] self.map@.contains_key(kk) implies {
                        &&& self.list.holds(self.map@[kk])
                        &&& self.list.data_at(self.map@[kk]).0 == kk
                    } by {
                        assert(old(self).list.holds(old(self).map@[kk]));
                    }
                    assert(self@ =~= old(self)@.drop_first());
                }
                Some(e)
            },
            None => None,
        }
    }

    /// Removes the least recently used entry and gives it back.
    pub fn pop_last(&mut self) -> (res: Option<(K, V)>)
        requires
            old(self).wf(),
        ensures
            final(self).wf(),
            final(self).spec_capacity() == old(self).spec_capacity(),
            old(self)@.len() > 0 ==> res == Some(old(self)@.last()) && final(self)@ == old(self)@.drop_last(),
            old(self)@.len() == 0 ==> res is None && final(self)@ == old(self)@,
    {
        proof {
            self.lemma_keys();
            self.list.lemma_wf();
        }
        let ghost o = self.list.order();
        match self.list.pop_tail() {
            Some(e) => {
                proof {
                    assert(old(self).list.holds(o.last()));
                }
                self.map.remove(&e.0);
                proof {
                    assert forall|j: usize| #[trigger] self.list.holds(j) implies {
                        &&& self.map@.contains_key(self.list.data_at(j).0)
                        &&& self.map@[self.list.data_at(j).0] == j
                    } by {
                        assert(old(self).list.holds(j));
                    }
                    assert forall|kk: K| #[trigger] self.map@.contains_key(kk) implies {
                        &&& self.list.holds(self.map@[kk])
                        &&& self.list.data_at(self.map@[kk]).0 == kk
                    } by {
                        assert(old(self).list.holds(old(self).map@[kk]));
                    }
                    assert(self@ =~= old(self)@.drop_last());
                }
                Some(e)
            },
            None => None,
        }
    }

    /// The entries, from the most recently used to the least recently used.
    pub fn iter(&self) -> (res: Vec<(&K, &V)>)
        requires
            self.wf(),
        ensures
            res@.len() == self@.len(),
            forall|m: int| 0 <= m < res@.len() ==> *(#[trigger] res@[m]).0 == self@[m].0 && *res@[m].1 == self@[m].1,
    {
        let items = self.list.iter();
        let mut res: Vec<(&K, &V)> = Vec::new();
        let mut i: usize = 0;
        while i < items.len()
            invariant
                items@.len() == self@.len(),
                forall|m: int| 0 <= m < items@.len() ==> *(#[trigger] items@[m]).1 == self.list@[m].1,
                i <= items@.len(),
                res@.len() == i,
                forall|m: int| 0 <= m < i ==> *(#[trigger] res@[m]).0 == self@[m].0 && *res@[m].1 == self@[m].1,
            decreases items@.len() - i,
        {
            let (_, e) = items[i];
            res.push((&e.0, &e.1));
            i = i + 1;
        }
        res
    }

    /// The keys, from the most recently used to the least recently used.
    pub fn keys(&self) -> (res: Vec<&K>)
        requires
            self.wf(),
        ensures
            res@.len() == self@.len(),
            forall|m: int| 0 <= m < res@.len() ==> *(#[trigger] res@[m]) == self@[m].0,
    {
        let items = self.iter();
        let mut res: Vec<&K> = Vec::new();
        let mut i: usize = 0;
        while i < items.len()
            invariant
                items@.len() == self@.len(),
                forall|m: int| 0 <= m < items@.len() ==> *(#[trigger] items@[m]).0 == self@[m].0,
                i <= items@.len(),
                res@.len() == i,
                forall|m: int| 0 <= m < i ==> *(#[trigger] res@[m]) == self@[m].0,
            decreases items@.len() - i,
        {
            res.push(items[i].0);
            i = i + 1;
        }
        res
    }

    /// The values, from the most recently used to the least recently used.
    pub fn values(&self) -> (res: Vec<&V>)
        requires
            self.wf(),
        ensures
            res@.len() == self@.len(),
            forall|m: int| 0 <= m < res@.len() ==> *(#[trigger] res@[m]) == self@[m].1,
    {
        let items = self.iter();
        let mut res: Vec<&V> = Vec::new();
        let mut i: usize = 0;
        while i < items.len()
            invariant
                items@.len() == self@.len(),
                forall|m: int| 0 <= m < items@.len() ==> *(#[trigger] items@[m]).1 == self@[m].1,
                i <= items@.len(),
                res@.len() == i,
                forall|m: int| 0 <= m < i ==> *(#[trigger] res@[m]) == self@[m].1,
            decreases items@.len() - i,
        {
            res.push(items[i].1);
            i = i + 1;
        }
        res
    }

    /// Empties the cache and gives its entries back, from the least recently
    /// used to the most recently used.
    pub fn drain(&mut self) -> (res: Vec<(K, V)>)
        requires
            old(self).wf(),
        ensures
            final(self).wf(),
            final(self).spec_capacity() == old(self).spec_capacity(),
            final(self)@ == Seq::<(K, V)>::empty(),
            res@ == old(self)@.reverse(),
    {
        let mut res: Vec<(K, V)> = Vec::new();
        let ghost all = self@;
        while self.len() > 0
            invariant
                self.wf(),
                self.spec_capacity() == old(self).spec_capacity(),
                all == old(self)@,
                self@.len() + res@.len() == all.len(),
                self@ == all.subrange(0, self@.len() as int),
                forall|m: int| 0 <= m < res@.len() ==> #[trigger] res@[m] == all[all.len() - 1 - m],
            decreases self@.len(),
        {
            let ghost before = self@;
            match self.pop_last() {
                Some(e) => {
                    res.push(e);
                    proof {
                        assert(self@ =~= all.subrange(0, self@.len() as int));
                    }
                },
                None => {},
            }
        }
        proof {
            assert(res@ =~= all.reverse());
            assert(self@ =~= Seq::<(K, V)>::empty());
        }
        res
    }
}

impl<K: Hash + Eq + Copy, V, S: BuildHasher> LruCache<K, V, S> {
    /// The keys, from the most recently used to the least recently used.
    fn copied_keys(&self) -> (res: Vec<K>)
        requires
            self.wf(),
        ensures
            res@.len() == self@.len(),
            forall|m: int| 0 <= m < res@.len() ==> #[trigger] res@[m] == self@[m].0,
    {
        let refs = self.keys();
        let mut res: Vec<K> = Vec::new();
        let mut i: usize = 0;
        while i < refs.len()
            invariant
                refs@.len() == self@.len(),
                forall|m: int| 0 <= m < refs@.len() ==> *(#[trigger] refs@[m]) == self@[m].0,
                i <= refs@.len(),
                res@.len() == i,
                forall|m: int| 0 <= m < i ==> #[trigger] res@[m] == self@[m].0,
            decreases refs@.len() - i,
        {
            let k: K = *refs[i];
            res.push(k);
            i = i + 1;
        }
        res
    }

    /// Keeps the entries for which `f` answers `true` and removes the
    /// others; the entries kept keep their order.
    pub fn retain<F>(&mut self, f: F)
        where
            F: Fn(&K, &V) -> bool,
        requires
            old(self).wf(),
            forall|k: &K, v: &V| #[trigger] f.requires((k, v)),
        ensures
            final(self).wf(),
            final(self).spec_capacity() == old(self).spec_capacity(),
            forall|k: K| #[trigger] has_key(final(self)@, k) ==> has_key(old(self)@, k),
            forall|i: int| 0 <= i < old(self)@.len() ==> {
                let e = #[trigger] old(self)@[i];
                &&& has_key(final(self)@, e.0) ==> final(self)@[key_pos(final(self)@, e.0)] == e && f.ensures((&e.0, &e.1), true)
                &&& !has_key(final(self)@, e.0) ==> f.ensures((&e.0, &e.1), false)
            },
            forall|a: int, b: int| 0 <= a < b < final(self)@.len() ==>
                key_pos(old(self)@, (#[trigger] final(self)@[a]).0) < key_pos(old(self)@, (#[trigger] final(self)@[b]).0),
    {
        let ghost s = self@;
        let keys = self.copied_keys();
        proof {
            self.lemma_keys();
            assert forall|a: int, b: int| 0 <= a < b < s.len() implies
                key_pos(s, (#[trigger] s[a]).0) < key_pos(s, (#[trigger] s[b]).0) by {
                lemma_pos_of_entry(s, a);
                lemma_pos_of_entry(s, b);
            }
        }
        let mut j: usize = 0;
        while j < keys.len()
            invariant
                self.wf(),
                self.spec_capacity() == old(self).spec_capacity(),
                s == old(self)@,
                distinct_keys(s),
                keys@.len() == s.len(),
                forall|m: int| 0 <= m < s.len() ==> #[trigger] keys@[m] == s[m].0,
                forall|k: &K, v: &V| #[trigger] f.requires((k, v)),
                j <= s.len(),
                forall|k: K| #[trigger] has_key(self@, k) ==> has_key(s, k),
                forall|i: int| j <= i < s.len() ==> has_key(self@, (#[trigger] s[i]).0) && self@[key_pos(self@, s[i].0)] == s[i],
                forall|i: int| 0 <= i < j ==> {
                    let e = #[trigger] s[i];
                    &&& has_key(self@, e.0) ==> self@[key_pos(self@, e.0)] == e && f.ensures((&e.0, &e.1), true)
                    &&& !has_key(self@, e.0) ==> f.ensures((&e.0, &e.1), false)
                },
                forall|a: int, b: int| 0 <= a < b < self@.len() ==>
                    key_pos(s, (#[trigger] self@[a]).0) < key_pos(s, (#[trigger] self@[b]).0),
            decreases s.len() - j,
        {
            let k = keys[j];
            proof {
                assert(has_key(self@, s[j as int].0));
            }
            let keep = match self.raw_get(&k) {
                Some(v) => f(&k, v),
                None => true,
            };
            proof {
                self.lemma_keys();
            }
            let ghost cur = self@;
            if !keep {
                let _ = self.remove(&k);
                proof {
                    self.lemma_keys();
                    let p = key_pos(cur, k);
                    assert forall|kk: K| #[trigger] has_key(self@, kk) implies has_key(s, kk) by {
                        if kk != k {
                            lemma_remove_keeps(cur, p, kk);
                        } else {
                            assert(has_key(s, kk));
                        }
                    }
                    assert forall|i: int| j < i < s.len() implies has_key(self@, (#[trigger] s[i]).0) && self@[key_pos(self@, s[i].0)] == s[i] by {
                        assert(s[i].0 != s[j as int].0);
                        lemma_remove_keeps(cur, p, s[i].0);
                    }
                    assert forall|i: int| 0 <= i < j implies {
                        let e = #[trigger] s[i];
                        &&& has_key(self@, e.0) ==> self@[key_pos(self@, e.0)] == e && f.ensures((&e.0, &e.1), true)
                        &&& !has_key(self@, e.0) ==> f.ensures((&e.0, &e.1), false)
                    } by {
                        assert(s[i].0 != s[j as int].0);
                        lemma_remove_keeps(cur, p, s[i].0);
                    }
                    assert(!has_key(self@, k)) by {
                        if has_key(self@, k) {
                            let m = key_pos(self@, k);
                            let m2 = if m < p { m } else { m + 1 };
                            assert(cur[m2] == self@[m]);
                            if m2 < p {
                                assert(cur[m2].0 != cur[p].0);
                            } else {
                                assert(cur[p].0 != cur[m2].0);
                            }
                        }
                    }
                    assert forall|a: int, b: int| 0 <= a < b < self@.len() implies
                        key_pos(s, (#[trigger] self@[a]).0) < key_pos(s, (#[trigger] self@[b]).0) by {
                        let a2 = if a < p { a } else { a + 1 };
                        let b2 = if b < p { b } else { b + 1 };
                        assert(self@[a] == cur[a2] && self@[b] == cur[b2]);
                    }
                }
            }
            j = j + 1;
        }
    }
}

impl<K: Hash + Eq + Copy, V, S: BuildHasher> LruCache<K, V, S> {
    /// Whether the cache holds as many entries as its capacity.
    pub fn is_full(&self) -> (res: bool)
        requires
            self.wf(),
        ensures
            res == (self@.len() == self.spec_capacity()),
    {
        self.list.len() == self.cap
    }

    /// Makes room for one more entry when the cache is full.
    pub fn full_increase(&mut self)
        requires
            old(self).wf(),
            old(self).spec_capacity() < usize::MAX,
        ensures
            final(self).wf(),
            final(self)@ == old(self)@,
            final(self).spec_capacity() == if old(self)@.len() == old(self).spec_capacity() {
                old(self).spec_capacity() + 1
            } else {
                old(self).spec_capacity()
            },
    {
        if self.is_full() {
            self.reserve(1);
        }
    }

    /// When the cache is full and can hold more than one entry, drops the
    /// least recently used entry, gives it, and holds one entry less from
    /// then on; else leaves all as it is.
    pub fn full_decrease(&mut self) -> (res: Option<(K, V)>)
        requires
            old(self).wf(),
        ensures
            final(self).wf(),
            (old(self)@.len() == old(self).spec_capacity() && old(self).spec_capacity() > 1) ==> {
                &&& res == Some(old(self)@.last())
                &&& final(self)@ == old(self)@.drop_last()
                &&& final(self).spec_capacity() == old(self).spec_capacity() - 1
            },
            !(old(self)@.len() == old(self).spec_capacity() && old(self).spec_capacity() > 1) ==> {
                &&& res is None
                &&& final(self)@ == old(self)@
                &&& final(self).spec_capacity() == old(self).spec_capacity()
            },
    {
        if self.is_full() && self.cap > 1 {
            proof {
                self.lemma_keys();
            }
            let res = self.pop_last();
            proof {
                self.lemma_keys();
            }
            self.cap = self.cap - 1;
            res
        } else {
            None
        }
    }
}

impl<K: Hash + Eq + Copy, V: Clone, S: BuildHasher + Clone> LruCache<K, V, S> {
    /// A copy with the same capacity and the same entries in the same
    /// recency order; values are copied with `V::clone`.
    pub fn clone(&self) -> (res: Self)
        requires
            self.wf(),
        ensures
            res.wf(),
            res.spec_capacity() == self.spec_capacity(),
            res@.len() == self@.len(),
            forall|m: int| 0 <= m < res@.len() ==> (#[trigger] res@[m]).0 == self@[m].0 && cloned::<V>(self@[m].1, res@[m].1),
    {
        proof {
            self.lemma_keys();
            self.list.lemma_wf();
        }
        let hb = map_hasher(&self.map).clone();
        let mut res = LruCache::with_hasher(self.cap, hb);
        let items = self.iter();
        let n = items.len();
        let mut i = n;
        while i > 0
            invariant
                res.wf(),
                res.spec_capacity() == self.spec_capacity(),
                n == self@.len(),
                n <= self.spec_capacity(),
                n < usize::MAX,
                items@.len() == n,
                forall|m: int| 0 <= m < n ==> *(#[trigger] items@[m]).0 == self@[m].0 && *items@[m].1 == self@[m].1,
                distinct_keys(self@),
                i <= n,
                res@.len() == n - i,
                forall|m: int| 0 <= m < res@.len() ==> (#[trigger] res@[m]).0 == self@[i + m].0 && cloned::<V>(self@[i + m].1, res@[m].1),
            decreases i,
        {
            i = i - 1;
            let (k, v) = items[i];
            let nv = v.clone();
            proof {
                assert(!has_key(res@, *k)) by {
                    if has_key(res@, *k) {
                        let m = choose|m: int| 0 <= m < res@.len() && (#[trigger] res@[m]).0 == *k;
                        assert(self@[i + 1 + m].0 == self@[i as int].0);
                    }
                }
            }
            let ghost before = res@;
            res.insert(*k, nv);
            proof {
                assert forall|m: int| 0 <= m < res@.len() implies (#[trigger] res@[m]).0 == self@[i + m].0 && cloned::<V>(self@[i + m].1, res@[m].1) by {
                    if m > 0 {
                        assert(res@[m] == before[m - 1]);
                    }
                }
            }
        }
        res
    }
}

impl<K: Hash + Eq + Copy, V: PartialEq, S: BuildHasher> LruCache<K, V, S> {
    /// Whether both caches hold the same keys with equal values (the
    /// recency order does not count).
    pub fn eq(&self, other: &Self) -> (res: bool)
        requires
            self.wf(),
            other.wf(),
        ensures
            V::obeys_eq_spec() ==> (res <==> self@.len() == other@.len() && forall|m: int| 0 <= m < self@.len()
                ==> has_key(other@, (#[trigger] self@[m]).0) && self@[m].1.eq_spec(&other@[key_pos(other@, self@[m].0)].1)),
    {
        if self.len() != other.len() {
            return false;
        }
        let items = self.iter();
        let mut i: usize = 0;
        while i < items.len()
            invariant
                self.wf(),
                other.wf(),
                self@.len() == other@.len(),
                items@.len() == self@.len(),
                forall|m: int| 0 <= m < items@.len() ==> *(#[trigger] items@[m]).0 == self@[m].0 && *items@[m].1 == self@[m].1,
                i <= items@.len(),
                V::obeys_eq_spec() ==> forall|m: int| 0 <= m < i
                    ==> has_key(other@, (#[trigger] self@[m]).0) && self@[m].1.eq_spec(&other@[key_pos(other@, self@[m].0)].1),
            decreases items@.len() - i,
        {
            let (k, v) = items[i];
            match other.raw_get(k) {
                Some(ov) => {
                    if !(*v == *ov) {
                        return false;
                    }
                },
                None => {
                    return false;
                },
            }
            i = i + 1;
        }
        true
    }
}

impl<K, V, S> LruCache<K, V, S> {
    /// A well-formed cache hashes its keys by their value, with a valid
    /// hash builder, and has room for at least one entry.
    pub proof fn lemma_models(&self)
        requires
            self.wf(),
        ensures
            obeys_key_model::<K>(),
            builds_valid_hashers::<S>(),
            self.spec_capacity() > 0,
    {
    }

    /// What a read gives back of a write: once `insert(k, v)` has put the
    /// entry `(k, v)` in front, the cache holds `k`, and the entry found for
    /// `k` (the one `get(&k)` answers with) has the value `v`.
    pub proof fn law_get_after_insert(&self, k: K, v: V)
        requires
            self.wf(),
            self@.len() > 0,
            self@[0] == (k, v),
        ensures
            has_key(self@, k),
            self@[key_pos(self@, k)].1 == v,
    {
        self.lemma_keys();
        assert(self@[0].0 == k);
        let p = key_pos(self@, k);
        assert(self@[p].0 == k);
        if p != 0 {
            assert(self@[0].0 != self@[p].0);
        }
    }

    /// A cache never holds more entries than its capacity, and no key twice.
    pub proof fn law_within_capacity(&self)
        requires
            self.wf(),
        ensures
            self@.len() <= self.spec_capacity(),
            distinct_keys(self@),
    {
        self.lemma_keys();
    }
}

} // verus!
