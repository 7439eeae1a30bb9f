use std::collections::hash_map::RandomState;
use std::hash::{BuildHasher, Hash};
use vstd::prelude::*;
use vstd::std_specs::hash::{builds_valid_hashers, obeys_key_model};

use crate::cache::lru::{distinct_keys, has_key, key_pos, lemma_pos_of_entry, lemma_remove_keeps, LruCache};

verus! {

/// An entry as a cache of this kind keeps it: key, value and how often it
/// was put or read.
pub type Counted<K, V> = (K, (V, usize));

/// Where entry `e`, just put or read for the `e.1.1`-th time, goes: to the
/// front of the history list while seen fewer than `times` times, else to
/// the front of the main list.  Gives the new history and main lists.
pub open spec fn placed<K, V>(h: Seq<Counted<K, V>>, m: Seq<Counted<K, V>>, e: Counted<K, V>, times: usize) -> (
    Seq<Counted<K, V>>,
    Seq<Counted<K, V>>,
) {
    if e.1.1 < times {
        (seq![e] + h, m)
    } else {
        (h, seq![e] + m)
    }
}

/// A key is in `seq![e] + s` when it is `e`'s or in `s`.
proof fn lemma_front_key<K, V>(s: Seq<(K, V)>, e: (K, V), k: K)
    ensures
        has_key(seq![e] + s, k) == (e.0 == k || has_key(s, k)),
{
    let t = seq![e] + s;
    if has_key(s, k) {
        let m = choose|m: int| 0 <= m < s.len() && (#[trigger] s[m]).0 == k;
        assert(t[m + 1] == s[m]);
    }
    if has_key(t, k) {
        let m = choose|m: int| 0 <= m < t.len() && (#[trigger] t[m]).0 == k;
        if m > 0 {
            assert(t[m] == s[m - 1]);
        }
    }
    assert(t[0] == e);
}

/// Dropping the last entry of entries with distinct keys keeps distinct
/// keys and no new key.
proof fn lemma_drop_last_keys<K, V>(s: Seq<(K, V)>, k: K)
    requires
        distinct_keys(s),
        s.len() > 0,
    ensures
        distinct_keys(s.drop_last()),
        has_key(s.drop_last(), k) ==> has_key(s, k),
{
    let t = s.drop_last();
    assert forall|a: int, b: int| 0 <= a < b < t.len() implies (#[trigger] t[a]).0 != (#[trigger] t[b]).0 by {
        assert(t[a] == s[a] && t[b] == s[b]);
    }
    if has_key(t, k) {
        let m = choose|m: int| 0 <= m < t.len() && (#[trigger] t[m]).0 == k;
        assert(s[m] == t[m]);
    }
}

/// The value held for key `k`, in the history list `h` or the main list
/// `m`.
pub open spec fn value_of<K, V>(h: Seq<Counted<K, V>>, m: Seq<Counted<K, V>>, k: K) -> V {
    if has_key(h, k) {
        h[key_pos(h, k)].1.0
    } else {
        m[key_pos(m, k)].1.0
    }
}

/// The lists after key `k`, held in one of them, is put or read once more
/// with value `val`: its entry leaves its list, its count grows by one, and
/// it goes where `placed` puts it.
pub open spec fn visited<K, V>(h: Seq<Counted<K, V>>, m: Seq<Counted<K, V>>, k: K, val: V, times: usize) -> (
    Seq<Counted<K, V>>,
    Seq<Counted<K, V>>,
) {
    if has_key(h, k) {
        let p = key_pos(h, k);
        placed(h.remove(p), m, (k, (val, (h[p].1.1 + 1) as usize)), times)
    } else {
        let p = key_pos(m, k);
        placed(h, m.remove(p), (k, (val, (m[p].1.1 + 1) as usize)), times)
    }
}

/// The lists after making room for a new entry in a cache of capacity
/// `cap`: when full, the least recently used entry of the history list
/// goes, or of the main list when the history list is empty.
pub open spec fn evicted<K, V>(h: Seq<Counted<K, V>>, m: Seq<Counted<K, V>>, cap: nat) -> (
    Seq<Counted<K, V>>,
    Seq<Counted<K, V>>,
) {
    if h.len() + m.len() >= cap {
        if h.len() > 0 {
            (h.drop_last(), m)
        } else {
            (h, m.drop_last())
        }
    } else {
        (h, m)
    }
}

/// Dropping the first entry of entries with distinct keys keeps distinct
/// keys and no new key.
proof fn lemma_drop_first_keys<K, V>(s: Seq<(K, V)>, k: K)
    requires
        distinct_keys(s),
        s.len() > 0,
    ensures
        distinct_keys(s.drop_first()),
        has_key(s.drop_first(), k) ==> has_key(s, k),
{
    let t = s.drop_first();
    assert forall|a: int, b: int| 0 <= a < b < t.len() implies (#[trigger] t[a]).0 != (#[trigger] t[b]).0 by {
        assert(t[a] == s[a + 1] && t[b] == s[b + 1]);
    }
    if has_key(t, k) {
        let m = choose|m: int| 0 <= m < t.len() && (#[trigger] t[m]).0 == k;
        assert(s[m + 1] == t[m]);
    }
}

/// A least-recently-used cache that keeps apart the entries seen `times`
/// times or more: new entries wait in a history list and move to the main
/// list on their `times`-th put or read.  When full, a new entry takes the
/// place of the least recently used entry of the history list, or of the
/// main list when the history list is empty.
#[verifier::reject_recursive_types(K)]
#[verifier::reject_recursive_types(V)]
#[verifier::reject_recursive_types(S)]
pub struct LruKCache<K, V, S> {
    hist: LruCache<K, (V, usize), S>,
    freq: LruCache<K, (V, usize), S>,
    cap: usize,
    times: usize,
}

impl<K, V, S> View for LruKCache<K, V, S> {
    type V = Seq<Counted<K, V>>;

    /// The entries in the order the cache lists them: the main list, then
    /// the history list, each from the most recently used.
    open spec fn view(&self) -> Seq<Counted<K, V>> {
        self.frequent() + self.history()
    }
}

impl<K, V, S> LruKCache<K, V, S> {
    /// The entries seen fewer than `times` times, most recently used first.
    pub closed spec fn history(&self) -> Seq<Counted<K, V>> {
        self.hist@
    }

    /// The entries seen `times` times or more, most recently used first.
    pub closed spec fn frequent(&self) -> Seq<Counted<K, V>> {
        self.freq@
    }

    /// The maximal number of entries.
    pub closed spec fn spec_capacity(&self) -> nat {
        self.cap as nat
    }

    /// How often an entry is seen before it joins the main list.
    pub closed spec fn spec_times(&self) -> usize {
        self.times
    }

    /// Internal consistency: both lists well formed, within the capacity
    /// together, with no key in both, and each entry in the list its count
    /// gives.
    pub closed spec fn wf(&self) -> bool {
        &&& self.hist.wf()
        &&& self.freq.wf()
        &&& self.cap >= 1
        &&& self.hist.spec_capacity() == self.cap
        &&& self.freq.spec_capacity() == self.cap
        &&& self.hist@.len() + self.freq@.len() <= self.cap
        &&& forall|k: K| !(#[trigger] has_key(self.hist@, k) && has_key(self.freq@, k))
        &&& forall|i: int| 0 <= i < self.hist@.len() ==> (#[trigger] self.hist@[i]).1.1 < self.times
        &&& forall|i: int| 0 <= i < self.freq@.len() ==> (#[trigger] self.freq@[i]).1.1 >= self.times
    }

    /// Facts of every well-formed cache: within its capacity, no key twice.
    pub proof fn law_within_capacity(&self)
        requires
            self.wf(),
        ensures
            self.history().len() + self.frequent().len() <= self.spec_capacity(),
            distinct_keys(self.history()),
            distinct_keys(self.frequent()),
            forall|k: K| !(#[trigger] has_key(self.history(), k) && has_key(self.frequent(), k)),
            self.spec_capacity() >= 1,
    {
        self.hist.law_within_capacity();
        self.freq.law_within_capacity();
    }

    /// The maximal number of entries.
    pub fn capacity(&self) -> (res: usize)
        ensures
            res == self.spec_capacity(),
    {
        self.cap
    }

    /// The number of entries.
    pub fn len(&self) -> (res: usize)
        requires
            self.wf(),
        ensures
            res == self.history().len() + self.frequent().len(),
    {
        self.hist.len() + self.freq.len()
    }

    /// Whether the cache holds no entry.
    pub fn is_empty(&self) -> (res: bool)
        requires
            self.wf(),
        ensures
            res == (self.history().len() + self.frequent().len() == 0),
    {
        self.hist.len() == 0 && self.freq.len() == 0
    }

    /// Removes every entry.
    pub fn clear(&mut self)
        requires
            old(self).wf(),
        ensures
            final(self).wf(),
            final(self).history() == Seq::<Counted<K, V>>::empty(),
            final(self).frequent() == Seq::<Counted<K, V>>::empty(),
            final(self).spec_capacity() == old(self).spec_capacity(),
            final(self).spec_times() == old(self).spec_times(),
    {
        self.hist.clear();
        self.freq.clear();
    }

    /// The hash builder of the history list's key index.
    pub fn hasher(&self) -> &S {
        self.hist.hasher()
    }
}

impl<K: Hash + Eq + Copy, V> LruKCache<K, V, RandomState> {
    /// An empty cache for at most `cap` entries (at least one), whose
    /// entries join the main list on their `times`-th put or read.
    pub fn new(cap: usize, times: usize) -> (res: Self)
        requires
            obeys_key_model::<K>(),
        ensures
            res.wf(),
            res.history() == Seq::<Counted<K, V>>::empty(),
            res.frequent() == Seq::<Counted<K, V>>::empty(),
            res.spec_capacity() == if cap == 0 { 1 } else { cap },
            res.spec_times() == times,
    {
        let cap = if cap == 0 { 1 } else { cap };
        LruKCache { hist: LruCache::new(cap), freq: LruCache::new(cap), cap, times }
    }

    /// The same as `new`.
    pub fn with_times(cap: usize, times: usize) -> (res: Self)
        requires
            obeys_key_model::<K>(),
        ensures
            res.wf(),
            res.history() == Seq::<Counted<K, V>>::empty(),
            res.frequent() == Seq::<Counted<K, V>>::empty(),
            res.spec_capacity() == if cap == 0 { 1 } else { cap },
            res.spec_times() == times,
    {
        LruKCache::new(cap, times)
    }
}

impl<K: Hash + Eq + Copy, V, S: BuildHasher + Clone> LruKCache<K, V, S> {
    /// An empty cache as `new` makes it, whose key indexes hash with
    /// `hash_builder`.
    pub fn with_hasher(cap: usize, times: usize, hash_builder: S) -> (res: Self)
        requires
            obeys_key_model::<K>(),
            builds_valid_hashers::<S>(),
        ensures
            res.wf(),
            res.history() == Seq::<Counted<K, V>>::empty(),
            res.frequent() == Seq::<Counted<K, V>>::empty(),
            res.spec_capacity() == if cap == 0 { 1 } else { cap },
            res.spec_times() == times,
    {
        let cap = if cap == 0 { 1 } else { cap };
        let other = hash_builder.clone();
        LruKCache { hist: LruCache::with_hasher(cap, other), freq: LruCache::with_hasher(cap, hash_builder), cap, times }
    }
}

impl<K: Hash + Eq + Copy, V, S: BuildHasher> LruKCache<K, V, S> {
    /// Takes the entry of key `k` out of the list that holds it.
    fn take(&mut self, k: &K) -> (res: Option<Counted<K, V>>)
        requires
            old(self).wf(),
        ensures
            final(self).wf(),
            final(self).spec_capacity() == old(self).spec_capacity(),
            final(self).spec_times() == old(self).spec_times(),
            has_key(old(self).history(), *k) ==> {
                let p = key_pos(old(self).history(), *k);
                &&& res == Some(old(self).history()[p])
                &&& final(self).history() == old(self).history().remove(p)
                &&& final(self).frequent() == old(self).frequent()
            },
            !has_key(old(self).history(), *k) && has_key(old(self).frequent(), *k) ==> {
                let p = key_pos(old(self).frequent(), *k);
                &&& res == Some(old(self).frequent()[p])
                &&& final(self).frequent() == old(self).frequent().remove(p)
                &&& final(self).history() == old(self).history()
            },
            !has_key(old(self).history(), *k) && !has_key(old(self).frequent(), *k) ==> {
                &&& res is None
                &&& final(self).history() == old(self).history()
                &&& final(self).frequent() == old(self).frequent()
            },
    {
        proof {
            self.law_within_capacity();
        }
        let ghost h = self.hist@;
        let ghost m = self.freq@;
        if self.hist.contains_key(k) {
            let r = self.hist.remove(k);
            proof {
                let p = key_pos(h, *k);
                let t = h.remove(p);
                assert forall|x: K| !(#[trigger] has_key(self.hist@, x) && has_key(self.freq@, x)) by {
                    if x != h[p].0 {
                        lemma_remove_keeps(h, p, x);
                    } else if has_key(t, x) {
                        let j = choose|j: int| 0 <= j < t.len() && (#[trigger] t[j]).0 == x;
                        let i = if j < p { j } else { j + 1 };
                        assert(t[j] == h[i]);
                    }
                }
                assert forall|i: int| 0 <= i < t.len() implies (#[trigger] t[i]).1.1 < self.times by {
                    let i2 = if i < p { i } else { i + 1 };
                    assert(t[i] == h[i2]);
                }
            }
            r
        } else {
            let r = self.freq.remove(k);
            proof {
                if has_key(m, *k) {
                    let p = key_pos(m, *k);
                    let t = m.remove(p);
                    assert forall|x: K| !(#[trigger] has_key(self.hist@, x) && has_key(self.freq@, x)) by {
                        if x != m[p].0 {
                            lemma_remove_keeps(m, p, x);
                        } else if has_key(t, x) {
                            let j = choose|j: int| 0 <= j < t.len() && (#[trigger] t[j]).0 == x;
                            let i = if j < p { j } else { j + 1 };
                            assert(t[j] == m[i]);
                        }
                    }
                    assert forall|i: int| 0 <= i < t.len() implies (#[trigger] t[i]).1.1 >= self.times by {
                        let i2 = if i < p { i } else { i + 1 };
                        assert(t[i] == m[i2]);
                    }
                }
            }
            r
        }
    }

    /// Puts the new entry `(k, (v, t))` at the front of the list its count
    /// `t` gives.
    fn place(&mut self, k: K, v: V, t: usize)
        requires
            old(self).wf(),
            !has_key(old(self).history(), k),
            !has_key(old(self).frequent(), k),
            old(self).history().len() + old(self).frequent().len() < old(self).spec_capacity(),
            old(self).history().len() + old(self).frequent().len() + 2 < usize::MAX,
        ensures
            final(self).wf(),
            final(self).spec_capacity() == old(self).spec_capacity(),
            final(self).spec_times() == old(self).spec_times(),
            (final(self).history(), final(self).frequent()) == placed(
                old(self).history(),
                old(self).frequent(),
                (k, (v, t)),
                old(self).spec_times(),
            ),
    {
        let ghost h = self.hist@;
        let ghost m = self.freq@;
        let ghost e: Counted<K, V> = (k, (v, t));
        if t < self.times {
            self.hist.insert(k, (v, t));
            proof {
                assert(self.hist@ == seq![e] + h);
                assert forall|x: K| !(#[trigger] has_key(self.hist@, x) && has_key(self.freq@, x)) by {
                    lemma_front_key(h, e, x);
                }
                assert forall|i: int| 0 <= i < self.hist@.len() implies (#[trigger] self.hist@[i]).1.1 < self.times by {
                    if i > 0 {
                        assert(self.hist@[i] == h[i - 1]);
                    }
                }
            }
        } else {
            self.freq.insert(k, (v, t));
            proof {
                assert(self.freq@ == seq![e] + m);
                assert forall|x: K| !(#[trigger] has_key(self.hist@, x) && has_key(self.freq@, x)) by {
                    lemma_front_key(m, e, x);
                }
                assert forall|i: int| 0 <= i < self.freq@.len() implies (#[trigger] self.freq@[i]).1.1 >= self.times by {
                    if i > 0 {
                        assert(self.freq@[i] == m[i - 1]);
                    }
                }
            }
        }
    }
}

impl<K: Hash + Eq + Copy, V, S: BuildHasher> LruKCache<K, V, S> {
    /// Makes room for one more entry: when full, drops the least recently
    /// used entry of the history list, or of the main list when the history
    /// list is empty.
    fn evict(&mut self)
        requires
            old(self).wf(),
        ensures
            final(self).wf(),
            final(self).spec_capacity() == old(self).spec_capacity(),
            final(self).spec_times() == old(self).spec_times(),
            (final(self).history(), final(self).frequent()) == evicted(
                old(self).history(),
                old(self).frequent(),
                old(self).spec_capacity(),
            ),
            final(self).history().len() + final(self).frequent().len() < final(self).spec_capacity(),
    {
        proof {
            self.law_within_capacity();
        }
        let ghost h = self.hist@;
        let ghost m = self.freq@;
        if self.hist.len() + self.freq.len() >= self.cap {
            if self.hist.len() > 0 {
                let _ = self.hist.pop_last();
                proof {
                    assert forall|x: K| !(#[trigger] has_key(self.hist@, x) && has_key(self.freq@, x)) by {
                        lemma_drop_last_keys(h, x);
                    }
                    assert forall|i: int| 0 <= i < self.hist@.len() implies (#[trigger] self.hist@[i]).1.1 < self.times by {
                        assert(self.hist@[i] == h[i]);
                    }
                }
            } else {
                let _ = self.freq.pop_last();
                proof {
                    assert forall|x: K| !(#[trigger] has_key(self.hist@, x) && has_key(self.freq@, x)) by {
                        lemma_drop_last_keys(m, x);
                    }
                    assert forall|i: int| 0 <= i < self.freq@.len() implies (#[trigger] self.freq@[i]).1.1 >= self.times by {
                        assert(self.freq@[i] == m[i]);
                    }
                }
            }
        }
    }

    /// Counts one more read of key `k`, moving its entry as `get` does, and
    /// tells which list holds it now (`true` for the history list); `None`
    /// where no list holds it.
    fn visit(&mut self, k: &K) -> (res: Option<bool>)
        requires
            old(self).wf(),
            old(self).history().len() + old(self).frequent().len() + 2 < usize::MAX,
            has_key(old(self).frequent(), *k) ==> old(self).frequent()[key_pos(old(self).frequent(), *k)].1.1 < usize::MAX,
        ensures
            final(self).wf(),
            final(self).spec_capacity() == old(self).spec_capacity(),
            final(self).spec_times() == old(self).spec_times(),
            res is Some <==> (has_key(old(self).history(), *k) || has_key(old(self).frequent(), *k)),
            res matches Some(b) ==> {
                let val = value_of(old(self).history(), old(self).frequent(), *k);
                &&& (final(self).history(), final(self).frequent()) == visited(
                    old(self).history(),
                    old(self).frequent(),
                    *k,
                    val,
                    old(self).spec_times(),
                )
                &&& b ==> final(self).history()[0] == (*k, (val, final(self).history()[0].1.1))
                    && key_pos(final(self).history(), *k) == 0 && final(self).history().len() > 0
                &&& !b ==> final(self).frequent()[0] == (*k, (val, final(self).frequent()[0].1.1))
                    && key_pos(final(self).frequent(), *k) == 0 && final(self).frequent().len() > 0
            },
            res is None ==> final(self).history() == old(self).history() && final(self).frequent() == old(self).frequent(),
    {
        proof {
            self.law_within_capacity();
        }
        let ghost h = self.hist@;
        let ghost m = self.freq@;
        match self.take(k) {
            None => None,
            Some(e) => {
                let (key, (v, c)) = e;
                let c1 = c + 1;
                proof {
                    self.law_within_capacity();
                    if has_key(h, *k) {
                        let p = key_pos(h, *k);
                        assert(!has_key(m, *k));
                        if has_key(h.remove(p), *k) {
                            let j = choose|j: int| 0 <= j < h.remove(p).len() && (#[trigger] h.remove(p)[j]).0 == *k;
                            let i = if j < p { j } else { j + 1 };
                            assert(h.remove(p)[j] == h[i]);
                        }
                    } else {
                        let p = key_pos(m, *k);
                        if has_key(m.remove(p), *k) {
                            let j = choose|j: int| 0 <= j < m.remove(p).len() && (#[trigger] m.remove(p)[j]).0 == *k;
                            let i = if j < p { j } else { j + 1 };
                            assert(m.remove(p)[j] == m[i]);
                        }
                    }
                }
                self.place(key, v, c1);
                proof {
                    self.law_within_capacity();
                    if c1 < self.times {
                        lemma_pos_of_entry(self.hist@, 0);
                    } else {
                        lemma_pos_of_entry(self.freq@, 0);
                    }
                }
                Some(c1 < self.times)
            },
        }
    }

    /// The value of key `k`, counting one more read of it: the entry moves
    /// to the front of its list, or of the main list on its `times`-th put
    /// or read (see `visited`).
    pub fn get(&mut self, k: &K) -> (res: Option<&V>)
        requires
            old(self).wf(),
            old(self).history().len() + old(self).frequent().len() + 2 < usize::MAX,
            has_key(old(self).frequent(), *k) ==> old(self).frequent()[key_pos(old(self).frequent(), *k)].1.1 < usize::MAX,
        ensures
            final(self).wf(),
            final(self).spec_capacity() == old(self).spec_capacity(),
            final(self).spec_times() == old(self).spec_times(),
            res is Some <==> (has_key(old(self).history(), *k) || has_key(old(self).frequent(), *k)),
            res matches Some(r) ==> {
                let val = value_of(old(self).history(), old(self).frequent(), *k);
                &&& *r == val
                &&& (final(self).history(), final(self).frequent()) == visited(
                    old(self).history(),
                    old(self).frequent(),
                    *k,
                    val,
                    old(self).spec_times(),
                )
            },
            res is None ==> final(self).history() == old(self).history() && final(self).frequent() == old(self).frequent(),
    {
        match self.visit(k) {
            None => None,
            Some(true) => match self.hist.raw_get(k) {
                Some(r) => Some(&r.0),
                None => None,
            },
            Some(false) => match self.freq.raw_get(k) {
                Some(r) => Some(&r.0),
                None => None,
            },
        }
    }

    /// Puts `v` under key `k`.  A key that is there gets the new value,
    /// counts one more put and moves as `get` moves it, and its old value is
    /// given back with the key.  A new key, with a count of one, goes to the
    /// front of the history list (of the main list when `times` is at most
    /// one), after the place is made (see `evicted`); nothing is given back.
    pub fn capture_insert(&mut self, k: K, v: V) -> (res: Option<(K, V)>)
        requires
            old(self).wf(),
            old(self).history().len() + old(self).frequent().len() + 2 < usize::MAX,
            has_key(old(self).frequent(), k) ==> old(self).frequent()[key_pos(old(self).frequent(), k)].1.1 < usize::MAX,
        ensures
            final(self).wf(),
            final(self).spec_capacity() == old(self).spec_capacity(),
            final(self).spec_times() == old(self).spec_times(),
            has_key(old(self).history(), k) || has_key(old(self).frequent(), k) ==> {
                &&& res == Some((k, value_of(old(self).history(), old(self).frequent(), k)))
                &&& (final(self).history(), final(self).frequent()) == visited(
                    old(self).history(),
                    old(self).frequent(),
                    k,
                    v,
                    old(self).spec_times(),
                )
            },
            !has_key(old(self).history(), k) && !has_key(old(self).frequent(), k) ==> {
                let (h, m) = evicted(old(self).history(), old(self).frequent(), old(self).spec_capacity());
                &&& res is None
                &&& (final(self).history(), final(self).frequent()) == placed(h, m, (k, (v, 1)), old(self).spec_times())
            },
    {
        proof {
            self.law_within_capacity();
        }
        let ghost h = self.hist@;
        let ghost m = self.freq@;
        match self.take(&k) {
            Some(e) => {
                let (key, (old_v, c)) = e;
                let c1 = c + 1;
                proof {
                    self.law_within_capacity();
                    if has_key(h, k) {
                        let p = key_pos(h, k);
                        if has_key(h.remove(p), k) {
                            let j = choose|j: int| 0 <= j < h.remove(p).len() && (#[trigger] h.remove(p)[j]).0 == k;
                            let i = if j < p { j } else { j + 1 };
                            assert(h.remove(p)[j] == h[i]);
                        }
                    } else {
                        let p = key_pos(m, k);
                        if has_key(m.remove(p), k) {
                            let j = choose|j: int| 0 <= j < m.remove(p).len() && (#[trigger] m.remove(p)[j]).0 == k;
                            let i = if j < p { j } else { j + 1 };
                            assert(m.remove(p)[j] == m[i]);
                        }
                    }
                }
                self.place(key, v, c1);
                Some((k, old_v))
            },
            None => {
                self.evict();
                proof {
                    self.law_within_capacity();
                    let (h2, m2) = evicted(h, m, self.cap as nat);
                    if h.len() + m.len() >= self.cap && h.len() > 0 {
                        lemma_drop_last_keys(h, k);
                    } else if h.len() + m.len() >= self.cap {
                        lemma_drop_last_keys(m, k);
                    }
                }
                self.place(k, v, 1);
                None
            },
        }
    }

    /// Puts `v` under key `k` as `capture_insert` does, and gives back the
    /// old value of a key that was there.
    pub fn insert(&mut self, k: K, v: V) -> (res: Option<V>)
        requires
            old(self).wf(),
            old(self).history().len() + old(self).frequent().len() + 2 < usize::MAX,
            has_key(old(self).frequent(), k) ==> old(self).frequent()[key_pos(old(self).frequent(), k)].1.1 < usize::MAX,
        ensures
            final(self).wf(),
            final(self).spec_capacity() == old(self).spec_capacity(),
            final(self).spec_times() == old(self).spec_times(),
            has_key(old(self).history(), k) || has_key(old(self).frequent(), k) ==> {
                &&& res == Some(value_of(old(self).history(), old(self).frequent(), k))
                &&& (final(self).history(), final(self).frequent()) == visited(
                    old(self).history(),
                    old(self).frequent(),
                    k,
                    v,
                    old(self).spec_times(),
                )
            },
            !has_key(old(self).history(), k) && !has_key(old(self).frequent(), k) ==> {
                let (h, m) = evicted(old(self).history(), old(self).frequent(), old(self).spec_capacity());
                &&& res is None
                &&& (final(self).history(), final(self).frequent()) == placed(h, m, (k, (v, 1)), old(self).spec_times())
            },
    {
        match self.capture_insert(k, v) {
            Some((_, old_v)) => Some(old_v),
            None => None,
        }
    }

    /// Takes the entry of key `k` out of the cache and gives it.
    pub fn remove(&mut self, k: &K) -> (res: Option<(K, V)>)
        requires
            old(self).wf(),
        ensures
            final(self).wf(),
            final(self).spec_capacity() == old(self).spec_capacity(),
            final(self).spec_times() == old(self).spec_times(),
            has_key(old(self).history(), *k) ==> {
                let p = key_pos(old(self).history(), *k);
                &&& res == Some((*k, old(self).history()[p].1.0))
                &&& final(self).history() == old(self).history().remove(p)
                &&& final(self).frequent() == old(self).frequent()
            },
            !has_key(old(self).history(), *k) && has_key(old(self).frequent(), *k) ==> {
                let p = key_pos(old(self).frequent(), *k);
                &&& res == Some((*k, old(self).frequent()[p].1.0))
                &&& final(self).frequent() == old(self).frequent().remove(p)
                &&& final(self).history() == old(self).history()
            },
            !has_key(old(self).history(), *k) && !has_key(old(self).frequent(), *k) ==> {
                &&& res is None
                &&& final(self).history() == old(self).history()
                &&& final(self).frequent() == old(self).frequent()
            },
    {
        match self.take(k) {
            Some(e) => {
                let (key, (v, _)) = e;
                Some((key, v))
            },
            None => None,
        }
    }

    /// Takes out the most recently used entry of the main list, or of the
    /// history list when the main list is empty.
    pub fn pop(&mut self) -> (res: Option<(K, V)>)
        requires
            old(self).wf(),
        ensures
            final(self).wf(),
            final(self).spec_capacity() == old(self).spec_capacity(),
            final(self).spec_times() == old(self).spec_times(),
            old(self).frequent().len() > 0 ==> {
                let e = old(self).frequent()[0];
                &&& res == Some((e.0, e.1.0))
                &&& final(self).frequent() == old(self).frequent().drop_first()
                &&& final(self).history() == old(self).history()
            },
            old(self).frequent().len() == 0 && old(self).history().len() > 0 ==> {
                let e = old(self).history()[0];
                &&& res == Some((e.0, e.1.0))
                &&& final(self).history() == old(self).history().drop_first()
                &&& final(self).frequent() == old(self).frequent()
            },
            old(self).frequent().len() == 0 && old(self).history().len() == 0 ==> res is None
                && final(self).history() == old(self).history() && final(self).frequent() == old(self).frequent(),
    {
        proof {
            self.law_within_capacity();
        }
        let ghost h = self.hist@;
        let ghost m = self.freq@;
        if self.freq.len() > 0 {
            let r = self.freq.pop();
            proof {
                assert forall|x: K| !(#[trigger] has_key(self.hist@, x) && has_key(self.freq@, x)) by {
                    lemma_drop_first_keys(m, x);
                }
                assert forall|i: int| 0 <= i < self.freq@.len() implies (#[trigger] self.freq@[i]).1.1 >= self.times by {
                    assert(self.freq@[i] == m[i + 1]);
                }
            }
            match r {
                Some(e) => {
                    let (key, (v, _)) = e;
                    Some((key, v))
                },
                None => None,
            }
        } else {
            let r = self.hist.pop();
            proof {
                if h.len() > 0 {
                    assert forall|x: K| !(#[trigger] has_key(self.hist@, x) && has_key(self.freq@, x)) by {
                        lemma_drop_first_keys(h, x);
                    }
                    assert forall|i: int| 0 <= i < self.hist@.len() implies (#[trigger] self.hist@[i]).1.1 < self.times by {
                        assert(self.hist@[i] == h[i + 1]);
                    }
                }
            }
            match r {
                Some(e) => {
                    let (key, (v, _)) = e;
                    Some((key, v))
                },
                None => None,
            }
        }
    }

    /// Takes out the least recently used entry of the history list, or of
    /// the main list when the history list is empty.
    pub fn pop_last(&mut self) -> (res: Option<(K, V)>)
        requires
            old(self).wf(),
        ensures
            final(self).wf(),
            final(self).spec_capacity() == old(self).spec_capacity(),
            final(self).spec_times() == old(self).spec_times(),
            old(self).history().len() > 0 ==> {
                let e = old(self).history().last();
                &&& res == Some((e.0, e.1.0))
                &&& final(self).history() == old(self).history().drop_last()
                &&& final(self).frequent() == old(self).frequent()
            },
            old(self).history().len() == 0 && old(self).frequent().len() > 0 ==> {
                let e = old(self).frequent().last();
                &&& res == Some((e.0, e.1.0))
                &&& final(self).frequent() == old(self).frequent().drop_last()
                &&& final(self).history() == old(self).history()
            },
            old(self).frequent().len() == 0 && old(self).history().len() == 0 ==> res is None
                && final(self).history() == old(self).history() && final(self).frequent() == old(self).frequent(),
    {
        proof {
            self.law_within_capacity();
        }
        let ghost h = self.hist@;
        let ghost m = self.freq@;
        if self.hist.len() > 0 {
            let r = self.hist.pop_last();
            proof {
                assert forall|x: K| !(#[trigger] has_key(self.hist@, x) && has_key(self.freq@, x)) by {
                    lemma_drop_last_keys(h, x);
                }
                assert forall|i: int| 0 <= i < self.hist@.len() implies (#[trigger] self.hist@[i]).1.1 < self.times by {
                    assert(self.hist@[i] == h[i]);
                }
            }
            match r {
                Some(e) => {
                    let (key, (v, _)) = e;
                    Some((key, v))
                },
                None => None,
            }
        } else {
            let r = self.freq.pop_last();
            proof {
                if m.len() > 0 {
                    assert forall|x: K| !(#[trigger] has_key(self.hist@, x) && has_key(self.freq@, x)) by {
                        lemma_drop_last_keys(m, x);
                    }
                    assert forall|i: int| 0 <= i < self.freq@.len() implies (#[trigger] self.freq@[i]).1.1 >= self.times by {
                        assert(self.freq@[i] == m[i]);
                    }
                }
            }
            match r {
                Some(e) => {
                    let (key, (v, _)) = e;
                    Some((key, v))
                },
                None => None,
            }
        }
    }
}

impl<K: Hash + Eq + Copy, V, S: BuildHasher> LruKCache<K, V, S> {
    /// The key and value of key `k`, counting one more read as `get` does.
    pub fn get_key_value(&mut self, k: &K) -> (res: Option<(&K, &V)>)
        requires
            old(self).wf(),
            old(self).history().len() + old(self).frequent().len() + 2 < usize::MAX,
            has_key(old(self).frequent(), *k) ==> old(self).frequent()[key_pos(old(self).frequent(), *k)].1.1 < usize::MAX,
        ensures
            final(self).wf(),
            final(self).spec_capacity() == old(self).spec_capacity(),
            final(self).spec_times() == old(self).spec_times(),
            res is Some <==> (has_key(old(self).history(), *k) || has_key(old(self).frequent(), *k)),
            res matches Some(r) ==> {
                let val = value_of(old(self).history(), old(self).frequent(), *k);
                &&& *r.0 == *k
                &&& *r.1 == val
                &&& (final(self).history(), final(self).frequent()) == visited(
                    old(self).history(),
                    old(self).frequent(),
                    *k,
                    val,
                    old(self).spec_times(),
                )
            },
            res is None ==> final(self).history() == old(self).history() && final(self).frequent() == old(self).frequent(),
    {
        match self.visit(k) {
            None => None,
            Some(true) => match self.hist.raw_get_key_value(k) {
                Some(r) => Some((r.0, &r.1.0)),
                None => None,
            },
            Some(false) => match self.freq.raw_get_key_value(k) {
                Some(r) => Some((r.0, &r.1.0)),
                None => None,
            },
        }
    }

    /// The value of key `k`, to change in place, counting one more read as
    /// `get` does; the entry ends where `get` puts it, with the value left
    /// through the reference.
    pub fn get_mut(&mut self, k: &K) -> (res: Option<&mut V>)
        requires
            old(self).wf(),
            old(self).history().len() + old(self).frequent().len() + 2 < usize::MAX,
            has_key(old(self).frequent(), *k) ==> old(self).frequent()[key_pos(old(self).frequent(), *k)].1.1 < usize::MAX,
        ensures
            final(self).wf(),
            final(self).spec_capacity() == old(self).spec_capacity(),
            final(self).spec_times() == old(self).spec_times(),
            res is Some <==> (has_key(old(self).history(), *k) || has_key(old(self).frequent(), *k)),
            res matches Some(r) ==> {
                &&& *r == value_of(old(self).history(), old(self).frequent(), *k)
                &&& (final(self).history(), final(self).frequent()) == visited(
                    old(self).history(),
                    old(self).frequent(),
                    *k,
                    *final(r),
                    old(self).spec_times(),
                )
            },
            res is None ==> final(self).history() == old(self).history() && final(self).frequent() == old(self).frequent(),
    {
        let ghost h = old(self).history();
        let ghost m = old(self).frequent();
        match self.visit(k) {
            None => None,
            Some(true) => {
                let ghost mid = self.hist@;
                match self.hist.peek_mut(k) {
                    Some(e) => {
                        proof {
                            assert(mid.len() > 0);
                            let nl = mid.update(0, (mid[0].0, *final(e)));
                            assert forall|x: K| #[trigger] has_key(nl, x) == has_key(mid, x) by {
                                if has_key(nl, x) {
                                    let j = choose|j: int| 0 <= j < nl.len() && (#[trigger] nl[j]).0 == x;
                                    assert(mid[j].0 == x);
                                }
                                if has_key(mid, x) {
                                    let j = choose|j: int| 0 <= j < mid.len() && (#[trigger] mid[j]).0 == x;
                                    assert(nl[j].0 == x);
                                }
                            }
                        }
                        Some(&mut e.0)
                    },
                    None => None,
                }
            },
            Some(false) => {
                let ghost mid = self.freq@;
                match self.freq.peek_mut(k) {
                    Some(e) => {
                        proof {
                            assert(mid.len() > 0);
                            let nl = mid.update(0, (mid[0].0, *final(e)));
                            assert forall|x: K| #[trigger] has_key(nl, x) == has_key(mid, x) by {
                                if has_key(nl, x) {
                                    let j = choose|j: int| 0 <= j < nl.len() && (#[trigger] nl[j]).0 == x;
                                    assert(mid[j].0 == x);
                                }
                                if has_key(mid, x) {
                                    let j = choose|j: int| 0 <= j < mid.len() && (#[trigger] mid[j]).0 == x;
                                    assert(nl[j].0 == x);
                                }
                            }
                        }
                        Some(&mut e.0)
                    },
                    None => None,
                }
            },
        }
    }

    /// Raises the capacity by `additional`.
    pub fn reserve(&mut self, additional: usize)
        requires
            old(self).wf(),
            old(self).spec_capacity() + additional <= usize::MAX,
        ensures
            final(self).wf(),
            final(self).history() == old(self).history(),
            final(self).frequent() == old(self).frequent(),
            final(self).spec_capacity() == old(self).spec_capacity() + additional,
            final(self).spec_times() == old(self).spec_times(),
    {
        self.hist.reserve(additional);
        self.freq.reserve(additional);
        self.cap = self.cap + additional;
    }

    /// The entries as the cache lists them (see the view): keys and values.
    pub fn iter(&self) -> (res: Vec<(&K, &V)>)
        requires
            self.wf(),
        ensures
            res@.len() == self@.len(),
            forall|i: int| 0 <= i < res@.len() ==> *(#[trigger] res@[i]).0 == self@[i].0 && *res@[i].1 == self@[i].1.0,
    {
        let a = self.freq.iter();
        let b = self.hist.iter();
        let ghost all = self@;
        let mut res: Vec<(&K, &V)> = Vec::new();
        let mut i: usize = 0;
        while i < a.len()
            invariant
                all == self.frequent() + self.history(),
                a@.len() == self.frequent().len(),
                forall|j: int| 0 <= j < a@.len() ==> *(#[trigger] a@[j]).0 == self.frequent()[j].0 && *a@[j].1 == self.frequent()[j].1,
                i <= a@.len(),
                res@.len() == i,
                forall|j: int| 0 <= j < i ==> *(#[trigger] res@[j]).0 == all[j].0 && *res@[j].1 == all[j].1.0,
            decreases a@.len() - i,
        {
            let (k, e) = a[i];
            res.push((k, &e.0));
            i = i + 1;
        }
        let mut j: usize = 0;
        while j < b.len()
            invariant
                all == self.frequent() + self.history(),
                b@.len() == self.history().len(),
                forall|t: int| 0 <= t < b@.len() ==> *(#[trigger] b@[t]).0 == self.history()[t].0 && *b@[t].1 == self.history()[t].1,
                j <= b@.len(),
                res@.len() == self.frequent().len() + j,
                forall|t: int| 0 <= t < res@.len() ==> *(#[trigger] res@[t]).0 == all[t].0 && *res@[t].1 == all[t].1.0,
            decreases b@.len() - j,
        {
            let (k, e) = b[j];
            res.push((k, &e.0));
            j = j + 1;
        }
        res
    }

    /// The keys as the cache lists them.
    pub fn keys(&self) -> (res: Vec<&K>)
        requires
            self.wf(),
        ensures
            res@.len() == self@.len(),
            forall|i: int| 0 <= i < res@.len() ==> *(#[trigger] res@[i]) == self@[i].0,
    {
        let items = self.iter();
        let mut res: Vec<&K> = Vec::new();
        let mut i: usize = 0;
        while i < items.len()
            invariant
                items@.len() == self@.len(),
                forall|j: int| 0 <= j < items@.len() ==> *(#[trigger] items@[j]).0 == self@[j].0,
                i <= items@.len(),
                res@.len() == i,
                forall|j: int| 0 <= j < i ==> *(#[trigger] res@[j]) == self@[j].0,
            decreases items@.len() - i,
        {
            res.push(items[i].0);
            i = i + 1;
        }
        res
    }

    /// The values as the cache lists them.
    pub fn values(&self) -> (res: Vec<&V>)
        requires
            self.wf(),
        ensures
            res@.len() == self@.len(),
            forall|i: int| 0 <= i < res@.len() ==> *(#[trigger] res@[i]) == self@[i].1.0,
    {
        let items = self.iter();
        let mut res: Vec<&V> = Vec::new();
        let mut i: usize = 0;
        while i < items.len()
            invariant
                items@.len() == self@.len(),
                forall|j: int| 0 <= j < items@.len() ==> *(#[trigger] items@[j]).1 == self@[j].1.0,
                i <= items@.len(),
                res@.len() == i,
                forall|j: int| 0 <= j < i ==> *(#[trigger] res@[j]) == self@[j].1.0,
            decreases items@.len() - i,
        {
            res.push(items[i].1);
            i = i + 1;
        }
        res
    }
}

} // verus!
