use std::collections::hash_map::RandomState;
use std::hash::{BuildHasher, Hash};
use vstd::prelude::*;
use vstd::std_specs::hash::{builds_valid_hashers, obeys_key_model};

use crate::cache::lfu::{is_unusual_last, keeps_all_but, keeps_value, lemma_keeps_chain, LfuCache};
use crate::cache::lru::{has_key, key_pos, lemma_pos_of_entry, LruCache};

verus! {

/// An adaptive replacement cache.  A new key goes into a list kept by
/// recency; a key read again moves to a list kept by use counts.  Entries
/// pushed out of the recency list are remembered in a ghost list, and so are
/// entries of the counted list; a read that finds its key in a ghost list
/// brings the entry back and gives one more place to the list it came from,
/// taking one from the other.
#[verifier::reject_recursive_types(K)]
#[verifier::reject_recursive_types(V)]
#[verifier::reject_recursive_types(S)]
pub struct ArcCache<K, V, S> {
    main_lru: LruCache<K, V, S>,
    ghost_lru: LruCache<K, V, S>,
    main_lfu: LfuCache<K, V, S>,
    ghost_lfu: LruCache<K, V, S>,
    cap: usize,
}

impl<K, V, S> ArcCache<K, V, S> {
    /// The entries kept by recency, most recently used first.
    pub closed spec fn recent(&self) -> Seq<(K, V)> {
        self.main_lru@
    }

    /// The entries kept by use count, with their counts.
    pub closed spec fn frequent(&self) -> Seq<(K, (V, usize))> {
        self.main_lfu@
    }

    /// The entries remembered after leaving the recency list.
    pub closed spec fn ghost_recent(&self) -> Seq<(K, V)> {
        self.ghost_lru@
    }

    /// The entries remembered after leaving the counted list.
    pub closed spec fn ghost_frequent(&self) -> Seq<(K, V)> {
        self.ghost_lfu@
    }

    /// The capacity asked for.
    pub closed spec fn spec_capacity(&self) -> nat {
        self.cap as nat
    }

    /// The number of entries the recency list holds at most.
    pub closed spec fn recent_capacity(&self) -> nat {
        self.main_lru.spec_capacity()
    }

    /// The number of entries the counted list holds at most.
    pub closed spec fn frequent_capacity(&self) -> nat {
        self.main_lfu.spec_capacity()
    }

    /// The number of entries the ghost list of the recency list holds at most.
    pub closed spec fn ghost_recent_capacity(&self) -> nat {
        self.ghost_lru.spec_capacity()
    }

    /// Internal consistency of the four lists.
    pub closed spec fn wf(&self) -> bool {
        &&& self.main_lru.wf()
        &&& self.ghost_lru.wf()
        &&& self.main_lfu.wf()
        &&& self.ghost_lfu.wf()
    }

    /// No count or length is near the top of its range: the counted list
    /// can take two more visits and a new entry, and each list one more
    /// entry and one more place.
    pub closed spec fn has_room(&self) -> bool {
        &&& self.main_lfu.spec_visits() + 2 < usize::MAX
        &&& self.main_lfu.spec_default_count() + 2 < usize::MAX
        &&& forall|i: int| 0 <= i < self.main_lfu@.len() ==> (#[trigger] self.main_lfu@[i]).1.1 + 2 < usize::MAX
        &&& self.main_lfu@.len() + 2 < usize::MAX
        &&& self.main_lru@.len() + 2 < usize::MAX
        &&& self.ghost_lru@.len() + 2 < usize::MAX
        &&& self.ghost_lfu@.len() + 2 < usize::MAX
        &&& self.main_lfu.spec_capacity() + 1 < usize::MAX
        &&& self.main_lru.spec_capacity() + 1 < usize::MAX
    }
}

impl<K: Hash + Eq + Copy, V> ArcCache<K, V, RandomState> {
    /// An empty cache of capacity `cap` (at least one) for each list.
    pub fn new(cap: usize) -> (res: Self)
        requires
            obeys_key_model::<K>(),
        ensures
            res.wf(),
            res.recent() == Seq::<(K, V)>::empty(),
            res.frequent() == Seq::<(K, (V, usize))>::empty(),
            res.ghost_recent() == Seq::<(K, V)>::empty(),
            res.ghost_frequent() == Seq::<(K, V)>::empty(),
            res.spec_capacity() == if cap == 0 { 1 } else { cap },
            res.recent_capacity() == if cap == 0 { 1 } else { cap },
            res.frequent_capacity() == if cap == 0 { 1 } else { cap },
    {
        let cap = if cap == 0 { 1 } else { cap };
        ArcCache {
            main_lru: LruCache::new(cap),
            ghost_lru: LruCache::new(cap),
            main_lfu: LfuCache::new(cap),
            ghost_lfu: LruCache::new(cap),
            cap,
        }
    }
}

impl<K: Hash + Eq + Copy, V, S: BuildHasher + Clone> ArcCache<K, V, S> {
    /// An empty cache of capacity `cap` (at least one) for each list, hashing
    /// by `hash_builder`.
    pub fn with_hasher(cap: usize, hash_builder: S) -> (res: Self)
        requires
            obeys_key_model::<K>(),
            builds_valid_hashers::<S>(),
        ensures
            res.wf(),
            res.recent() == Seq::<(K, V)>::empty(),
            res.frequent() == Seq::<(K, (V, usize))>::empty(),
            res.ghost_recent() == Seq::<(K, V)>::empty(),
            res.ghost_frequent() == Seq::<(K, V)>::empty(),
            res.spec_capacity() == if cap == 0 { 1 } else { cap },
            res.recent_capacity() == if cap == 0 { 1 } else { cap },
            res.frequent_capacity() == if cap == 0 { 1 } else { cap },
    {
        let cap = if cap == 0 { 1 } else { cap };
        ArcCache {
            main_lru: LruCache::with_hasher(cap, hash_builder.clone()),
            ghost_lru: LruCache::with_hasher(cap, hash_builder.clone()),
            main_lfu: LfuCache::with_hasher(cap, hash_builder.clone()),
            ghost_lfu: LruCache::with_hasher(cap, hash_builder),
            cap,
        }
    }
}

impl<K: Hash + Eq + Copy, V, S: BuildHasher> ArcCache<K, V, S> {
    /// The capacity asked for.
    pub fn capacity(&self) -> (res: usize)
        ensures
            res == self.spec_capacity(),
    {
        self.cap
    }

    /// The number of entries of the four lists, ghost lists included.
    pub fn len(&self) -> (res: usize)
        requires
            self.wf(),
            self.recent().len() + self.frequent().len() + self.ghost_recent().len() + self.ghost_frequent().len()
                <= usize::MAX,
        ensures
            res == self.recent().len() + self.frequent().len() + self.ghost_recent().len() + self.ghost_frequent().len(),
    {
        self.main_lru.len() + self.main_lfu.len() + self.ghost_lfu.len() + self.ghost_lru.len()
    }

    /// Whether all four lists are empty.
    pub fn is_empty(&self) -> (res: bool)
        requires
            self.wf(),
            self.recent().len() + self.frequent().len() + self.ghost_recent().len() + self.ghost_frequent().len()
                <= usize::MAX,
        ensures
            res == (self.recent().len() + self.frequent().len() + self.ghost_recent().len()
                + self.ghost_frequent().len() == 0),
    {
        self.len() == 0
    }

    /// Empties all four lists.
    pub fn clear(&mut self)
        requires
            old(self).wf(),
        ensures
            final(self).wf(),
            final(self).recent() == Seq::<(K, V)>::empty(),
            final(self).frequent() == Seq::<(K, (V, usize))>::empty(),
            final(self).ghost_recent() == Seq::<(K, V)>::empty(),
            final(self).ghost_frequent() == Seq::<(K, V)>::empty(),
            final(self).spec_capacity() == old(self).spec_capacity(),
    {
        self.main_lru.clear();
        self.ghost_lru.clear();
        self.main_lfu.clear();
        self.ghost_lfu.clear();
    }

    /// Whether key `k` has an entry in the recency list or the counted list.
    pub fn contains_key(&self, k: &K) -> (res: bool)
        requires
            self.wf(),
        ensures
            res == (has_key(self.recent(), *k) || has_key(self.frequent(), *k)),
    {
        self.main_lru.contains_key(k) || self.main_lfu.contains_key(k)
    }

    /// The value of key `k` in the recency list, else in the counted list,
    /// with nothing moved or counted.
    pub fn raw_get(&self, k: &K) -> (res: Option<&V>)
        requires
            self.wf(),
        ensures
            has_key(self.recent(), *k) ==> res == Some(&self.recent()[key_pos(self.recent(), *k)].1),
            !has_key(self.recent(), *k) && has_key(self.frequent(), *k) ==> res == Some(
                &self.frequent()[key_pos(self.frequent(), *k)].1.0,
            ),
            !has_key(self.recent(), *k) && !has_key(self.frequent(), *k) ==> res is None,
    {
        match self.main_lru.raw_get(k) {
            Some(v) => Some(v),
            None => self.main_lfu.raw_get(k),
        }
    }

    /// Removes the entry of key `k` from the recency list, else from the
    /// counted list, and gives it.
    pub fn remove(&mut self, k: &K) -> (res: Option<(K, V)>)
        requires
            old(self).wf(),
        ensures
            final(self).wf(),
            final(self).ghost_recent() == old(self).ghost_recent(),
            final(self).ghost_frequent() == old(self).ghost_frequent(),
            final(self).spec_capacity() == old(self).spec_capacity(),
            has_key(old(self).recent(), *k) ==> {
                let p = key_pos(old(self).recent(), *k);
                &&& res == Some(old(self).recent()[p])
                &&& final(self).recent() == old(self).recent().remove(p)
                &&& final(self).frequent() == old(self).frequent()
            },
            !has_key(old(self).recent(), *k) && has_key(old(self).frequent(), *k) ==> {
                let p = key_pos(old(self).frequent(), *k);
                &&& res == Some((old(self).frequent()[p].0, old(self).frequent()[p].1.0))
                &&& final(self).recent() == old(self).recent()
                &&& final(self).frequent() == old(self).frequent().remove(p)
            },
            !has_key(old(self).recent(), *k) && !has_key(old(self).frequent(), *k) ==> {
                &&& res is None
                &&& final(self).recent() == old(self).recent()
                &&& final(self).frequent() == old(self).frequent()
            },
    {
        match self.main_lru.remove(k) {
            Some(e) => Some(e),
            None => self.main_lfu.remove(k),
        }
    }

    /// Removes and gives the most recently used entry of the recency list;
    /// when that list is empty, the most used entry of the counted list (the
    /// one `pop_usual` takes).
    pub fn pop(&mut self) -> (res: Option<(K, V)>)
        requires
            old(self).wf(),
        ensures
            final(self).wf(),
            final(self).ghost_recent() == old(self).ghost_recent(),
            final(self).ghost_frequent() == old(self).ghost_frequent(),
            old(self).recent().len() > 0 ==> {
                &&& res == Some(old(self).recent()[0])
                &&& final(self).recent() == old(self).recent().drop_first()
                &&& final(self).frequent() == old(self).frequent()
            },
            old(self).recent().len() == 0 ==> final(self).recent() == old(self).recent(),
            old(self).recent().len() == 0 && old(self).frequent().len() == 0 ==> res is None
                && final(self).frequent() == old(self).frequent(),
            old(self).recent().len() == 0 && old(self).frequent().len() > 0 ==> exists|i: int|
                #[trigger] crate::cache::lfu::is_usual_last(old(self).frequent(), i) && res == Some(
                    (old(self).frequent()[i].0, old(self).frequent()[i].1.0),
                ) && final(self).frequent() == old(self).frequent().remove(i),
    {
        if self.main_lru.len() != 0 {
            return self.main_lru.pop();
        }
        self.main_lfu.pop_usual()
    }

    /// Removes and gives the least recently used entry of the recency list;
    /// when that list is empty, the least used entry of the counted list
    /// (the one `pop_unusual` takes).
    pub fn pop_last(&mut self) -> (res: Option<(K, V)>)
        requires
            old(self).wf(),
        ensures
            final(self).wf(),
            final(self).ghost_recent() == old(self).ghost_recent(),
            final(self).ghost_frequent() == old(self).ghost_frequent(),
            old(self).recent().len() > 0 ==> {
                &&& res == Some(old(self).recent().last())
                &&& final(self).recent() == old(self).recent().drop_last()
                &&& final(self).frequent() == old(self).frequent()
            },
            old(self).recent().len() == 0 ==> final(self).recent() == old(self).recent(),
            old(self).recent().len() == 0 && old(self).frequent().len() == 0 ==> res is None
                && final(self).frequent() == old(self).frequent(),
            old(self).recent().len() == 0 && old(self).frequent().len() > 0 ==> exists|i: int|
                #[trigger] crate::cache::lfu::is_unusual_last(old(self).frequent(), i) && res == Some(
                    (old(self).frequent()[i].0, old(self).frequent()[i].1.0),
                ) && final(self).frequent() == old(self).frequent().remove(i),
    {
        if self.main_lru.len() != 0 {
            return self.main_lru.pop_last();
        }
        self.main_lfu.pop_unusual()
    }

    /// The value of key `k` in the counted list, counted as a visit where
    /// the counts leave room for one.
    fn frequent_value_mut(&mut self, k: &K) -> (res: Option<&mut V>)
        requires
            old(self).wf(),
        ensures
            final(self).wf(),
            final(self).recent() == old(self).recent(),
            final(self).ghost_recent() == old(self).ghost_recent(),
            final(self).ghost_frequent() == old(self).ghost_frequent(),
            final(self).spec_capacity() == old(self).spec_capacity(),
            res is Some <==> has_key(old(self).frequent(), *k),
            res matches Some(v) ==> *v == old(self).frequent()[key_pos(old(self).frequent(), *k)].1.0,
            forall|x: K| x != *k ==> #[trigger] keeps_value(old(self).frequent(), final(self).frequent(), x),
            keeps_all_but(old(self).frequent(), final(self).frequent(), *k, *k),
    {
        let room = match self.main_lfu.get_visit(k) {
            Some(c) => c < usize::MAX,
            None => true,
        };
        if room && self.main_lfu.visits() < usize::MAX {
            self.main_lfu.get_mut(k)
        } else {
            self.main_lfu.peek_mut(k)
        }
    }

    /// The value of key `k`, to change in place.  Found in the recency list,
    /// the entry moves to the counted list; found in the ghost list of the
    /// counted list, it comes back to the counted list, which gains a place
    /// (when full) while the recency list gives one up (when full and
    /// holding more than one); found in the ghost list of the recency list,
    /// it comes back to the front of the recency list, which gains a place
    /// (when full) while the counted list gives one up (when full); else it
    /// is looked up in the counted list.
    pub fn get_mut(&mut self, k: &K) -> (res: Option<&mut V>)
        requires
            old(self).wf(),
            old(self).has_room(),
            has_key(old(self).recent(), *k) ==> old(self).frequent_capacity() > 0,
        ensures
            final(self).wf(),
            res is Some <==> (has_key(old(self).recent(), *k) || has_key(old(self).ghost_frequent(), *k)
                || has_key(old(self).ghost_recent(), *k) || has_key(old(self).frequent(), *k)),
            has_key(old(self).recent(), *k) ==> {
                let p = key_pos(old(self).recent(), *k);
                &&& res matches Some(v) && *v == old(self).recent()[p].1
                &&& final(self).recent() == old(self).recent().remove(p)
                &&& final(self).ghost_recent() == old(self).ghost_recent()
                &&& final(self).ghost_frequent() == old(self).ghost_frequent()
                &&& old(self).frequent().len() < old(self).frequent_capacity() ==> forall|x: K| x != *k
                    ==> #[trigger] keeps_value(old(self).frequent(), final(self).frequent(), x)
                &&& exists|y: K| #[trigger] keeps_all_but(old(self).frequent(), final(self).frequent(), *k, y)
            },
            !has_key(old(self).recent(), *k) && has_key(old(self).ghost_frequent(), *k) ==> {
                let p = key_pos(old(self).ghost_frequent(), *k);
                let r = old(self).recent();
                &&& res matches Some(v) && *v == old(self).ghost_frequent()[p].1
                &&& final(self).ghost_frequent() == old(self).ghost_frequent().remove(p)
                &&& final(self).ghost_recent() == old(self).ghost_recent()
                &&& forall|x: K| x != *k ==> #[trigger] keeps_value(old(self).frequent(), final(self).frequent(), x)
                &&& final(self).recent() == if r.len() == old(self).recent_capacity() && old(self).recent_capacity() > 1 {
                    r.drop_last()
                } else {
                    r
                }
            },
            !has_key(old(self).recent(), *k) && !has_key(old(self).ghost_frequent(), *k) && has_key(
                old(self).ghost_recent(),
                *k,
            ) ==> {
                let p = key_pos(old(self).ghost_recent(), *k);
                &&& res matches Some(v) && *v == old(self).ghost_recent()[p].1 && final(self).recent() == seq![
                    (*k, *final(v)),
                ] + old(self).recent()
                &&& final(self).ghost_recent() == old(self).ghost_recent().remove(p)
                &&& final(self).ghost_frequent() == old(self).ghost_frequent()
                &&& old(self).frequent().len() < old(self).frequent_capacity() ==> final(self).frequent() == old(self).frequent()
                &&& final(self).frequent() == old(self).frequent() || exists|i: int| #[trigger] is_unusual_last(old(self).frequent(), i)
                    && final(self).frequent() == old(self).frequent().remove(i)
            },
            !has_key(old(self).recent(), *k) && !has_key(old(self).ghost_frequent(), *k) && !has_key(
                old(self).ghost_recent(),
                *k,
            ) ==> {
                &&& final(self).recent() == old(self).recent()
                &&& final(self).ghost_recent() == old(self).ghost_recent()
                &&& final(self).ghost_frequent() == old(self).ghost_frequent()
                &&& res matches Some(v) ==> *v == old(self).frequent()[key_pos(old(self).frequent(), *k)].1.0
                &&& forall|x: K| x != *k ==> #[trigger] keeps_value(old(self).frequent(), final(self).frequent(), x)
            },
    {
        proof {
            self.main_lru.law_within_capacity();
            self.main_lru.lemma_models();
        }
        match self.main_lru.remove(k) {
            Some((key, val)) => {
                let ghost f0 = self.main_lfu@;
                let ghost cap0 = self.main_lfu.spec_capacity();
                let _ = self.main_lfu.insert(key, val);
                proof {
                    let f1 = self.main_lfu@;
                    assert(key == *k);
                    if f0.len() < cap0 || has_key(f0, *k) {
                        assert(keeps_all_but(f0, f1, *k, *k));
                        lemma_keeps_chain(f0, f1, *k, *k);
                    } else {
                        let y = choose|y: K| #[trigger] keeps_all_but(f0, f1, *k, y);
                        lemma_keeps_chain(f0, f1, *k, y);
                    }
                }
                return self.frequent_value_mut(k);
            },
            None => {},
        }
        match self.ghost_lfu.remove(k) {
            Some((key, val)) => {
                self.main_lfu.full_increase();
                let _ = self.main_lru.full_decrease();
                proof {
                    self.main_lfu.law_within_capacity();
                }
                let ghost f0 = self.main_lfu@;
                let _ = self.main_lfu.insert(key, val);
                proof {
                    let f1 = self.main_lfu@;
                    assert(key == *k);
                    assert(keeps_all_but(f0, f1, *k, *k));
                    lemma_keeps_chain(f0, f1, *k, *k);
                }
                return self.frequent_value_mut(k);
            },
            None => {},
        }
        match self.ghost_lru.remove(k) {
            Some((key, val)) => {
                self.main_lru.full_increase();
                proof {
                    self.main_lfu.law_within_capacity();
                }
                let _ = self.main_lfu.full_decrease();
                proof {
                    self.main_lru.law_within_capacity();
                }
                let _ = self.main_lru.insert(key, val);
                proof {
                    self.main_lru.law_within_capacity();
                    assert(self.main_lru@[0].0 == *k);
                    lemma_pos_of_entry(self.main_lru@, 0);
                    assert(self.main_lru@.remove(0) =~= old(self).main_lru@);
                }
                return self.main_lru.get_mut(k);
            },
            None => {},
        }
        self.frequent_value_mut(k)
    }

    /// The value of key `k`, found and moved as `get_mut` does.
    pub fn get(&mut self, k: &K) -> (res: Option<&V>)
        requires
            old(self).wf(),
            old(self).has_room(),
            has_key(old(self).recent(), *k) ==> old(self).frequent_capacity() > 0,
        ensures
            final(self).wf(),
            res is Some <==> (has_key(old(self).recent(), *k) || has_key(old(self).ghost_frequent(), *k)
                || has_key(old(self).ghost_recent(), *k) || has_key(old(self).frequent(), *k)),
            has_key(old(self).recent(), *k) ==> {
                let p = key_pos(old(self).recent(), *k);
                &&& res == Some(&old(self).recent()[p].1)
                &&& final(self).recent() == old(self).recent().remove(p)
                &&& final(self).ghost_recent() == old(self).ghost_recent()
                &&& final(self).ghost_frequent() == old(self).ghost_frequent()
                &&& old(self).frequent().len() < old(self).frequent_capacity() ==> forall|x: K| x != *k
                    ==> #[trigger] keeps_value(old(self).frequent(), final(self).frequent(), x)
                &&& exists|y: K| #[trigger] keeps_all_but(old(self).frequent(), final(self).frequent(), *k, y)
            },
            !has_key(old(self).recent(), *k) && has_key(old(self).ghost_frequent(), *k) ==> {
                let p = key_pos(old(self).ghost_frequent(), *k);
                let r = old(self).recent();
                &&& res == Some(&old(self).ghost_frequent()[p].1)
                &&& final(self).ghost_frequent() == old(self).ghost_frequent().remove(p)
                &&& final(self).ghost_recent() == old(self).ghost_recent()
                &&& forall|x: K| x != *k ==> #[trigger] keeps_value(old(self).frequent(), final(self).frequent(), x)
                &&& final(self).recent() == if r.len() == old(self).recent_capacity() && old(self).recent_capacity() > 1 {
                    r.drop_last()
                } else {
                    r
                }
            },
            !has_key(old(self).recent(), *k) && !has_key(old(self).ghost_frequent(), *k) && has_key(
                old(self).ghost_recent(),
                *k,
            ) ==> {
                let p = key_pos(old(self).ghost_recent(), *k);
                &&& res == Some(&old(self).ghost_recent()[p].1)
                &&& final(self).recent() == seq![(*k, old(self).ghost_recent()[p].1)] + old(self).recent()
                &&& final(self).ghost_recent() == old(self).ghost_recent().remove(p)
                &&& final(self).ghost_frequent() == old(self).ghost_frequent()
                &&& old(self).frequent().len() < old(self).frequent_capacity() ==> final(self).frequent() == old(self).frequent()
                &&& final(self).frequent() == old(self).frequent() || exists|i: int| #[trigger] is_unusual_last(old(self).frequent(), i)
                    && final(self).frequent() == old(self).frequent().remove(i)
            },
            !has_key(old(self).recent(), *k) && !has_key(old(self).ghost_frequent(), *k) && !has_key(
                old(self).ghost_recent(),
                *k,
            ) ==> {
                &&& final(self).recent() == old(self).recent()
                &&& final(self).ghost_recent() == old(self).ghost_recent()
                &&& final(self).ghost_frequent() == old(self).ghost_frequent()
                &&& res matches Some(v) ==> *v == old(self).frequent()[key_pos(old(self).frequent(), *k)].1.0
                &&& forall|x: K| x != *k ==> #[trigger] keeps_value(old(self).frequent(), final(self).frequent(), x)
            },
    {
        match self.get_mut(k) {
            Some(v) => Some(&*v),
            None => None,
        }
    }

    /// The value of key `k`, to change in place: where `k` has an entry in
    /// one of the four lists, found and moved as `get_mut` does; else
    /// `(k, f())` is put as `insert` puts it, and its value given.
    pub fn get_or_insert_mut<F>(&mut self, k: K, f: F) -> (res: &mut V)
        where
            F: FnOnce() -> V,
        requires
            old(self).wf(),
            old(self).has_room(),
            has_key(old(self).recent(), k) ==> old(self).frequent_capacity() > 0,
            !has_key(old(self).recent(), k) && !has_key(old(self).ghost_frequent(), k) && !has_key(
                old(self).ghost_recent(),
                k,
            ) && !has_key(old(self).frequent(), k) ==> f.requires(()),
        ensures
            final(self).wf(),
            has_key(old(self).recent(), k) ==> {
                let p = key_pos(old(self).recent(), k);
                &&& *res == old(self).recent()[p].1
                &&& final(self).recent() == old(self).recent().remove(p)
                &&& final(self).ghost_recent() == old(self).ghost_recent()
                &&& final(self).ghost_frequent() == old(self).ghost_frequent()
            },
            !has_key(old(self).recent(), k) && has_key(old(self).ghost_frequent(), k) ==> {
                let p = key_pos(old(self).ghost_frequent(), k);
                let r = old(self).recent();
                &&& *res == old(self).ghost_frequent()[p].1
                &&& final(self).ghost_frequent() == old(self).ghost_frequent().remove(p)
                &&& final(self).ghost_recent() == old(self).ghost_recent()
                &&& final(self).recent() == if r.len() == old(self).recent_capacity() && old(self).recent_capacity() > 1 {
                    r.drop_last()
                } else {
                    r
                }
            },
            !has_key(old(self).recent(), k) && !has_key(old(self).ghost_frequent(), k) && has_key(
                old(self).ghost_recent(),
                k,
            ) ==> {
                let p = key_pos(old(self).ghost_recent(), k);
                &&& *res == old(self).ghost_recent()[p].1
                &&& final(self).recent() == seq![(k, *final(res))] + old(self).recent()
                &&& final(self).ghost_recent() == old(self).ghost_recent().remove(p)
                &&& final(self).ghost_frequent() == old(self).ghost_frequent()
                &&& old(self).frequent().len() < old(self).frequent_capacity() ==> final(self).frequent() == old(self).frequent()
                &&& final(self).frequent() == old(self).frequent() || exists|i: int| #[trigger] is_unusual_last(old(self).frequent(), i)
                    && final(self).frequent() == old(self).frequent().remove(i)
            },
            !has_key(old(self).recent(), k) && !has_key(old(self).ghost_frequent(), k) && !has_key(
                old(self).ghost_recent(),
                k,
            ) && has_key(old(self).frequent(), k) ==> {
                &&& final(self).recent() == old(self).recent()
                &&& final(self).ghost_recent() == old(self).ghost_recent()
                &&& final(self).ghost_frequent() == old(self).ghost_frequent()
                &&& *res == old(self).frequent()[key_pos(old(self).frequent(), k)].1.0
            },
            !has_key(old(self).recent(), k) && !has_key(old(self).ghost_frequent(), k) && !has_key(
                old(self).ghost_recent(),
                k,
            ) && !has_key(old(self).frequent(), k) ==> {
                let r = old(self).recent();
                let full = r.len() >= old(self).recent_capacity();
                &&& f.ensures((), *res)
                &&& final(self).recent() == seq![(k, *final(res))] + if full { r.drop_last() } else { r }
                &&& final(self).frequent() == old(self).frequent()
                &&& final(self).ghost_frequent() == old(self).ghost_frequent()
                &&& !full ==> final(self).ghost_recent() == old(self).ghost_recent()
                &&& full ==> final(self).ghost_recent()[0] == r.last()
            },
    {
        proof {
            self.main_lru.law_within_capacity();
        }
        let present = self.main_lru.contains_key(&k) || self.ghost_lfu.contains_key(&k)
            || self.ghost_lru.contains_key(&k) || self.main_lfu.contains_key(&k);
        if present {
            match self.get_mut(&k) {
                Some(v) => v,
                None => vstd::pervasive::unreached(),
            }
        } else {
            let v = f();
            let _ = self.insert(k, v);
            let ghost mid = self.main_lru@;
            proof {
                self.main_lru.law_within_capacity();
                self.main_lru.lemma_models();
                assert(mid[0].0 == k);
                lemma_pos_of_entry(mid, 0);
                if old(self).recent().len() >= old(self).recent_capacity() {
                    assert(self.ghost_recent()[0] == old(self).recent().last());
                }
            }
            match self.main_lru.get_mut(&k) {
                Some(r) => {
                    proof {
                        assert(mid.remove(0) =~= mid.subrange(1, mid.len() as int));
                    }
                    r
                },
                None => vstd::pervasive::unreached(),
            }
        }
    }

    /// The value of key `k`, found and moved as `get_or_insert_mut` does, or
    /// `f()` put under `k` where no list has it.
    pub fn get_or_insert<F>(&mut self, k: K, f: F) -> (res: &V)
        where
            F: FnOnce() -> V,
        requires
            old(self).wf(),
            old(self).has_room(),
            has_key(old(self).recent(), k) ==> old(self).frequent_capacity() > 0,
            !has_key(old(self).recent(), k) && !has_key(old(self).ghost_frequent(), k) && !has_key(
                old(self).ghost_recent(),
                k,
            ) && !has_key(old(self).frequent(), k) ==> f.requires(()),
        ensures
            final(self).wf(),
            has_key(old(self).recent(), k) ==> *res == old(self).recent()[key_pos(old(self).recent(), k)].1,
            !has_key(old(self).recent(), k) && has_key(old(self).ghost_frequent(), k) ==> *res == old(
                self,
            ).ghost_frequent()[key_pos(old(self).ghost_frequent(), k)].1,
            !has_key(old(self).recent(), k) && !has_key(old(self).ghost_frequent(), k) && has_key(
                old(self).ghost_recent(),
                k,
            ) ==> *res == old(self).ghost_recent()[key_pos(old(self).ghost_recent(), k)].1,
            !has_key(old(self).recent(), k) && !has_key(old(self).ghost_frequent(), k) && !has_key(
                old(self).ghost_recent(),
                k,
            ) && has_key(old(self).frequent(), k) ==> *res == old(self).frequent()[key_pos(old(self).frequent(), k)].1.0,
            !has_key(old(self).recent(), k) && !has_key(old(self).ghost_frequent(), k) && !has_key(
                old(self).ghost_recent(),
                k,
            ) && !has_key(old(self).frequent(), k) ==> {
                let r = old(self).recent();
                let full = r.len() >= old(self).recent_capacity();
                &&& f.ensures((), *res)
                &&& final(self).recent() == seq![(k, *res)] + if full { r.drop_last() } else { r }
                &&& final(self).frequent() == old(self).frequent()
            },
    {
        &*self.get_or_insert_mut(k, f)
    }

    /// Puts `(k, v)` in front of the recency list.  Where `k` was there, its
    /// old value is given back.  Else, where the recency list was full, its
    /// least recently used entry moves to the front of its ghost list, and
    /// what that list gives up (the old value of the same key, or its least
    /// recently used entry when full) is given back.
    pub fn insert(&mut self, k: K, v: V) -> (res: Option<V>)
        requires
            old(self).wf(),
            old(self).has_room(),
        ensures
            final(self).wf(),
            final(self).frequent() == old(self).frequent(),
            final(self).ghost_frequent() == old(self).ghost_frequent(),
            final(self).spec_capacity() == old(self).spec_capacity(),
            final(self).recent_capacity() == old(self).recent_capacity(),
            final(self).frequent_capacity() == old(self).frequent_capacity(),
            final(self).ghost_recent_capacity() == old(self).ghost_recent_capacity(),
            has_key(old(self).recent(), k) ==> {
                let p = key_pos(old(self).recent(), k);
                &&& res == Some(old(self).recent()[p].1)
                &&& final(self).recent() == seq![(k, v)] + old(self).recent().remove(p)
                &&& final(self).ghost_recent() == old(self).ghost_recent()
            },
            !has_key(old(self).recent(), k) && old(self).recent().len() < old(self).recent_capacity() ==> {
                &&& res is None
                &&& final(self).recent() == seq![(k, v)] + old(self).recent()
                &&& final(self).ghost_recent() == old(self).ghost_recent()
            },
            !has_key(old(self).recent(), k) && old(self).recent().len() >= old(self).recent_capacity() ==> {
                let out = old(self).recent().last();
                let g = old(self).ghost_recent();
                &&& final(self).recent() == seq![(k, v)] + old(self).recent().drop_last()
                &&& has_key(g, out.0) ==> {
                    &&& res == Some(g[key_pos(g, out.0)].1)
                    &&& final(self).ghost_recent() == seq![out] + g.remove(key_pos(g, out.0))
                }
                &&& !has_key(g, out.0) && g.len() < old(self).ghost_recent_capacity() ==> {
                    &&& res is None
                    &&& final(self).ghost_recent() == seq![out] + g
                }
                &&& !has_key(g, out.0) && g.len() >= old(self).ghost_recent_capacity() ==> {
                    &&& res == Some(g.last().1)
                    &&& final(self).ghost_recent() == seq![out] + g.drop_last()
                }
            },
    {
        proof {
            self.main_lru.law_within_capacity();
            self.ghost_lru.law_within_capacity();
            self.main_lru.lemma_models();
            self.ghost_lru.lemma_models();
        }
        if self.main_lru.contains_key(&k) || !self.main_lru.is_full() {
            return self.main_lru.insert(k, v);
        }
        let out = self.main_lru.pop_last();
        proof {
            self.main_lru.law_within_capacity();
            if has_key(self.main_lru@, k) {
                let m = choose|m: int| 0 <= m < self.main_lru@.len() && (#[trigger] self.main_lru@[m]).0 == k;
                assert(old(self).main_lru@[m] == self.main_lru@[m]);
            }
        }
        let _ = self.main_lru.insert(k, v);
        match out {
            Some((ok, ov)) => {
                if self.ghost_lru.contains_key(&ok) {
                    return self.ghost_lru.insert(ok, ov);
                }
                if self.ghost_lru.is_full() {
                    let dropped = self.ghost_lru.pop_last();
                    proof {
                        self.ghost_lru.law_within_capacity();
                    }
                    let _ = self.ghost_lru.insert(ok, ov);
                    match dropped {
                        Some((_, dv)) => Some(dv),
                        None => None,
                    }
                } else {
                    self.ghost_lru.insert(ok, ov)
                }
            },
            None => None,
        }
    }
}

} // verus!
