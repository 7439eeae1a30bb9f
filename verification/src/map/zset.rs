use vstd::prelude::*;

use crate::skip_list::{insert_place, lemma_place, place_for, SkipList, SkipOrd};
use std::collections::HashMap;
use std::hash::Hash;
use vstd::std_specs::hash::obeys_key_model;

verus! {

broadcast use vstd::std_specs::hash::group_hash_axioms;

/// The clock now, in whole milliseconds since the Unix epoch
/// (`SystemTime::now`, `duration_since`, `as_millis`, cut to `usize`), or
/// `None` where the clock reads before the epoch (`duration_since` fails).
/// It reads the clock, so nothing is stated of the result.
#[verifier::external_body]
fn now_millis() -> Option<usize> {
    match std::time::SystemTime::now().duration_since(std::time::UNIX_EPOCH) {
        Ok(d) => Some(d.as_millis() as usize),
        Err(_) => None,
    }
}

/// One more than the largest 64-bit number.
pub open spec fn base() -> int {
    0x1_0000_0000_0000_0000
}

/// The number standing for the triple `(a, b, c)`, with `b` and `c` below
/// [`base`], so that triples compare as their numbers do.
pub open spec fn lex3(a: int, b: int, c: int) -> int {
    (a * base() + b) * base() + c
}

/// Triples of [`lex3`] compare field by field.
pub proof fn lemma_lex3(a1: int, b1: int, c1: int, a2: int, b2: int, c2: int)
    requires
        0 <= b1 < base(),
        0 <= c1 < base(),
        0 <= b2 < base(),
        0 <= c2 < base(),
    ensures
        lex3(a1, b1, c1) < lex3(a2, b2, c2) <==> (a1 < a2 || (a1 == a2 && (b1 < b2 || (b1 == b2 && c1 < c2)))),
        lex3(a1, b1, c1) == lex3(a2, b2, c2) <==> (a1 == a2 && b1 == b2 && c1 == c2),
{
    let bb = base();
    assert(lex3(a1, b1, c1) == (a1 * bb + b1) * bb + c1);
    assert(lex3(a2, b2, c2) == (a2 * bb + b2) * bb + c2);
    assert((a1 * bb + b1) * bb + c1 == a1 * bb * bb + b1 * bb + c1) by (nonlinear_arith);
    assert((a2 * bb + b2) * bb + c2 == a2 * bb * bb + b2 * bb + c2) by (nonlinear_arith);
    if a1 < a2 {
        assert(a1 * bb * bb + b1 * bb + c1 < a2 * bb * bb + b2 * bb + c2) by (nonlinear_arith)
            requires
                a1 < a2,
                0 <= b1 < bb,
                0 <= c1 < bb,
                0 <= b2 < bb,
                0 <= c2 < bb,
                bb > 0,
        ;
    } else if a1 > a2 {
        assert(a2 * bb * bb + b2 * bb + c2 < a1 * bb * bb + b1 * bb + c1) by (nonlinear_arith)
            requires
                a2 < a1,
                0 <= b1 < bb,
                0 <= c1 < bb,
                0 <= b2 < bb,
                0 <= c2 < bb,
                bb > 0,
        ;
    } else {
        if b1 < b2 {
            assert(b1 * bb + c1 < b2 * bb + c2) by (nonlinear_arith)
                requires
                    b1 < b2,
                    0 <= c1 < bb,
                    0 <= c2 < bb,
            ;
        } else if b1 > b2 {
            assert(b2 * bb + c2 < b1 * bb + c1) by (nonlinear_arith)
                requires
                    b2 < b1,
                    0 <= c1 < bb,
                    0 <= c2 < bb,
            ;
        }
    }
}

/// A member of a [`ZSet`] with its score, the time it was set, and the
/// number of its setting, which tells apart members set at one moment.
pub struct Context<K> {
    pub key: Option<K>,
    pub score: isize,
    pub timestamp: usize,
    pub seq: u64,
}

impl<K> Default for Context<K> {
    fn default() -> (r: Self)
        ensures
            r.key is None,
            r.score == 0,
            r.timestamp == 0,
            r.seq == 0,
    {
        Context { key: None, score: 0, timestamp: 0, seq: 0 }
    }
}

impl<K> SkipOrd for Context<K> {
    /// By score, then by time, then the later setting first.
    open spec fn key(&self) -> int {
        lex3(self.score as int, self.timestamp as int, u64::MAX - self.seq)
    }

    fn lt(&self, other: &Self) -> (r: bool) {
        proof {
            lemma_lex3(self.score as int, self.timestamp as int, u64::MAX - self.seq,
                other.score as int, other.timestamp as int, u64::MAX - other.seq);
        }
        if self.score != other.score {
            self.score < other.score
        } else if self.timestamp != other.timestamp {
            self.timestamp < other.timestamp
        } else {
            self.seq > other.seq
        }
    }

    fn le(&self, other: &Self) -> (r: bool) {
        proof {
            lemma_lex3(self.score as int, self.timestamp as int, u64::MAX - self.seq,
                other.score as int, other.timestamp as int, u64::MAX - other.seq);
        }
        if self.score != other.score {
            self.score < other.score
        } else if self.timestamp != other.timestamp {
            self.timestamp < other.timestamp
        } else {
            self.seq >= other.seq
        }
    }
}

/// Whether some member of `s` is `k`.
pub open spec fn has_member<K>(s: Seq<Context<K>>, k: K) -> bool {
    exists|j: int| 0 <= j < s.len() && (#[trigger] s[j]).key == Some(k)
}

/// The place of the member `k` in `s`.
pub open spec fn member_pos<K>(s: Seq<Context<K>>, k: K) -> int {
    choose|j: int| 0 <= j < s.len() && (#[trigger] s[j]).key == Some(k)
}

/// The members `e` after setting the member of `c`: its old entry, if
/// any, goes, and `c` goes in at its place.
pub open spec fn setting<K>(e: Seq<Context<K>>, c: Context<K>) -> Seq<Context<K>> {
    if has_member(e, c.key->0) {
        let rest = e.remove(member_pos(e, c.key->0));
        rest.insert(insert_place(rest, c.key()), c)
    } else {
        e.insert(insert_place(e, c.key()), c)
    }
}

/// The score kept for `score`: negated when scores rank in reverse.
pub open spec fn stored_score(reverse: bool, score: isize) -> isize {
    if reverse { (-score) as isize } else { score }
}

/// The members `e` after setting member `key` to the score `score`, stamped
/// `t`, as setting number `seq`.
pub open spec fn setting_at<K>(e: Seq<Context<K>>, key: K, score: isize, t: usize, seq: u64) -> Seq<Context<K>> {
    setting(e, Context { key: Some(key), score, timestamp: t, seq })
}

/// A set of members ranked by score: members with a lower score come first,
/// and of two with one score, the one set earlier.
#[verifier::reject_recursive_types(K)]
pub struct ZSet<K: Hash + Eq> {
    max_count: usize,
    reverse: bool,
    zsl: SkipList<Context<K>>,
    dict: HashMap<K, usize>,
    next_seq: u64,
}

impl<K: Hash + Eq> ZSet<K> {
    /// The members in rank order.
    pub closed spec fn entries(&self) -> Seq<Context<K>> {
        self.zsl@
    }

    /// The most members kept.
    pub closed spec fn spec_max_count(&self) -> usize {
        self.max_count
    }

    /// Whether scores are kept negated, so that higher scores rank first.
    pub closed spec fn spec_reverse(&self) -> bool {
        self.reverse
    }

    /// The number the next setting gets.
    pub closed spec fn spec_next_seq(&self) -> u64 {
        self.next_seq
    }

    pub closed spec fn wf(&self) -> bool {
        let e = self.zsl@;
        &&& obeys_key_model::<K>()
        &&& self.zsl.wf()
        &&& forall|j: int| 0 <= j < e.len() ==> (#[trigger] e[j]).key is Some && e[j].seq < self.next_seq
        &&& forall|a: int, b: int| 0 <= a < e.len() && 0 <= b < e.len() && a != b ==> (#[trigger] e[a]).seq != (#[trigger] e[b]).seq
        &&& forall|a: int, b: int| 0 <= a < e.len() && 0 <= b < e.len() && a != b ==> (#[trigger] e[a]).key != (#[trigger] e[b]).key
        &&& forall|k: K| #[trigger] self.dict@.contains_key(k) <==> has_member(e, k)
        &&& forall|j: int| 0 <= j < e.len() ==> #[trigger] self.dict@[e[j].key->0] == self.zsl.slots()[j]
    }

    /// The members of a well-formed set are distinct, each with a key of
    /// its own in the order.
    proof fn lemma_members(&self)
        requires
            self.wf(),
        ensures
            forall|k: K| #[trigger] has_member(self.entries(), k) ==> {
                let j = member_pos(self.entries(), k);
                &&& 0 <= j < self.entries().len()
                &&& self.entries()[j].key == Some(k)
                &&& forall|i: int| 0 <= i < self.entries().len() && (#[trigger] self.entries()[i]).key == Some(k) ==> i == j
            },
            forall|a: int, b: int| 0 <= a < b < self.entries().len() ==> (#[trigger] self.entries()[a]).key() < (#[trigger] self.entries()[b]).key(),
    {
        let e = self.zsl@;
        self.zsl.law_sorted();
        assert forall|a: int, b: int| 0 <= a < b < e.len() implies (#[trigger] e[a]).key() < (#[trigger] e[b]).key() by {
            assert(e[a].key() <= e[b].key());
            lemma_lex3(e[a].score as int, e[a].timestamp as int, u64::MAX - e[a].seq,
                e[b].score as int, e[b].timestamp as int, u64::MAX - e[b].seq);
        }
    }

    /// The place of the member `k`, found through its slot.
    fn find_member(&self, k: &K) -> (r: Option<usize>)
        requires
            self.wf(),
        ensures
            r is Some <==> has_member(self.entries(), *k),
            r matches Some(slot) ==> slot == self.zsl.slots()[member_pos(self.entries(), *k)],
    {
        proof {
            self.lemma_members();
        }
        match self.dict.get(k) {
            Some(slot) => {
                proof {
                    let j = member_pos(self.entries(), *k);
                    assert(self.zsl@[j].key == Some(*k));
                    assert(self.dict@[self.zsl@[j].key->0] == self.zsl.slots()[j]);
                }
                Some(*slot)
            },
            None => None,
        }
    }

    /// A key that compares as the member in `slot` does.
    fn probe_at(&self, slot: usize) -> (r: Context<K>)
        requires
            self.wf(),
            self.zsl.slots().contains(slot),
        ensures
            exists|j: int| 0 <= j < self.entries().len() && self.zsl.slots()[j] == slot
                && (#[trigger] self.entries()[j]).key() == r.key(),
            r.key is None,
    {
        let c = self.zsl.get_by_slot(slot);
        let r = Context { key: None, score: c.score, timestamp: c.timestamp, seq: c.seq };
        proof {
            let e = self.entries();
            let j = choose|j: int| 0 <= j < e.len() && self.zsl.slots()[j] == slot && *c == #[trigger] e[j];
            assert(e[j].key() == r.key());
        }
        r
    }

    /// An empty set, with room for any number of members.
    pub fn new() -> (r: Self)
        requires
            obeys_key_model::<K>(),
        ensures
            r.wf(),
            r.entries() == Seq::<Context<K>>::empty(),
            r.spec_max_count() == usize::MAX,
            !r.spec_reverse(),
    {
        Self::new_with(usize::MAX, false)
    }

    /// An empty set keeping at most `max_count` members, with higher scores
    /// first when `reverse` holds.
    pub fn new_with(max_count: usize, reverse: bool) -> (r: Self)
        requires
            obeys_key_model::<K>(),
        ensures
            r.wf(),
            r.entries() == Seq::<Context<K>>::empty(),
            r.spec_max_count() == max_count,
            r.spec_reverse() == reverse,
    {
        let r = ZSet { max_count, reverse, zsl: SkipList::new(), dict: HashMap::new(), next_seq: 0 };
        proof {
            assert forall|k: K| #[trigger] r.dict@.contains_key(k) <==> has_member(r.zsl@, k) by {
            }
        }
        r
    }

    /// The number of members.
    pub fn len(&self) -> (r: usize)
        requires
            self.wf(),
        ensures
            r == self.entries().len(),
    {
        self.zsl.len()
    }

    /// Drops all members.
    pub fn clear(&mut self)
        requires
            old(self).wf(),
        ensures
            final(self).wf(),
            final(self).entries() == Seq::<Context<K>>::empty(),
            final(self).spec_max_count() == old(self).spec_max_count(),
            final(self).spec_reverse() == old(self).spec_reverse(),
    {
        self.dict.clear();
        self.zsl.clear();
        proof {
            assert forall|k: K| #[trigger] self.dict@.contains_key(k) <==> has_member(self.zsl@, k) by {
            }
        }
    }

    /// Whether `k` is a member.
    pub fn contains_key(&mut self, k: &K) -> (r: bool)
        requires
            old(self).wf(),
        ensures
            *final(self) == *old(self),
            r == has_member(old(self).entries(), *k),
    {
        self.dict.contains_key(k)
    }

    /// The rank of member `k`, from 1, or 0 if it is not a member.
    pub fn rank(&mut self, k: &K) -> (r: usize)
        requires
            old(self).wf(),
        ensures
            *final(self) == *old(self),
            has_member(old(self).entries(), *k) ==> r == member_pos(old(self).entries(), *k) + 1,
            !has_member(old(self).entries(), *k) ==> r == 0,
    {
        proof {
            self.lemma_members();
            self.zsl.lemma_slots();
        }
        match self.find_member(k) {
            Some(slot) => {
                proof {
                    let j = member_pos(self.entries(), *k);
                    assert(self.zsl.slots().contains(slot));
                }
                let probe = self.probe_at(slot);
                let r = self.zsl.get_rank(&probe);
                proof {
                    let j = member_pos(self.entries(), *k);
                    let e = self.entries();
                    let i = choose|i: int| 0 <= i < e.len() && self.zsl.slots()[i] == slot && (#[trigger] e[i]).key() == probe.key();
                    assert(i == j);
                    assert(e[r - 1].key() == probe.key());
                    if r - 1 < j {
                        assert(e[r - 1].key() < e[j].key());
                    } else if r - 1 > j {
                        assert(e[j].key() < e[r - 1].key());
                    }
                }
                r
            },
            None => 0,
        }
    }

    /// The score of member `k`, or 0 if it is not a member.
    pub fn score(&mut self, k: &K) -> (r: isize)
        requires
            old(self).wf(),
        ensures
            *final(self) == *old(self),
            has_member(old(self).entries(), *k) ==> r == old(self).entries()[member_pos(old(self).entries(), *k)].score,
            !has_member(old(self).entries(), *k) ==> r == 0,
    {
        proof {
            self.lemma_members();
            self.zsl.lemma_slots();
        }
        match self.find_member(k) {
            Some(slot) => {
                proof {
                    assert(self.zsl.slots().contains(slot));
                }
                let c = self.zsl.get_by_slot(slot);
                proof {
                    let j = member_pos(self.entries(), *k);
                    let e = self.entries();
                    let i = choose|i: int| 0 <= i < e.len() && self.zsl.slots()[i] == slot && *c == #[trigger] e[i];
                    assert(i == j);
                }
                c.score
            },
            None => 0,
        }
    }

    /// The members in rank order, each with its rank from 0 and its score.
    pub fn iter(&self) -> (res: Vec<(&K, usize, isize)>)
        requires
            self.wf(),
        ensures
            res@.len() == self.entries().len(),
            forall|j: int| 0 <= j < res@.len() ==> Some(*(#[trigger] res@[j]).0) == self.entries()[j].key
                && res@[j].1 == j && res@[j].2 == self.entries()[j].score,
    {
        let items = self.zsl.iter();
        let mut res: Vec<(&K, usize, isize)> = Vec::new();
        let mut i: usize = 0;
        while i < items.len()
            invariant
                self.wf(),
                items@.len() == self.entries().len(),
                forall|j: int| 0 <= j < items@.len() ==> *(#[trigger] items@[j]).0 == self.entries()[j] && items@[j].1 == j,
                i <= items@.len(),
                res@.len() == i,
                forall|j: int| 0 <= j < i ==> Some(*(#[trigger] res@[j]).0) == self.entries()[j].key
                    && res@[j].1 == j && res@[j].2 == self.entries()[j].score,
            decreases items@.len() - i,
        {
            let (c, r) = items[i];
            proof {
                assert(*c == self.entries()[i as int]);
                assert(self.entries()[i as int].key is Some);
            }
            let k = c.key.as_ref().unwrap();
            res.push((k, r, c.score));
            i = i + 1;
        }
        res
    }
}


impl<K: Hash + Eq + Copy> ZSet<K> {
    /// Takes out member `k`, and says whether it was a member.
    pub fn remove(&mut self, k: &K) -> (r: bool)
        requires
            old(self).wf(),
        ensures
            final(self).wf(),
            final(self).spec_max_count() == old(self).spec_max_count(),
            final(self).spec_reverse() == old(self).spec_reverse(),
            final(self).spec_next_seq() == old(self).spec_next_seq(),
            r == has_member(old(self).entries(), *k),
            r ==> final(self).entries() == old(self).entries().remove(member_pos(old(self).entries(), *k)),
            !r ==> final(self).entries() == old(self).entries(),
    {
        proof {
            self.lemma_members();
            self.zsl.lemma_slots();
        }
        let slot = match self.find_member(k) {
            None => return false,
            Some(s) => s,
        };
        let ghost e = self.entries();
        let ghost sl = self.zsl.slots();
        let ghost j = member_pos(e, *k);
        proof {
            assert(sl.contains(slot));
        }
        let probe = self.probe_at(slot);
        proof {
            let i = choose|i: int| 0 <= i < e.len() && sl[i] == slot && (#[trigger] e[i]).key() == probe.key();
            assert(i == j);
            assert forall|m: int| 0 <= m < j implies (#[trigger] e[m]).key() < probe.key() by {
            }
            assert forall|m: int| j <= m < e.len() implies (#[trigger] e[m]).key() >= probe.key() by {
            }
            lemma_place(e, probe.key(), j);
        }
        let _ = self.dict.remove(k);
        let r = self.zsl.remove(&probe);
        proof {
            let e2 = self.zsl@;
            let sl2 = self.zsl.slots();
            e.remove_ensures(j);
            sl.remove_ensures(j);
            assert forall|i: int| 0 <= i < e2.len() implies (#[trigger] e2[i]).key is Some && e2[i].seq < self.next_seq by {
                let ia = if i < j { i } else { i + 1 };
                assert(e2[i] == e[ia]);
            }
            assert forall|a: int, b: int| 0 <= a < e2.len() && 0 <= b < e2.len() && a != b implies (#[trigger] e2[a]).seq != (#[trigger] e2[b]).seq by {
                let aa = if a < j { a } else { a + 1 };
                let ba = if b < j { b } else { b + 1 };
                assert(e2[a] == e[aa]);
                assert(e2[b] == e[ba]);
            }
            assert forall|a: int, b: int| 0 <= a < e2.len() && 0 <= b < e2.len() && a != b implies (#[trigger] e2[a]).key != (#[trigger] e2[b]).key by {
                let aa = if a < j { a } else { a + 1 };
                let ba = if b < j { b } else { b + 1 };
                assert(e2[a] == e[aa]);
                assert(e2[b] == e[ba]);
            }
            assert forall|k2: K| #[trigger] self.dict@.contains_key(k2) <==> has_member(e2, k2) by {
                if has_member(e2, k2) {
                    let i = choose|i: int| 0 <= i < e2.len() && (#[trigger] e2[i]).key == Some(k2);
                    let ia = if i < j { i } else { i + 1 };
                    assert(e2[i] == e[ia]);
                    assert(ia != j);
                    assert(k2 != *k);
                    assert(has_member(e, k2));
                }
                if self.dict@.contains_key(k2) {
                    assert(k2 != *k);
                    assert(has_member(e, k2));
                    let i = choose|i: int| 0 <= i < e.len() && (#[trigger] e[i]).key == Some(k2);
                    assert(i != j);
                    let i2 = if i < j { i } else { i - 1 };
                    assert(e2[i2] == e[i]);
                }
            }
            assert forall|i: int| 0 <= i < e2.len() implies #[trigger] self.dict@[e2[i].key->0] == sl2[i] by {
                let ia = if i < j { i } else { i + 1 };
                assert(e2[i] == e[ia]);
                assert(sl2[i] == sl[ia]);
                assert(e[ia].key != e[j].key);
                assert(old(self).dict@[e[ia].key->0] == sl[ia]);
            }
        }
        true
    }

    /// Sets member `key` to `score` (negated when scores rank in reverse),
    /// stamped `timestamp`, unless the set is full or may hold no member.
    pub fn add_or_update_at(&mut self, key: K, score: isize, timestamp: usize)
        requires
            old(self).wf(),
            old(self).entries().len() + 3 < usize::MAX,
            old(self).spec_next_seq() < u64::MAX,
            !(old(self).spec_reverse() && score == isize::MIN),
        ensures
            final(self).wf(),
            final(self).spec_max_count() == old(self).spec_max_count(),
            final(self).spec_reverse() == old(self).spec_reverse(),
            (old(self).spec_max_count() == 0 || old(self).spec_max_count() == old(self).entries().len())
                ==> *final(self) == *old(self),
            !(old(self).spec_max_count() == 0 || old(self).spec_max_count() == old(self).entries().len()) ==> {
                &&& final(self).spec_next_seq() == old(self).spec_next_seq() + 1
                &&& final(self).entries() == setting_at(old(self).entries(), key,
                    stored_score(old(self).spec_reverse(), score), timestamp, old(self).spec_next_seq())
            },
    {
        if self.max_count == 0 || self.max_count == self.zsl.len() {
            return;
        }
        proof {
            self.lemma_members();
            self.zsl.lemma_slots();
        }
        let s = if self.reverse { -score } else { score };
        let seq = self.next_seq;
        let found = self.find_member(&key);
        let ghost e = self.entries();
        let ghost sl = self.zsl.slots();
        let ctx = Context { key: Some(key), score: s, timestamp, seq };
        proof {
            assert forall|i: int| 0 <= i < e.len() implies (#[trigger] e[i]).seq != seq by {
            }
        }
        match found {
            Some(slot) => {
                let ghost j = member_pos(e, key);
                proof {
                    assert(sl.contains(slot));
                }
                let probe = self.probe_at(slot);
                proof {
                    let i = choose|i: int| 0 <= i < e.len() && sl[i] == slot && (#[trigger] e[i]).key() == probe.key();
                    assert(i == j);
                    assert forall|m: int| 0 <= m < j implies (#[trigger] e[m]).key() < probe.key() by {
                    }
                    assert forall|m: int| j <= m < e.len() implies (#[trigger] e[m]).key() >= probe.key() by {
                    }
                    lemma_place(e, probe.key(), j);
                    assert(e[j].key() == probe.key());
                }
                let new_slot = self.zsl.update(&probe, ctx);
                self.dict.insert(key, new_slot);
                self.next_seq = seq + 1;
                proof {
                    let rest = e.remove(j);
                    let q = insert_place(rest, ctx.key());
                    e.remove_ensures(j);
                    sl.remove_ensures(j);
                    Self::lemma_set_done(e, sl, rest, sl.remove(j), q, ctx, key, new_slot, old(self).dict@, self.dict@, seq, self.zsl@, self.zsl.slots());
                }
            },
            None => {
                let new_slot = self.zsl.insert(ctx);
                self.dict.insert(key, new_slot);
                self.next_seq = seq + 1;
                proof {
                    let q = insert_place(e, ctx.key());
                    assert(e.remove(0) =~= e.remove(0));
                    Self::lemma_set_done(e, sl, e, sl, q, ctx, key, new_slot, old(self).dict@, self.dict@, seq, self.zsl@, self.zsl.slots());
                }
            },
        }
    }

    /// The facts that make the set well formed again after the member `key`
    /// was set to `ctx` in slot `slot`: `rest` and `rsl` are the members and
    /// slots without `key`, and `ctx` went in at place `q`.
    proof fn lemma_set_done(
        e: Seq<Context<K>>,
        sl: Seq<usize>,
        rest: Seq<Context<K>>,
        rsl: Seq<usize>,
        q: int,
        ctx: Context<K>,
        key: K,
        slot: usize,
        d0: Map<K, usize>,
        d1: Map<K, usize>,
        seq: u64,
        e2: Seq<Context<K>>,
        sl2: Seq<usize>,
    )
        requires
            ctx.key == Some(key),
            ctx.seq == seq,
            forall|i: int| 0 <= i < e.len() ==> (#[trigger] e[i]).key is Some && e[i].seq < seq,
            forall|a: int, b: int| 0 <= a < e.len() && 0 <= b < e.len() && a != b ==> (#[trigger] e[a]).seq != (#[trigger] e[b]).seq,
            forall|a: int, b: int| 0 <= a < e.len() && 0 <= b < e.len() && a != b ==> (#[trigger] e[a]).key != (#[trigger] e[b]).key,
            forall|k: K| #[trigger] d0.contains_key(k) <==> has_member(e, k),
            forall|i: int| 0 <= i < e.len() ==> #[trigger] d0[e[i].key->0] == sl[i],
            has_member(e, key) ==> rest == e.remove(member_pos(e, key)) && rsl == sl.remove(member_pos(e, key)),
            !has_member(e, key) ==> rest == e && rsl == sl,
            has_member(e, key) ==> 0 <= member_pos(e, key) < e.len() && e[member_pos(e, key)].key == Some(key),
            sl.len() == e.len(),
            0 <= q <= rest.len(),
            e2 == rest.insert(q, ctx),
            sl2 == rsl.insert(q, slot),
            d1 == d0.insert(key, slot),
        ensures
            forall|i: int| 0 <= i < e2.len() ==> (#[trigger] e2[i]).key is Some && e2[i].seq < seq + 1,
            forall|a: int, b: int| 0 <= a < e2.len() && 0 <= b < e2.len() && a != b ==> (#[trigger] e2[a]).seq != (#[trigger] e2[b]).seq,
            forall|a: int, b: int| 0 <= a < e2.len() && 0 <= b < e2.len() && a != b ==> (#[trigger] e2[a]).key != (#[trigger] e2[b]).key,
            forall|k: K| #[trigger] d1.contains_key(k) <==> has_member(e2, k),
            forall|i: int| 0 <= i < e2.len() ==> #[trigger] d1[e2[i].key->0] == sl2[i],
    {
        let found = has_member(e, key);
        let j = member_pos(e, key);
        if found {
            e.remove_ensures(j);
            sl.remove_ensures(j);
        }
        rest.insert_ensures(q, ctx);
        rsl.insert_ensures(q, slot);
        assert(rsl.len() == rest.len());
        // every member of rest is a member of e other than key, at a known place
        assert forall|i: int| 0 <= i < rest.len() implies {
            let ia = if found && i >= j { i + 1 } else { i };
            &&& 0 <= ia < e.len()
            &&& #[trigger] rest[i] == e[ia]
            &&& rsl[i] == sl[ia]
            &&& e[ia].key != Some(key)
        } by {
            let ia = if found && i >= j { i + 1 } else { i };
            if !found {
                assert(e[ia].key != Some(key)) by {
                    if e[ia].key == Some(key) {
                        assert(has_member(e, key));
                    }
                }
            }
        }
        assert forall|i: int| 0 <= i < e2.len() implies (#[trigger] e2[i]).key is Some && e2[i].seq < seq + 1 by {
            if i < q {
                assert(e2[i] == rest[i]);
            } else if i > q {
                assert(e2[i] == rest[i - 1]);
            }
        }
        assert forall|a: int, b: int| 0 <= a < e2.len() && 0 <= b < e2.len() && a != b implies (#[trigger] e2[a]).seq != (#[trigger] e2[b]).seq
            && e2[a].key != e2[b].key by {
            let ar = if a < q { a } else { a - 1 };
            let br = if b < q { b } else { b - 1 };
            if a != q {
                assert(e2[a] == rest[ar]);
            }
            if b != q {
                assert(e2[b] == rest[br]);
            }
            if a != q && b != q {
                let aa = if found && ar >= j { ar + 1 } else { ar };
                let ba = if found && br >= j { br + 1 } else { br };
                assert(rest[ar] == e[aa]);
                assert(rest[br] == e[ba]);
            }
        }
        assert forall|k: K| #[trigger] d1.contains_key(k) <==> has_member(e2, k) by {
            if k == key {
                assert(e2[q] == ctx);
            } else {
                if has_member(e2, k) {
                    let i = choose|i: int| 0 <= i < e2.len() && (#[trigger] e2[i]).key == Some(k);
                    assert(i != q);
                    let ir = if i < q { i } else { i - 1 };
                    assert(e2[i] == rest[ir]);
                    let ia = if found && ir >= j { ir + 1 } else { ir };
                    assert(rest[ir] == e[ia]);
                    assert(has_member(e, k));
                }
                if d1.contains_key(k) {
                    assert(has_member(e, k));
                    let i = choose|i: int| 0 <= i < e.len() && (#[trigger] e[i]).key == Some(k);
                    let ir = if found && i > j { i - 1 } else { i };
                    if found {
                        assert(i != j);
                    }
                    assert(rest[ir] == e[i]);
                    let i2 = if ir < q { ir } else { ir + 1 };
                    assert(e2[i2] == rest[ir]);
                }
            }
        }
        assert forall|i: int| 0 <= i < e2.len() implies #[trigger] d1[e2[i].key->0] == sl2[i] by {
            if i == q {
                assert(e2[q] == ctx);
                assert(sl2[q] == slot);
            } else {
                let ir = if i < q { i } else { i - 1 };
                assert(e2[i] == rest[ir]);
                assert(sl2[i] == rsl[ir]);
                let ia = if found && ir >= j { ir + 1 } else { ir };
                assert(rest[ir] == e[ia]);
                assert(d0[e[ia].key->0] == sl[ia]);
            }
        }
    }

    /// Sets member `key` to `score` as `add_or_update_at` does, stamped with
    /// the clock's time now.
    pub fn add_or_update(&mut self, key: K, score: isize)
        requires
            old(self).wf(),
            old(self).entries().len() + 3 < usize::MAX,
            old(self).spec_next_seq() < u64::MAX,
            !(old(self).spec_reverse() && score == isize::MIN),
        ensures
            final(self).wf(),
            final(self).spec_max_count() == old(self).spec_max_count(),
            final(self).spec_reverse() == old(self).spec_reverse(),
            (old(self).spec_max_count() == 0 || old(self).spec_max_count() == old(self).entries().len())
                ==> *final(self) == *old(self),
            !(old(self).spec_max_count() == 0 || old(self).spec_max_count() == old(self).entries().len()) ==>
                exists|t: usize| final(self).entries() == #[trigger] setting_at(old(self).entries(), key,
                    stored_score(old(self).spec_reverse(), score), t, old(self).spec_next_seq()),
    {
        let now = match now_millis() {
            Some(t) => t,
            None => 0,
        };
        self.add_or_update_at(key, score, now);
    }
}

} // verus!
