use std::collections::hash_map::RandomState;
use std::collections::HashMap;
use std::hash::{BuildHasher, Hash};
use vstd::prelude::*;
use vstd::std_specs::cmp::PartialEqSpec;
use vstd::std_specs::hash::{builds_valid_hashers, obeys_key_model};

use crate::cache::lru::{distinct_keys, has_key, key_pos, lemma_pos_of_entry, lemma_remove_keeps, LruCache};

verus! {

/// The default time, in seconds, between two sweeps of expired entries.
pub const DEFAULT_CHECK_STEP: u64 = 120;

/// The time `ttl` seconds after time `now` (in milliseconds), or
/// `u64::MAX` where that does not fit.
pub open spec fn expiry_after(ttl: u64, now: u64) -> u64 {
    if ttl * 1000 + now > u64::MAX {
        u64::MAX
    } else {
        (ttl * 1000 + now) as u64
    }
}

/// The whole seconds left from time `now` (in milliseconds) to `expire`;
/// `u64::MAX` for no expiry.
pub open spec fn seconds_left(expire: u64, now: u64) -> u64 {
    if expire == u64::MAX {
        u64::MAX
    } else if expire > now {
        ((expire - now) / 1000) as u64
    } else {
        0
    }
}

/// The time `ttl` seconds after time `now` (in milliseconds), saturating.
pub fn expiry_time(ttl: u64, now: u64) -> (r: u64)
    ensures
        r == expiry_after(ttl, now),
{
    if ttl <= (u64::MAX - now) / 1000 {
        proof {
            assert(ttl * 1000 <= u64::MAX - now) by (nonlinear_arith)
                requires
                    ttl <= (u64::MAX - now) / 1000,
            ;
        }
        ttl * 1000 + now
    } else {
        proof {
            assert(ttl * 1000 > u64::MAX - now) by (nonlinear_arith)
                requires
                    ttl > (u64::MAX - now) / 1000,
            ;
        }
        u64::MAX
    }
}

/// The whole seconds left from time `now` to `expire`, as `seconds_left`.
pub fn seconds_until(expire: u64, now: u64) -> (r: u64)
    ensures
        r == seconds_left(expire, now),
{
    if expire == u64::MAX {
        u64::MAX
    } else if expire > now {
        (expire - now) / 1000
    } else {
        0
    }
}

/// The ranges of visit counts below 2000 and their frequency classes, as
/// `(first, last, class)`; where ranges overlap, the later one decides.
pub open spec fn freq_table() -> Seq<(usize, usize, u8)> {
    seq![
        (0usize, 0usize, 0u8),
        (1, 1, 1),
        (2, 3, 2),
        (4, 4, 3),
        (5, 5, 4),
        (6, 7, 5),
        (8, 9, 6),
        (10, 12, 7),
        (13, 16, 8),
        (16, 21, 9),
        (22, 40, 10),
        (41, 79, 11),
        (80, 159, 12),
        (160, 499, 13),
        (500, 999, 14),
        (999, 1999, 15),
    ]
}

/// The class that the last range of `t` holding `x` gives; 0 where none
/// holds it.
pub open spec fn table_class(t: Seq<(usize, usize, u8)>, x: usize) -> u8
    decreases t.len(),
{
    if t.len() == 0 {
        0
    } else if t.last().0 <= x <= t.last().1 {
        t.last().2
    } else {
        table_class(t.drop_last(), x)
    }
}

/// The frequency class of an entry visited `times` times: by the table of
/// ranges below 2000, then 16 below ten thousand, 17 below a hundred
/// thousand, 18 below a million, and 19 beyond.
pub open spec fn freq_of(times: usize) -> u8 {
    if times < 2000 {
        table_class(freq_table(), times)
    } else if times < 10000 {
        16
    } else if times < 100000 {
        17
    } else if times < 1000000 {
        18
    } else {
        19
    }
}

/// The table of ranges of visit counts (see `freq_table`).
fn freq_ranges() -> (r: Vec<(usize, usize, u8)>)
    ensures
        r@ == freq_table(),
{
    let r = vec![
        (0usize, 0usize, 0u8),
        (1, 1, 1),
        (2, 3, 2),
        (4, 4, 3),
        (5, 5, 4),
        (6, 7, 5),
        (8, 9, 6),
        (10, 12, 7),
        (13, 16, 8),
        (16, 21, 9),
        (22, 40, 10),
        (41, 79, 11),
        (80, 159, 12),
        (160, 499, 13),
        (500, 999, 14),
        (999, 1999, 15),
    ];
    proof {
        assert(r@ =~= freq_table());
    }
    r
}

/// The frequency class of `times` visits.
fn get_freq_by_times(times: usize) -> (r: u8)
    ensures
        r == freq_of(times),
{
    if times < 2000 {
        let t = freq_ranges();
        let mut i = t.len();
        proof {
            assert(t@.take(i as int) =~= t@);
        }
        while i > 0
            invariant
                t@ == freq_table(),
                i <= t@.len(),
                table_class(t@.take(i as int), times) == table_class(t@, times),
            decreases i,
        {
            i = i - 1;
            proof {
                assert(t@.take(i + 1).drop_last() =~= t@.take(i as int));
                assert(t@.take(i + 1).last() == t@[i as int]);
            }
            if t[i].0 <= times && times <= t[i].1 {
                return t[i].2;
            }
        }
        0
    } else if times < 10000 {
        16
    } else if times < 100000 {
        17
    } else if times < 1000000 {
        18
    } else {
        19
    }
}

/// The frequency class of entry `e`: key, then value and visit count.
pub open spec fn class_of<K, V>(e: (K, (V, usize))) -> u8 {
    freq_of(e.1.1)
}

/// Entry `i` of `s` is the least recently placed one of the lowest class:
/// the one a full cache evicts.
pub open spec fn is_unusual_last<K, V>(s: Seq<(K, (V, usize))>, i: int) -> bool {
    &&& 0 <= i < s.len()
    &&& forall|j: int| 0 <= j < s.len() ==> class_of(#[trigger] s[j]) >= class_of(s[i])
    &&& forall|j: int| i < j < s.len() ==> class_of(#[trigger] s[j]) != class_of(s[i])
}

/// Entry `i` of `s` is the most recently placed one of the lowest class.
pub open spec fn is_unusual_first<K, V>(s: Seq<(K, (V, usize))>, i: int) -> bool {
    &&& 0 <= i < s.len()
    &&& forall|j: int| 0 <= j < s.len() ==> class_of(#[trigger] s[j]) >= class_of(s[i])
    &&& forall|j: int| 0 <= j < i ==> class_of(#[trigger] s[j]) != class_of(s[i])
}

/// Entry `i` of `s` is the least recently placed one of the highest class.
pub open spec fn is_usual_last<K, V>(s: Seq<(K, (V, usize))>, i: int) -> bool {
    &&& 0 <= i < s.len()
    &&& forall|j: int| 0 <= j < s.len() ==> class_of(#[trigger] s[j]) <= class_of(s[i])
    &&& forall|j: int| i < j < s.len() ==> class_of(#[trigger] s[j]) != class_of(s[i])
}

/// Entry `i` of `s` is the most recently placed one of the highest class.
pub open spec fn is_usual_first<K, V>(s: Seq<(K, (V, usize))>, i: int) -> bool {
    &&& 0 <= i < s.len()
    &&& forall|j: int| 0 <= j < s.len() ==> class_of(#[trigger] s[j]) <= class_of(s[i])
    &&& forall|j: int| 0 <= j < i ==> class_of(#[trigger] s[j]) != class_of(s[i])
}

/// Entry `e` with its visit count halved.
pub open spec fn halved<K, V>(e: (K, (V, usize))) -> (K, (V, usize)) {
    (e.0, (e.1.0, e.1.1 / 2))
}

/// Whether halving the visit count of `e` moves it to another class.
pub open spec fn moves<K, V>(e: (K, (V, usize))) -> bool {
    freq_of(e.1.1 / 2) != freq_of(e.1.1)
}

/// The entries of `s` that halving moves to another class, halved, in
/// their order.
pub open spec fn moved_part<K, V>(s: Seq<(K, (V, usize))>) -> Seq<(K, (V, usize))>
    decreases s.len(),
{
    if s.len() == 0 {
        Seq::empty()
    } else if moves(s[0]) {
        seq![halved(s[0])] + moved_part(s.drop_first())
    } else {
        moved_part(s.drop_first())
    }
}

/// The entries of `s` that halving leaves in their class, halved, in their
/// order.
pub open spec fn kept_part<K, V>(s: Seq<(K, (V, usize))>) -> Seq<(K, (V, usize))>
    decreases s.len(),
{
    if s.len() == 0 {
        Seq::empty()
    } else if !moves(s[0]) {
        seq![halved(s[0])] + kept_part(s.drop_first())
    } else {
        kept_part(s.drop_first())
    }
}

/// The entries once the visits reach `limit`: all from `start` on have
/// their counts halved, and those that change class are placed anew (in
/// front), keeping their order; the visits start again from zero.
pub open spec fn settled<K, V>(s: Seq<(K, (V, usize))>, start: int, visits: nat, limit: nat) -> (Seq<(K, (V, usize))>, nat) {
    if visits >= limit {
        (moved_part(s.skip(start)) + s.take(start) + kept_part(s.skip(start)), 0)
    } else {
        (s, visits)
    }
}

/// Entry `e` with one more visit.
pub open spec fn bumped<K, V>(e: (K, (V, usize))) -> (K, (V, usize)) {
    (e.0, (e.1.0, (e.1.1 + 1) as usize))
}

/// What looking up or putting key `k` makes of entries `s` (counting
/// `visits` visits, with new entries counted `default_count` and the limit
/// `limit`, in a cache of capacity `cap`), ending with entries `t`, `t_visits`
/// visits, and `v` as the value of `k`: an entry that is there is placed
/// anew in front with one more visit (see `settled`); else `(k, v)` is put in
/// front as `capture_insert` puts a new key.
pub open spec fn fetched<K, V>(
    s: Seq<(K, (V, usize))>,
    visits: nat,
    default_count: nat,
    limit: nat,
    cap: nat,
    k: K,
    v: V,
    t: Seq<(K, (V, usize))>,
    t_visits: nat,
) -> bool {
    &&& has_key(t, k)
    &&& v == t[key_pos(t, k)].1.0
    &&& has_key(s, k) ==> {
        let p = key_pos(s, k);
        &&& v == s[p].1.0
        &&& (t, t_visits) == settled(seq![bumped(s[p])] + s.remove(p), 0, visits + 1, limit)
    }
    &&& !has_key(s, k) ==> {
        &&& s.len() < cap ==> (t, t_visits) == settled(
            seq![(k, (v, (default_count + 1) as usize))] + s,
            1,
            visits + 1,
            limit,
        )
        &&& s.len() >= cap ==> exists|i: int|
            #[trigger] is_unusual_last(s, i) && (t, t_visits) == settled(
                seq![(k, (v, (default_count + 1) as usize))] + s.remove(i),
                1,
                visits + 1,
                limit,
            )
    }
}

/// The entries and visits after a visit of entry `p` of `s`: its count goes
/// up by one; when that moves it to another class it is placed anew (in
/// front), which counts as a visit toward halving (see `settled`).
pub open spec fn visited<K, V>(s: Seq<(K, (V, usize))>, visits: nat, limit: nat, p: int) -> (Seq<(K, (V, usize))>, nat) {
    if freq_of(s[p].1.1) == freq_of((s[p].1.1 + 1) as usize) {
        (s.update(p, bumped(s[p])), visits + 1)
    } else {
        settled(seq![bumped(s[p])] + s.remove(p), 0, visits + 1, limit)
    }
}

/// Every key of the moved and of the kept part of `s` is a key of `s`.
pub proof fn lemma_parts_keys<K, V>(s: Seq<(K, (V, usize))>, k: K)
    ensures
        has_key(moved_part(s), k) ==> has_key(s, k),
        has_key(kept_part(s), k) ==> has_key(s, k),
    decreases s.len(),
{
    if s.len() > 0 {
        let t = s.drop_first();
        lemma_parts_keys(t, k);
        if has_key(t, k) {
            let m = choose|m: int| 0 <= m < t.len() && (#[trigger] t[m]).0 == k;
            assert(s[m + 1] == t[m]);
        }
        let h = seq![halved(s[0])];
        if has_key(moved_part(s), k) {
            let m = choose|m: int| 0 <= m < moved_part(s).len() && (#[trigger] moved_part(s)[m]).0 == k;
            if moves(s[0]) {
                if m > 0 {
                    assert((h + moved_part(t))[m] == moved_part(t)[m - 1]);
                } else {
                    assert(s[0].0 == k);
                }
            }
        }
        if has_key(kept_part(s), k) {
            let m = choose|m: int| 0 <= m < kept_part(s).len() && (#[trigger] kept_part(s)[m]).0 == k;
            if !moves(s[0]) {
                if m > 0 {
                    assert((h + kept_part(t))[m] == kept_part(t)[m - 1]);
                } else {
                    assert(s[0].0 == k);
                }
            }
        }
    }
}

/// Every key after settling comes from the entries settled.
pub proof fn lemma_settled_keys<K, V>(s: Seq<(K, (V, usize))>, start: int, visits: nat, limit: nat, k: K)
    requires
        0 <= start <= s.len(),
        has_key(settled(s, start, visits, limit).0, k),
    ensures
        has_key(s, k),
{
    if visits >= limit {
        let a = s.skip(start);
        let b = s.take(start);
        let r = moved_part(a) + b + kept_part(a);
        let m = choose|m: int| 0 <= m < r.len() && (#[trigger] r[m]).0 == k;
        lemma_parts_keys(a, k);
        if m < moved_part(a).len() {
            assert(r[m] == moved_part(a)[m]);
        } else if m < moved_part(a).len() + b.len() {
            assert(r[m] == b[m - moved_part(a).len()]);
            assert(s[m - moved_part(a).len()] == b[m - moved_part(a).len()]);
        } else {
            assert(r[m] == kept_part(a)[m - moved_part(a).len() - b.len()]);
        }
        if has_key(a, k) {
            let q = choose|q: int| 0 <= q < a.len() && (#[trigger] a[q]).0 == k;
            assert(s[start + q] == a[q]);
        }
    }
}

/// After putting key `k` as `capture_insert` does, every other key was
/// there before.
pub proof fn lemma_capture_keys<K, V>(
    s: Seq<(K, (V, usize))>,
    t: Seq<(K, (V, usize))>,
    visits: nat,
    dc: nat,
    limit: nat,
    cap: nat,
    k: K,
    v: V,
    tv: nat,
    x: K,
)
    requires
        has_key(s, k) ==> {
            let p = key_pos(s, k);
            (t, tv) == visited(s.update(p, (k, (v, s[p].1.1))), visits, limit, p)
        },
        !has_key(s, k) && s.len() < cap ==> (t, tv) == settled(seq![(k, (v, (dc + 1) as usize))] + s, 1, visits + 1, limit),
        !has_key(s, k) && s.len() >= cap ==> exists|i: int|
            #[trigger] is_unusual_last(s, i) && (t, tv) == settled(
                seq![(k, (v, (dc + 1) as usize))] + s.remove(i),
                1,
                visits + 1,
                limit,
            ),
        has_key(t, x),
        x != k,
    ensures
        has_key(s, x),
{
    if has_key(s, k) {
        let p = key_pos(s, k);
        let u = s.update(p, (k, (v, s[p].1.1)));
        assert(s[p].0 == k);
        if freq_of(u[p].1.1) == freq_of((u[p].1.1 + 1) as usize) {
            let m = choose|m: int| 0 <= m < t.len() && (#[trigger] t[m]).0 == x;
            assert(t == u.update(p, bumped(u[p])));
            if m != p {
                assert(t[m] == s[m]);
            }
        } else {
            let w = seq![bumped(u[p])] + u.remove(p);
            lemma_settled_keys(w, 0, visits + 1, limit, x);
            let m = choose|m: int| 0 <= m < w.len() && (#[trigger] w[m]).0 == x;
            if m > 0 {
                assert(w[m] == u.remove(p)[m - 1]);
                let q = if m - 1 < p { m - 1 } else { m };
                assert(u.remove(p)[m - 1] == u[q]);
                assert(u[q] == s[q]);
            }
        }
    } else if s.len() < cap {
        let w = seq![(k, (v, (dc + 1) as usize))] + s;
        lemma_settled_keys(w, 1, visits + 1, limit, x);
        let m = choose|m: int| 0 <= m < w.len() && (#[trigger] w[m]).0 == x;
        assert(w[m] == s[m - 1]);
    } else {
        let i = choose|i: int|
            #[trigger] is_unusual_last(s, i) && (t, tv) == settled(
                seq![(k, (v, (dc + 1) as usize))] + s.remove(i),
                1,
                visits + 1,
                limit,
            );
        let w = seq![(k, (v, (dc + 1) as usize))] + s.remove(i);
        lemma_settled_keys(w, 1, visits + 1, limit, x);
        let m = choose|m: int| 0 <= m < w.len() && (#[trigger] w[m]).0 == x;
        assert(w[m] == s.remove(i)[m - 1]);
        let q = if m - 1 < i { m - 1 } else { m };
        assert(s.remove(i)[m - 1] == s[q]);
    }
}

/// Halving keeps every entry: each is among the moved or the kept ones.
pub proof fn lemma_parts_hold<K, V>(s: Seq<(K, (V, usize))>, i: int)
    requires
        0 <= i < s.len(),
    ensures
        moves(s[i]) ==> moved_part(s).contains(halved(s[i])),
        !moves(s[i]) ==> kept_part(s).contains(halved(s[i])),
    decreases s.len(),
{
    if i > 0 {
        lemma_parts_hold(s.drop_first(), i - 1);
        assert(s.drop_first()[i - 1] == s[i]);
        if moves(s[i]) {
            let t = moved_part(s.drop_first());
            let q = choose|q: int| 0 <= q < t.len() && t[q] == halved(s[i]);
            if moves(s[0]) {
                assert((seq![halved(s[0])] + t)[q + 1] == halved(s[i]));
            }
        } else {
            let t = kept_part(s.drop_first());
            let q = choose|q: int| 0 <= q < t.len() && t[q] == halved(s[i]);
            if !moves(s[0]) {
                assert((seq![halved(s[0])] + t)[q + 1] == halved(s[i]));
            }
        }
    } else {
        if moves(s[0]) {
            assert(moved_part(s)[0] == halved(s[0]));
        } else {
            assert(kept_part(s)[0] == halved(s[0]));
        }
    }
}

/// The moved and the kept entries are as many as all.
pub proof fn lemma_parts_len<K, V>(s: Seq<(K, (V, usize))>)
    ensures
        moved_part(s).len() + kept_part(s).len() == s.len(),
    decreases s.len(),
{
    if s.len() > 0 {
        lemma_parts_len(s.drop_first());
    }
}

/// Settling keeps every entry: with its key and value, at some place.
pub proof fn lemma_settled_holds<K, V>(s: Seq<(K, (V, usize))>, start: int, visits: nat, limit: nat, i: int)
    requires
        0 <= start <= s.len(),
        0 <= i < s.len(),
    ensures
        exists|q: int|
            0 <= q < settled(s, start, visits, limit).0.len() && settled(s, start, visits, limit).0[q].0 == s[i].0
                && #[trigger] settled(s, start, visits, limit).0[q].1.0 == s[i].1.0,
{
    let r = settled(s, start, visits, limit).0;
    if visits < limit {
        assert(r[i] == s[i]);
        assert(r[i].1.0 == s[i].1.0);
    } else {
        let t = s.skip(start);
        let a = moved_part(t);
        let b = kept_part(t);
        lemma_parts_len(t);
        assert(r == a + s.take(start) + b);
        assert(r.len() == s.len());
        if i < start {
            let q = a.len() + i;
            assert(r[q] == s[i]);
            assert(r[q].1.0 == s[i].1.0);
        } else {
            lemma_parts_hold(t, i - start);
            assert(t[i - start] == s[i]);
            if moves(s[i]) {
                let q = choose|q: int| 0 <= q < a.len() && a[q] == halved(s[i]);
                assert(r[q] == halved(s[i]));
                assert(r[q].1.0 == s[i].1.0);
            } else {
                let q0 = choose|q: int| 0 <= q < b.len() && b[q] == halved(s[i]);
                let q = a.len() + start + q0;
                assert(r[q] == halved(s[i]));
                assert(r[q].1.0 == s[i].1.0);
            }
        }
    }
}

/// Key `x`, where `s` holds it, is held in `t` with the same value.
pub open spec fn keeps_value<K, V>(s: Seq<(K, (V, usize))>, t: Seq<(K, (V, usize))>, x: K) -> bool {
    has_key(s, x) ==> has_key(t, x) && t[key_pos(t, x)].1.0 == s[key_pos(s, x)].1.0
}

/// Every key of `s` but `k` and `y` is held in `t` with the same value.
pub open spec fn keeps_all_but<K, V>(s: Seq<(K, (V, usize))>, t: Seq<(K, (V, usize))>, k: K, y: K) -> bool {
    forall|x: K| x != k && x != y ==> #[trigger] keeps_value(s, t, x)
}

/// Keeping every key but `k` and `y` from `a` to `b`, and every key but
/// `k` from `b` to any `c`, keeps every key but `k` and `y` from `a` to `c`.
pub proof fn lemma_keeps_chain<K, V>(a: Seq<(K, (V, usize))>, b: Seq<(K, (V, usize))>, k: K, y: K)
    requires
        keeps_all_but(a, b, k, y),
    ensures
        forall|c: Seq<(K, (V, usize))>| #[trigger] keeps_all_but(b, c, k, k) ==> keeps_all_but(a, c, k, y),
{
    assert forall|c: Seq<(K, (V, usize))>| #[trigger] keeps_all_but(b, c, k, k) implies keeps_all_but(a, c, k, y) by {
        assert forall|x: K| x != k && x != y implies #[trigger] keeps_value(a, c, x) by {
            assert(keeps_value(a, b, x));
            assert(keeps_value(b, c, x));
        }
    }
}

/// Settling keeps the value of every key of the entries settled.
pub proof fn lemma_settled_keeps<K, V>(s: Seq<(K, (V, usize))>, start: int, visits: nat, limit: nat, i: int)
    requires
        0 <= start <= s.len(),
        0 <= i < s.len(),
        distinct_keys(settled(s, start, visits, limit).0),
    ensures
        has_key(settled(s, start, visits, limit).0, s[i].0),
        settled(s, start, visits, limit).0[key_pos(settled(s, start, visits, limit).0, s[i].0)].1.0 == s[i].1.0,
{
    let r = settled(s, start, visits, limit).0;
    lemma_settled_holds(s, start, visits, limit, i);
    let q = choose|q: int| 0 <= q < r.len() && r[q].0 == s[i].0 && #[trigger] r[q].1.0 == s[i].1.0;
    lemma_pos_of_entry(r, q);
}

/// Counting one more visit of the entry at `p` keeps the value of every
/// other key.
pub proof fn lemma_visited_keeps<K, V>(s: Seq<(K, (V, usize))>, visits: nat, limit: nat, p: int, x: K)
    requires
        0 <= p < s.len(),
        distinct_keys(s),
        distinct_keys(visited(s, visits, limit, p).0),
        x != s[p].0,
    ensures
        keeps_value(s, visited(s, visits, limit, p).0, x),
{
    if has_key(s, x) {
        let j = key_pos(s, x);
        let t = visited(s, visits, limit, p).0;
        if freq_of(s[p].1.1) == freq_of((s[p].1.1 + 1) as usize) {
            assert(t[j] == s[j]);
            lemma_pos_of_entry(t, j);
        } else {
            let w = seq![bumped(s[p])] + s.remove(p);
            let q = if j < p { j } else { j - 1 };
            assert(w[q + 1] == s.remove(p)[q]);
            assert(s.remove(p)[q] == s[j]);
            lemma_settled_keeps(w, 0, visits + 1, limit, q + 1);
        }
    }
}

/// Putting the new key `k` in front of `s` with entry `i` taken out, and
/// settling, keeps the value of every other key than `s[i]`'s.
pub proof fn lemma_put_keeps<K, V>(s: Seq<(K, (V, usize))>, e: (K, (V, usize)), i: int, visits: nat, limit: nat, x: K)
    requires
        -1 <= i < s.len(),
        distinct_keys(s),
        !has_key(s, e.0),
        x != e.0,
        i >= 0 ==> x != s[i].0,
        distinct_keys(settled(seq![e] + (if i >= 0 { s.remove(i) } else { s }), 1, visits, limit).0),
    ensures
        keeps_value(s, settled(seq![e] + (if i >= 0 { s.remove(i) } else { s }), 1, visits, limit).0, x),
{
    if has_key(s, x) {
        let j = key_pos(s, x);
        let u = if i >= 0 { s.remove(i) } else { s };
        let w = seq![e] + u;
        let q = if i >= 0 && j > i { j - 1 } else { j };
        assert(u[q] == s[j]);
        assert(w[q + 1] == u[q]);
        lemma_settled_keeps(w, 1, visits, limit, q + 1);
    }
}

/// The entries of class `c` in `s`, from the last to the first.
pub open spec fn class_from_back<K, V>(s: Seq<(K, (V, usize))>, c: u8) -> Seq<(K, (V, usize))>
    decreases s.len(),
{
    if s.len() == 0 {
        Seq::empty()
    } else if class_of(s[0]) == c {
        class_from_back(s.drop_first(), c) + seq![s[0]]
    } else {
        class_from_back(s.drop_first(), c)
    }
}

/// The entries of the classes from the highest down to `c`, each class
/// from the least recently placed.
pub open spec fn listing_down<K, V>(s: Seq<(K, (V, usize))>, c: int) -> Seq<(K, (V, usize))>
    decreases 20 - c,
{
    if c >= 20 || c < 0 {
        Seq::empty()
    } else {
        listing_down(s, c + 1) + class_from_back(s, c as u8)
    }
}

/// The entries as the cache lists them: by class from the highest down,
/// each class from the least recently placed.
pub open spec fn listing<K, V>(s: Seq<(K, (V, usize))>) -> Seq<(K, (V, usize))> {
    listing_down(s, 0)
}

/// The entries in the order the cache gives them up when emptied one by one
/// from the least recently placed entry of the lowest class.
pub open spec fn drained<K, V>(s: Seq<(K, (V, usize))>) -> Seq<(K, V)>
    decreases s.len(),
{
    let i = choose|i: int| is_unusual_last(s, i);
    if s.len() == 0 || !(0 <= i < s.len()) {
        Seq::empty()
    } else {
        seq![(s[i].0, s[i].1.0)] + drained(s.remove(i))
    }
}

/// One entry at most is the next to be evicted.
pub proof fn law_one_to_evict<K, V>(s: Seq<(K, (V, usize))>, i: int, j: int)
    requires
        is_unusual_last(s, i),
        is_unusual_last(s, j),
    ensures
        i == j,
{
    if i < j {
        assert(class_of(s[j]) >= class_of(s[i]));
        assert(class_of(s[i]) >= class_of(s[j]));
    } else if j < i {
        assert(class_of(s[j]) >= class_of(s[i]));
        assert(class_of(s[i]) >= class_of(s[j]));
    }
}

/// The entries of a class are entries of `s` of that class.
pub proof fn lemma_class_from_back_in<K, V>(s: Seq<(K, (V, usize))>, c: u8)
    ensures
        forall|m: int| 0 <= m < class_from_back(s, c).len() ==> s.contains(#[trigger] class_from_back(s, c)[m])
            && class_of(class_from_back(s, c)[m]) == c,
    decreases s.len(),
{
    if s.len() > 0 {
        let d = s.drop_first();
        lemma_class_from_back_in(d, c);
        let t = class_from_back(d, c);
        assert forall|m: int| 0 <= m < class_from_back(s, c).len() implies s.contains(#[trigger] class_from_back(s, c)[m])
            && class_of(class_from_back(s, c)[m]) == c by {
            if m < t.len() {
                assert(class_from_back(s, c)[m] == t[m]);
                let i = choose|i: int| 0 <= i < d.len() && d[i] == t[m];
                assert(s[i + 1] == t[m]);
            } else {
                assert(class_from_back(s, c)[m] == s[0]);
            }
        }
    }
}

/// The entries of a class have distinct keys when `s` has.
pub proof fn lemma_class_from_back_distinct<K, V>(s: Seq<(K, (V, usize))>, c: u8)
    requires
        distinct_keys(s),
    ensures
        distinct_keys(class_from_back(s, c)),
    decreases s.len(),
{
    if s.len() > 0 {
        let d = s.drop_first();
        assert(distinct_keys(d)) by {
            assert forall|a: int, b: int| 0 <= a < b < d.len() implies (#[trigger] d[a]).0 != (#[trigger] d[b]).0 by {
                assert(s[a + 1] == d[a]);
                assert(s[b + 1] == d[b]);
            }
        }
        lemma_class_from_back_distinct(d, c);
        lemma_class_from_back_in(d, c);
        let t = class_from_back(d, c);
        let r = class_from_back(s, c);
        assert forall|a: int, b: int| 0 <= a < b < r.len() implies (#[trigger] r[a]).0 != (#[trigger] r[b]).0 by {
            if b < t.len() {
                assert(r[a] == t[a] && r[b] == t[b]);
            } else {
                assert(r[b] == s[0]);
                assert(r[a] == t[a]);
                assert(d.contains(t[a]));
                let i = choose|i: int| 0 <= i < d.len() && d[i] == t[a];
                assert(s[i + 1] == t[a]);
            }
        }
    }
}

/// The listing from class `c` down holds entries of `s` of class at least
/// `c`, with distinct keys when `s` has.
pub proof fn lemma_listing_distinct<K, V>(s: Seq<(K, (V, usize))>, c: int)
    requires
        distinct_keys(s),
    ensures
        distinct_keys(listing_down(s, c)),
        forall|m: int| 0 <= m < listing_down(s, c).len() ==> s.contains(#[trigger] listing_down(s, c)[m])
            && class_of(listing_down(s, c)[m]) >= c,
    decreases 20 - c,
{
    if 0 <= c < 20 {
        lemma_listing_distinct(s, c + 1);
        lemma_class_from_back_in(s, c as u8);
        lemma_class_from_back_distinct(s, c as u8);
        let a = listing_down(s, c + 1);
        let b = class_from_back(s, c as u8);
        let r = listing_down(s, c);
        assert(r == a + b);
        assert forall|m: int| 0 <= m < r.len() implies s.contains(#[trigger] r[m]) && class_of(r[m]) >= c by {
            if m < a.len() {
                assert(r[m] == a[m]);
            } else {
                assert(r[m] == b[m - a.len()]);
            }
        }
        assert forall|x: int, y: int| 0 <= x < y < r.len() implies (#[trigger] r[x]).0 != (#[trigger] r[y]).0 by {
            if y < a.len() {
                assert(r[x] == a[x] && r[y] == a[y]);
            } else if x >= a.len() {
                assert(r[x] == b[x - a.len()] && r[y] == b[y - a.len()]);
            } else {
                assert(r[x] == a[x]);
                assert(r[y] == b[y - a.len()]);
                let i = choose|i: int| 0 <= i < s.len() && s[i] == r[x];
                let j = choose|j: int| 0 <= j < s.len() && s[j] == r[y];
                if r[x].0 == r[y].0 {
                    if i < j {
                        assert(s[i].0 != s[j].0);
                    } else if j < i {
                        assert(s[j].0 != s[i].0);
                    }
                }
            }
        }
    }
}

/// A sequence of entries with distinct keys, all taken from `s`, is no
/// longer than `s`.
pub proof fn lemma_distinct_within<K, V>(s: Seq<(K, (V, usize))>, l: Seq<(K, (V, usize))>)
    requires
        distinct_keys(l),
        forall|m: int| 0 <= m < l.len() ==> s.contains(#[trigger] l[m]),
    ensures
        l.len() <= s.len(),
{
    assert(l.no_duplicates()) by {
        assert forall|a: int, b: int| 0 <= a < l.len() && 0 <= b < l.len() && a != b implies l[a] != l[b] by {
            if a < b {
                assert(l[a].0 != l[b].0);
            } else {
                assert(l[b].0 != l[a].0);
            }
        }
    }
    l.unique_seq_to_set();
    s.lemma_cardinality_of_set();
    vstd::seq_lib::seq_to_set_is_finite(s);
    assert(l.to_set().subset_of(s.to_set())) by {
        assert forall|x| l.to_set().contains(x) implies s.to_set().contains(x) by {
            let m = choose|m: int| 0 <= m < l.len() && l[m] == x;
            assert(s.contains(l[m]));
        }
    }
    vstd::set_lib::lemma_len_subset(l.to_set(), s.to_set());
}

/// A cache of at most `capacity` entries that evicts, when a new key comes
/// in while it is full, the least recently placed entry of the lowest
/// frequency class.  Each entry counts its visits; an entry is placed
/// anew (in front) when a visit moves it to another class, and once the
/// visits that placed entries reach a limit, every count is halved, so
/// that entries visited often long ago lose their weight.
#[verifier::reject_recursive_types(K)]
#[verifier::reject_recursive_types(S)]
pub struct LfuCache<K, V, S> {
    list: LruCache<K, (V, usize), S>,
    cap: usize,
    visit_count: usize,
    default_count: usize,
    reduce_count: usize,
    expire: HashMap<K, u64>,
    check_next: u64,
    check_step: u64,
    has_ttl: bool,
}

impl<K, V, S> View for LfuCache<K, V, S> {
    type V = Seq<(K, (V, usize))>;

    /// The entries with their values and visit counts, from the most
    /// recently placed to the least recently placed.
    open spec fn view(&self) -> Seq<(K, (V, usize))> {
        self.entries()
    }
}

impl<K, V, S> LfuCache<K, V, S> {
    /// The entries with their values and visit counts, from the most
    /// recently placed to the least recently placed.
    pub closed spec fn entries(&self) -> Seq<(K, (V, usize))> {
        self.list@
    }

    /// The maximal number of entries.
    pub closed spec fn spec_capacity(&self) -> nat {
        self.cap as nat
    }

    /// The visits since the counts were last halved.
    pub closed spec fn spec_visits(&self) -> nat {
        self.visit_count as nat
    }

    /// The visit count of a new entry before its first visit.
    pub closed spec fn spec_default_count(&self) -> nat {
        self.default_count as nat
    }

    /// The visits after which the counts are halved.
    pub closed spec fn spec_reduce_count(&self) -> nat {
        self.reduce_count as nat
    }

    /// The time (in milliseconds) from which the entry of key `k` counts as
    /// expired; `u64::MAX` for an entry without a time to live.
    pub closed spec fn expiry(&self, k: K) -> u64 {
        if self.expire@.contains_key(k) {
            self.expire@[k]
        } else {
            u64::MAX
        }
    }

    /// The times to live and the sweep settings of `self` and `other` agree.
    pub closed spec fn keeps_ttl(&self, other: &Self) -> bool {
        &&& self.expire@ == other.expire@
        &&& self.check_next == other.check_next
        &&& self.check_step == other.check_step
        &&& self.has_ttl == other.has_ttl
    }

    /// Whether some entry was ever given a time to live.
    pub closed spec fn spec_has_ttl(&self) -> bool {
        self.has_ttl
    }

    /// The time before which no sweep of expired entries is made.
    pub closed spec fn spec_check_next(&self) -> u64 {
        self.check_next
    }

    /// The time between two sweeps of expired entries.
    pub closed spec fn spec_check_step(&self) -> u64 {
        self.check_step
    }

    /// Internal consistency.
    pub closed spec fn wf(&self) -> bool {
        &&& self.list.wf()
        &&& self.cap <= self.list.spec_capacity()
        &&& self.list@.len() <= self.cap
    }

    /// A cache never holds more entries than its capacity, nor a key twice.
    pub proof fn law_within_capacity(&self)
        requires
            self.wf(),
        ensures
            self@.len() <= self.spec_capacity(),
            distinct_keys(self@),
    {
        self.list.law_within_capacity();
    }

    /// The maximal number of entries.
    pub fn capacity(&self) -> (res: usize)
        ensures
            res == self.spec_capacity(),
    {
        self.cap
    }

    /// The number of entries.
    pub fn len(&self) -> (res: usize)
        requires
            self.wf(),
        ensures
            res == self@.len(),
    {
        self.list.len()
    }

    pub fn is_empty(&self) -> (res: bool)
        requires
            self.wf(),
        ensures
            res == (self@.len() == 0),
    {
        self.list.len() == 0
    }

    /// Sets the visit count of new entries to `default_count` less one (a
    /// new entry's first visit raises it by one).
    pub fn set_default_count(&mut self, default_count: usize)
        requires
            old(self).wf(),
        ensures
            final(self).wf(),
            final(self)@ == old(self)@,
            final(self).spec_default_count() == if default_count > 0 { default_count - 1 } else { 0 },
            final(self).spec_capacity() == old(self).spec_capacity(),
            final(self).spec_visits() == old(self).spec_visits(),
            final(self).spec_reduce_count() == old(self).spec_reduce_count(),
    {
        self.default_count = default_count.saturating_sub(1);
    }

    pub fn get_default_count(&self) -> (res: usize)
        ensures
            res == self.spec_default_count(),
    {
        self.default_count
    }

    /// Sets the number of visits after which all counts are halved.
    pub fn set_reduce_count(&mut self, reduce_count: usize)
        requires
            old(self).wf(),
        ensures
            final(self).wf(),
            final(self)@ == old(self)@,
            final(self).spec_reduce_count() == reduce_count,
            final(self).spec_capacity() == old(self).spec_capacity(),
            final(self).spec_visits() == old(self).spec_visits(),
            final(self).spec_default_count() == old(self).spec_default_count(),
    {
        self.reduce_count = reduce_count;
    }

    pub fn get_reduce_count(&self) -> (res: usize)
        ensures
            res == self.spec_reduce_count(),
    {
        self.reduce_count
    }

    /// Removes every entry and forgets the visits.
    pub fn clear(&mut self)
        requires
            old(self).wf(),
        ensures
            final(self).wf(),
            final(self)@ == Seq::<(K, (V, usize))>::empty(),
            final(self).spec_visits() == 0,
            final(self).spec_capacity() == old(self).spec_capacity(),
            final(self).spec_default_count() == old(self).spec_default_count(),
            final(self).spec_reduce_count() == old(self).spec_reduce_count(),
    {
        self.list.clear();
        self.visit_count = 0;
    }

    /// Raises the capacity by `additional`.
    pub fn reserve(&mut self, additional: usize) -> (res: &mut Self)
        requires
            old(self).wf(),
            old(self).spec_capacity() + additional <= usize::MAX,
        ensures
            res.wf(),
            res@ == old(self)@,
            res.spec_capacity() == old(self).spec_capacity() + additional,
            res.spec_visits() == old(self).spec_visits(),
            res.spec_default_count() == old(self).spec_default_count(),
            res.spec_reduce_count() == old(self).spec_reduce_count(),
            *final(self) == *final(res),
    {
        if self.cap + additional > self.list.capacity() {
            self.list.reserve(self.cap + additional - self.list.capacity());
        }
        self.cap = self.cap + additional;
        self
    }

    /// The hash builder of the key index.
    pub fn hasher(&self) -> &S {
        self.list.hasher()
    }
}

impl<K: Hash + Eq + Copy, V> LfuCache<K, V, RandomState> {
    /// An empty cache for at most `cap` entries (at least one).
    pub fn new(cap: usize) -> (res: Self)
        requires
            obeys_key_model::<K>(),
        ensures
            res.wf(),
            res@ == Seq::<(K, (V, usize))>::empty(),
            res.spec_capacity() == if cap == 0 { 1 } else { cap },
            res.spec_visits() == 0,
            res.spec_default_count() == 4,
            res.spec_reduce_count() == if cap == 0 { 100 } else if cap * 100 <= usize::MAX { cap * 100 } else { usize::MAX as int },
    {
        let cap = if cap == 0 { 1 } else { cap };
        LfuCache {
            list: LruCache::new(cap),
            cap,
            visit_count: 0,
            default_count: 4,
            reduce_count: if cap <= usize::MAX / 100 { cap * 100 } else { usize::MAX },
            expire: HashMap::new(),
            check_next: 0,
            check_step: DEFAULT_CHECK_STEP,
            has_ttl: false,
        }
    }
}

impl<K: Hash + Eq + Copy, V, S: BuildHasher> LfuCache<K, V, S> {
    /// An empty cache for at most `cap` entries (at least one) whose key
    /// index hashes with `hash_builder`.
    pub fn with_hasher(cap: usize, hash_builder: S) -> (res: Self)
        requires
            obeys_key_model::<K>(),
            builds_valid_hashers::<S>(),
        ensures
            res.wf(),
            res@ == Seq::<(K, (V, usize))>::empty(),
            res.spec_capacity() == if cap == 0 { 1 } else { cap },
            res.spec_visits() == 0,
            res.spec_default_count() == 4,
            res.spec_reduce_count() == if cap == 0 { 100 } else if cap * 100 <= usize::MAX { cap * 100 } else { usize::MAX as int },
    {
        let cap = if cap == 0 { 1 } else { cap };
        LfuCache {
            list: LruCache::with_hasher(cap, hash_builder),
            cap,
            visit_count: 0,
            default_count: 4,
            reduce_count: if cap <= usize::MAX / 100 { cap * 100 } else { usize::MAX },
            expire: HashMap::new(),
            check_next: 0,
            check_step: DEFAULT_CHECK_STEP,
            has_ttl: false,
        }
    }

    /// Whether some entry has key `k`.
    pub fn contains_key(&self, k: &K) -> (res: bool)
        requires
            self.wf(),
        ensures
            res == has_key(self@, *k),
    {
        self.list.contains_key(k)
    }

    /// The number of visits counted since the counts were last halved.
    pub fn visits(&self) -> (res: usize)
        ensures
            res == self.spec_visits(),
    {
        self.visit_count
    }

    /// The value of key `k`, to change in place, with no visit counted and
    /// nothing moved.
    pub(crate) fn peek_mut(&mut self, k: &K) -> (res: Option<&mut V>)
        requires
            old(self).wf(),
        ensures
            final(self).wf(),
            final(self).spec_capacity() == old(self).spec_capacity(),
            final(self).spec_visits() == old(self).spec_visits(),
            final(self).spec_default_count() == old(self).spec_default_count(),
            final(self).spec_reduce_count() == old(self).spec_reduce_count(),
            res is Some <==> has_key(old(self)@, *k),
            res matches Some(v) ==> {
                let p = key_pos(old(self)@, *k);
                &&& *v == old(self)@[p].1.0
                &&& final(self)@ == old(self)@.update(p, (old(self)@[p].0, (*final(v), old(self)@[p].1.1)))
            },
            res is None ==> final(self)@ == old(self)@,
            forall|x: K| x != *k ==> #[trigger] keeps_value(old(self)@, final(self)@, x),
    {
        proof {
            self.law_within_capacity();
        }
        match self.list.peek_mut(k) {
            Some(e) => {
                proof {
                    let s = old(self)@;
                    let p = key_pos(s, *k);
                    let nl = s.update(p, (s[p].0, *final(e)));
                    assert forall|x: K| x != *k implies #[trigger] keeps_value(s, nl, x) by {
                        if has_key(s, x) {
                            let j = key_pos(s, x);
                            assert(nl[j] == s[j]);
                            assert forall|a: int, b: int| 0 <= a < b < nl.len() implies (#[trigger] nl[a]).0 != (#[trigger] nl[b]).0 by {
                                assert(s[a].0 != s[b].0);
                            }
                            lemma_pos_of_entry(nl, j);
                        }
                    }
                }
                Some(&mut e.0)
            },
            None => None,
        }
    }

    /// The `m`-th entry as the cache lists them (see `listing`), its value
    /// to change in place, with no visit counted and nothing moved; `None`
    /// past the end.
    pub fn iter_mut_at(&mut self, m: usize) -> (res: Option<(&K, &mut V)>)
        requires
            old(self).wf(),
        ensures
            final(self).wf(),
            final(self).spec_capacity() == old(self).spec_capacity(),
            final(self).spec_visits() == old(self).spec_visits(),
            final(self).spec_default_count() == old(self).spec_default_count(),
            final(self).spec_reduce_count() == old(self).spec_reduce_count(),
            final(self).keeps_ttl(old(self)),
            res is Some <==> m < listing(old(self)@).len(),
            res matches Some(kv) ==> {
                let e = listing(old(self)@)[m as int];
                let p = key_pos(old(self)@, e.0);
                &&& *kv.0 == e.0
                &&& *kv.1 == e.1.0
                &&& final(self)@ == old(self)@.update(p, (e.0, (*final(kv.1), e.1.1)))
            },
            res is None ==> final(self)@ == old(self)@,
    {
        let keys = self.keys();
        if m >= keys.len() {
            return None;
        }
        let k = *keys[m];
        proof {
            self.law_within_capacity();
            lemma_listing_distinct(self@, 0);
            let e = listing(self@)[m as int];
            assert(self@.contains(e));
            let i = choose|i: int| 0 <= i < self@.len() && self@[i] == e;
            lemma_pos_of_entry(self@, i);
            assert(has_key(self@, k));
        }
        match self.list.peek_key_mut(&k) {
            Some((kr, e)) => Some((kr, &mut e.0)),
            None => None,
        }
    }

    /// The visit count of key `k`, if it is there.
    pub fn get_visit(&self, k: &K) -> (res: Option<usize>)
        requires
            self.wf(),
        ensures
            res is Some <==> has_key(self@, *k),
            res matches Some(c) ==> c == self@[key_pos(self@, *k)].1.1,
    {
        match self.list.raw_get(k) {
            Some(e) => Some(e.1),
            None => None,
        }
    }

    /// The value of key `k`, without counting a visit.
    pub fn raw_get(&self, k: &K) -> (res: Option<&V>)
        requires
            self.wf(),
        ensures
            res is Some <==> has_key(self@, *k),
            res matches Some(v) ==> *v == self@[key_pos(self@, *k)].1.0,
    {
        match self.list.raw_get(k) {
            Some(e) => Some(&e.0),
            None => None,
        }
    }

    /// The value of key `k`, which must be there; no visit is counted.
    pub fn index(&self, k: &K) -> (res: &V)
        requires
            self.wf(),
            has_key(self@, *k),
        ensures
            *res == self@[key_pos(self@, *k)].1.0,
    {
        &self.list.index(k).0
    }

    /// The keys, from the most recently placed to the least recently placed.
    fn copied_keys(&self) -> (res: Vec<K>)
        requires
            self.wf(),
        ensures
            res@.len() == self@.len(),
            forall|m: int| 0 <= m < res@.len() ==> #[trigger] res@[m] == self@[m].0,
    {
        let refs = self.list.keys();
        let mut res: Vec<K> = Vec::new();
        let mut i: usize = 0;
        while i < refs.len()
            invariant
                refs@.len() == self@.len(),
                forall|m: int| 0 <= m < refs@.len() ==> *(#[trigger] refs@[m]) == self@[m].0,
                i <= refs@.len(),
                res@.len() == i,
                forall|m: int| 0 <= m < i ==> #[trigger] res@[m] == self@[m].0,
            decreases refs@.len() - i,
        {
            let k: K = *refs[i];
            res.push(k);
            i = i + 1;
        }
        res
    }

    /// Once the visits reach the limit, halves the counts of the entries
    /// from place `start` on, places anew (in front) those that change
    /// class, and starts counting visits again.
    #[verifier::rlimit(100)]
    #[verifier::spinoff_prover]
    fn check_reduce(&mut self, start: usize)
        requires
            old(self).wf(),
            start <= old(self)@.len(),
        ensures
            final(self).wf(),
            (final(self)@, final(self).spec_visits()) == settled(
                old(self)@,
                start as int,
                old(self).spec_visits(),
                old(self).spec_reduce_count(),
            ),
            final(self).spec_capacity() == old(self).spec_capacity(),
            final(self).spec_default_count() == old(self).spec_default_count(),
            final(self).spec_reduce_count() == old(self).spec_reduce_count(),
            final(self).keeps_ttl(old(self)),
    {
        if self.visit_count < self.reduce_count {
            return;
        }
        let ghost s = self.list@;
        let keys = self.copied_keys();
        let n = keys.len();
        let mut j = n;
        proof {
            self.list.law_within_capacity();
            assert(s.subrange(n as int, n as int) =~= Seq::<(K, (V, usize))>::empty());
            assert(s.subrange(0, n as int) =~= s);
            assert(self.list@ =~= moved_part(s.subrange(n as int, n as int)) + s.subrange(0, n as int) + kept_part(
                s.subrange(n as int, n as int),
            ));
        }
        while j > start
            invariant
                self.list.wf(),
                self.list.spec_capacity() == old(self).list.spec_capacity(),
                self.cap == old(self).cap,
                self.visit_count == old(self).visit_count,
                self.default_count == old(self).default_count,
                self.reduce_count == old(self).reduce_count,
                self.keeps_ttl(old(self)),
                s == old(self)@,
                start <= j <= n,
                n == s.len(),
                keys@.len() == n,
                forall|m: int| 0 <= m < n ==> #[trigger] keys@[m] == s[m].0,
                distinct_keys(s),
                self.list@.len() == n,
                self.list@ == moved_part(s.subrange(j as int, n as int)) + s.subrange(0, j as int) + kept_part(
                    s.subrange(j as int, n as int),
                ),
            decreases j,
        {
            j = j - 1;
            let k = keys[j];
            let ghost t = s.subrange(j + 1, n as int);
            let ghost cur = self.list@;
            let ghost pos = moved_part(t).len() + j;
            proof {
                assert(s.subrange(j as int, n as int).drop_first() =~= t);
                assert(s.subrange(j as int, n as int)[0] == s[j as int]);
                assert(cur[pos] == s[j as int]);
                self.list.law_within_capacity();
                assert(has_key(cur, k));
                let q = key_pos(cur, k);
                assert(cur[q].0 == k);
                assert(q == pos);
            }
            let mut moved = false;
            match self.list.peek_mut(&k) {
                Some(e) => {
                    let c = e.1;
                    e.1 = c / 2;
                    moved = get_freq_by_times(c / 2) != get_freq_by_times(c);
                },
                None => {},
            }
            let ghost cur1 = self.list@;
            proof {
                lemma_parts_len(s.subrange(j as int, n as int));
                assert(cur1 == cur.update(pos, halved(s[j as int])));
                assert(moved == moves(s[j as int]));
            }
            if moved {
                proof {
                    self.list.law_within_capacity();
                    assert(cur1[pos].0 == k);
                    assert(has_key(cur1, k));
                    let q = key_pos(cur1, k);
                    assert(cur1[q].0 == k);
                    assert(q == pos);
                }
                let _ = self.list.get(&k);
                proof {
                    assert(self.list@ =~= moved_part(s.subrange(j as int, n as int)) + s.subrange(0, j as int)
                        + kept_part(s.subrange(j as int, n as int)));
                }
            } else {
                proof {
                    assert(self.list@ =~= moved_part(s.subrange(j as int, n as int)) + s.subrange(0, j as int)
                        + kept_part(s.subrange(j as int, n as int)));
                }
            }
        }
        self.visit_count = 0;
        proof {
            assert(s.subrange(start as int, n as int) =~= s.skip(start as int));
            assert(s.subrange(0, start as int) =~= s.take(start as int));
        }
    }

    /// Counts a visit of key `k`, which is there (see `visited`).
    fn try_fix_entry(&mut self, k: &K)
        requires
            old(self).wf(),
            has_key(old(self)@, *k),
            old(self)@[key_pos(old(self)@, *k)].1.1 < usize::MAX,
            old(self).spec_visits() < usize::MAX,
        ensures
            final(self).wf(),
            (final(self)@, final(self).spec_visits()) == visited(
                old(self)@,
                old(self).spec_visits(),
                old(self).spec_reduce_count(),
                key_pos(old(self)@, *k),
            ),
            has_key(final(self)@, *k),
            final(self)@[key_pos(final(self)@, *k)].1.0 == old(self)@[key_pos(old(self)@, *k)].1.0,
            final(self).spec_capacity() == old(self).spec_capacity(),
            final(self).spec_default_count() == old(self).spec_default_count(),
            final(self).spec_reduce_count() == old(self).spec_reduce_count(),
            final(self).keeps_ttl(old(self)),
    {
        let ghost s = self.list@;
        let ghost p = key_pos(s, *k);
        proof {
            self.list.law_within_capacity();
        }
        let mut same = false;
        match self.list.peek_mut(k) {
            Some(e) => {
                let c = e.1;
                same = get_freq_by_times(c) == get_freq_by_times(c + 1);
                e.1 = c + 1;
            },
            None => {},
        }
        self.visit_count = self.visit_count + 1;
        let ghost cur1 = self.list@;
        proof {
            assert(cur1 == s.update(p, bumped(s[p])));
            self.list.law_within_capacity();
            assert(cur1[p].0 == *k);
            assert(key_pos(cur1, *k) == p);
        }
        if !same {
            let _ = self.list.get(k);
            let ghost mid = self.list@;
            proof {
                assert(cur1.remove(p) =~= s.remove(p));
                assert(mid =~= seq![bumped(s[p])] + s.remove(p));
            }
            self.check_reduce(0);
            proof {
                lemma_settled_holds(mid, 0, (old(self).visit_count + 1) as nat, self.reduce_count as nat, 0);
                let q = choose|q: int| 0 <= q < self.list@.len() && self.list@[q].0 == mid[0].0 && self.list@[q].1.0 == mid[0].1.0;
                self.list.law_within_capacity();
                assert(has_key(self.list@, *k));
                assert(key_pos(self.list@, *k) == q);
            }
        } else {
            proof {
                assert(has_key(self.list@, *k));
            }
        }
    }

    /// The value of key `k`, counting a visit (see `visited`).
    pub fn get(&mut self, k: &K) -> (res: Option<&V>)
        requires
            old(self).wf(),
            has_key(old(self)@, *k) ==> old(self)@[key_pos(old(self)@, *k)].1.1 < usize::MAX,
            old(self).spec_visits() < usize::MAX,
        ensures
            final(self).wf(),
            final(self).spec_capacity() == old(self).spec_capacity(),
            final(self).spec_default_count() == old(self).spec_default_count(),
            final(self).spec_reduce_count() == old(self).spec_reduce_count(),
            res is Some <==> has_key(old(self)@, *k),
            res matches Some(v) ==> {
                &&& *v == old(self)@[key_pos(old(self)@, *k)].1.0
                &&& (final(self)@, final(self).spec_visits()) == visited(
                    old(self)@,
                    old(self).spec_visits(),
                    old(self).spec_reduce_count(),
                    key_pos(old(self)@, *k),
                )
            },
            res is None ==> final(self)@ == old(self)@ && final(self).spec_visits() == old(self).spec_visits(),
            final(self).keeps_ttl(old(self)),
    {
        if !self.list.contains_key(k) {
            return None;
        }
        self.try_fix_entry(k);
        match self.list.raw_get(k) {
            Some(e) => Some(&e.0),
            None => None,
        }
    }

    /// The key and value of key `k`, counting a visit (see `visited`).
    pub fn get_key_value(&mut self, k: &K) -> (res: Option<(&K, &V)>)
        requires
            old(self).wf(),
            has_key(old(self)@, *k) ==> old(self)@[key_pos(old(self)@, *k)].1.1 < usize::MAX,
            old(self).spec_visits() < usize::MAX,
        ensures
            final(self).wf(),
            final(self).spec_capacity() == old(self).spec_capacity(),
            final(self).spec_default_count() == old(self).spec_default_count(),
            final(self).spec_reduce_count() == old(self).spec_reduce_count(),
            res is Some <==> has_key(old(self)@, *k),
            res matches Some(kv) ==> {
                &&& *kv.0 == *k
                &&& *kv.1 == old(self)@[key_pos(old(self)@, *k)].1.0
                &&& (final(self)@, final(self).spec_visits()) == visited(
                    old(self)@,
                    old(self).spec_visits(),
                    old(self).spec_reduce_count(),
                    key_pos(old(self)@, *k),
                )
            },
            res is None ==> final(self)@ == old(self)@ && final(self).spec_visits() == old(self).spec_visits(),
    {
        if !self.list.contains_key(k) {
            return None;
        }
        self.try_fix_entry(k);
        proof {
            self.list.law_within_capacity();
        }
        match self.list.raw_get_key_value(k) {
            Some(e) => Some((e.0, &e.1.0)),
            None => None,
        }
    }

    /// The value of key `k`, for change, counting a visit (see `visited`).
    pub fn get_mut(&mut self, k: &K) -> (res: Option<&mut V>)
        requires
            old(self).wf(),
            has_key(old(self)@, *k) ==> old(self)@[key_pos(old(self)@, *k)].1.1 < usize::MAX,
            old(self).spec_visits() < usize::MAX,
        ensures
            final(self).wf(),
            final(self).spec_capacity() == old(self).spec_capacity(),
            final(self).spec_default_count() == old(self).spec_default_count(),
            final(self).spec_reduce_count() == old(self).spec_reduce_count(),
            res is Some <==> has_key(old(self)@, *k),
            res matches Some(v) ==> {
                let (mid, visits) = visited(
                    old(self)@,
                    old(self).spec_visits(),
                    old(self).spec_reduce_count(),
                    key_pos(old(self)@, *k),
                );
                let q = key_pos(mid, *k);
                &&& *v == old(self)@[key_pos(old(self)@, *k)].1.0
                &&& final(self)@ == mid.update(q, (*k, (*final(v), mid[q].1.1)))
                &&& final(self).spec_visits() == visits
            },
            res is None ==> final(self)@ == old(self)@ && final(self).spec_visits() == old(self).spec_visits(),
            forall|x: K| x != *k ==> #[trigger] keeps_value(old(self)@, final(self)@, x),
    {
        proof {
            self.law_within_capacity();
        }
        if !self.list.contains_key(k) {
            return None;
        }
        self.try_fix_entry(k);
        proof {
            self.list.law_within_capacity();
        }
        let ghost mid = self@;
        match self.list.peek_mut(k) {
            Some(e) => {
                proof {
                    let s = old(self)@;
                    let p = key_pos(s, *k);
                    let q = key_pos(mid, *k);
                    let nl = mid.update(q, (mid[q].0, *final(e)));
                    assert forall|x: K| x != *k implies #[trigger] keeps_value(s, nl, x) by {
                        lemma_visited_keeps(s, old(self).spec_visits(), old(self).spec_reduce_count(), p, x);
                        if has_key(s, x) {
                            let j = key_pos(mid, x);
                            assert(nl[j] == mid[j]);
                            lemma_pos_of_entry(mid, j);
                            assert forall|a: int, b: int| 0 <= a < b < nl.len() implies (#[trigger] nl[a]).0 != (#[trigger] nl[b]).0 by {
                                assert(mid[a].0 != mid[b].0);
                            }
                            lemma_pos_of_entry(nl, j);
                        }
                    }
                }
                Some(&mut e.0)
            },
            None => None,
        }
    }

    /// The place and key of the entry of the highest class (or the lowest),
    /// the least recently placed of them (or the most recently placed).
    fn pick(&self, highest: bool, last: bool) -> (r: (usize, K))
        requires
            self.wf(),
            self@.len() > 0,
        ensures
            r.0 < self@.len(),
            r.1 == self@[r.0 as int].0,
            highest && last ==> is_usual_last(self@, r.0 as int),
            highest && !last ==> is_usual_first(self@, r.0 as int),
            !highest && last ==> is_unusual_last(self@, r.0 as int),
            !highest && !last ==> is_unusual_first(self@, r.0 as int),
    {
        let items = self.list.iter();
        let ghost s = self@;
        let n = items.len();
        let mut b: usize = 0;
        let mut bc = get_freq_by_times(items[0].1.1);
        let mut i: usize = 1;
        while i < n
            invariant
                n == s.len(),
                s == self@,
                items@.len() == n,
                forall|m: int| 0 <= m < n ==> *(#[trigger] items@[m]).0 == s[m].0 && *items@[m].1 == s[m].1,
                0 <= b < i <= n,
                bc == class_of(s[b as int]),
                highest ==> forall|j: int| 0 <= j < i ==> class_of(#[trigger] s[j]) <= bc,
                !highest ==> forall|j: int| 0 <= j < i ==> class_of(#[trigger] s[j]) >= bc,
                last ==> forall|j: int| b < j < i ==> class_of(#[trigger] s[j]) != bc,
                !last ==> forall|j: int| 0 <= j < b ==> class_of(#[trigger] s[j]) != bc,
            decreases n - i,
        {
            let c = get_freq_by_times(items[i].1.1);
            let better = if highest {
                if last {
                    c >= bc
                } else {
                    c > bc
                }
            } else {
                if last {
                    c <= bc
                } else {
                    c < bc
                }
            };
            if better {
                b = i;
                bc = c;
            }
            i = i + 1;
        }
        let k: K = *items[b].0;
        (b, k)
    }

    /// Removes the entry of key `k`, which stands at place `i`.
    fn take_at(&mut self, k: &K, Ghost(i): Ghost<int>) -> (r: (K, V))
        requires
            old(self).wf(),
            0 <= i < old(self)@.len(),
            old(self)@[i].0 == *k,
        ensures
            final(self).wf(),
            final(self)@ == old(self)@.remove(i),
            r == (old(self)@[i].0, old(self)@[i].1.0),
            final(self).spec_capacity() == old(self).spec_capacity(),
            final(self).spec_visits() == old(self).spec_visits(),
            final(self).spec_default_count() == old(self).spec_default_count(),
            final(self).spec_reduce_count() == old(self).spec_reduce_count(),
            final(self).keeps_ttl(old(self)),
    {
        proof {
            self.list.law_within_capacity();
            assert(has_key(self@, *k));
            assert(key_pos(self@, *k) == i);
        }
        let e = self.list.remove(k).unwrap();
        (e.0, e.1.0)
    }

    /// Removes and gives back the least recently placed entry of the lowest
    /// class: the one a full cache evicts.
    pub fn pop_unusual(&mut self) -> (res: Option<(K, V)>)
        requires
            old(self).wf(),
        ensures
            final(self).wf(),
            old(self)@.len() == 0 ==> res is None && final(self)@ == old(self)@,
            old(self)@.len() > 0 ==> exists|i: int| #[trigger] is_unusual_last(old(self)@, i)
                && res == Some((old(self)@[i].0, old(self)@[i].1.0)) && final(self)@ == old(self)@.remove(i),
            final(self).spec_capacity() == old(self).spec_capacity(),
            final(self).spec_visits() == old(self).spec_visits(),
            final(self).spec_default_count() == old(self).spec_default_count(),
            final(self).spec_reduce_count() == old(self).spec_reduce_count(),
    {
        if self.list.len() == 0 {
            return None;
        }
        let (i, k) = self.pick(false, true);
        Some(self.take_at(&k, Ghost(i as int)))
    }

    /// Removes and gives back the least recently placed entry of the
    /// highest class.
    pub fn pop_usual(&mut self) -> (res: Option<(K, V)>)
        requires
            old(self).wf(),
        ensures
            final(self).wf(),
            old(self)@.len() == 0 ==> res is None && final(self)@ == old(self)@,
            old(self)@.len() > 0 ==> exists|i: int| #[trigger] is_usual_last(old(self)@, i)
                && res == Some((old(self)@[i].0, old(self)@[i].1.0)) && final(self)@ == old(self)@.remove(i),
            final(self).spec_capacity() == old(self).spec_capacity(),
            final(self).spec_visits() == old(self).spec_visits(),
            final(self).spec_default_count() == old(self).spec_default_count(),
            final(self).spec_reduce_count() == old(self).spec_reduce_count(),
    {
        if self.list.len() == 0 {
            return None;
        }
        let (i, k) = self.pick(true, true);
        Some(self.take_at(&k, Ghost(i as int)))
    }

    /// The most recently placed entry of the highest class.
    pub fn peek_usual(&mut self) -> (res: Option<(&K, &V)>)
        requires
            old(self).wf(),
        ensures
            *final(self) == *old(self),
            old(self)@.len() == 0 ==> res is None,
            old(self)@.len() > 0 ==> exists|i: int| #[trigger] is_usual_first(old(self)@, i)
                && (res matches Some(kv) && *kv.0 == old(self)@[i].0 && *kv.1 == old(self)@[i].1.0),
    {
        if self.list.len() == 0 {
            return None;
        }
        let (i, k) = self.pick(true, false);
        proof {
            self.list.law_within_capacity();
            assert(has_key(self@, k));
            assert(key_pos(self@, k) == i);
        }
        match self.list.raw_get_key_value(&k) {
            Some(e) => Some((e.0, &e.1.0)),
            None => None,
        }
    }

    /// The most recently placed entry of the lowest class.
    pub fn peek_unusual(&mut self) -> (res: Option<(&K, &V)>)
        requires
            old(self).wf(),
        ensures
            *final(self) == *old(self),
            old(self)@.len() == 0 ==> res is None,
            old(self)@.len() > 0 ==> exists|i: int| #[trigger] is_unusual_first(old(self)@, i)
                && (res matches Some(kv) && *kv.0 == old(self)@[i].0 && *kv.1 == old(self)@[i].1.0),
    {
        if self.list.len() == 0 {
            return None;
        }
        let (i, k) = self.pick(false, false);
        proof {
            self.list.law_within_capacity();
            assert(has_key(self@, k));
            assert(key_pos(self@, k) == i);
        }
        match self.list.raw_get_key_value(&k) {
            Some(e) => Some((e.0, &e.1.0)),
            None => None,
        }
    }

    /// Removes the entry of key `k` and gives it back, if it is there.
    pub fn remove(&mut self, k: &K) -> (res: Option<(K, V)>)
        requires
            old(self).wf(),
        ensures
            final(self).wf(),
            has_key(old(self)@, *k) ==> {
                let p = key_pos(old(self)@, *k);
                &&& res == Some((old(self)@[p].0, old(self)@[p].1.0))
                &&& final(self)@ == old(self)@.remove(p)
            },
            !has_key(old(self)@, *k) ==> res is None && final(self)@ == old(self)@,
            final(self).spec_capacity() == old(self).spec_capacity(),
            final(self).spec_visits() == old(self).spec_visits(),
            final(self).spec_default_count() == old(self).spec_default_count(),
            final(self).spec_reduce_count() == old(self).spec_reduce_count(),
            final(self).keeps_ttl(old(self)),
    {
        match self.list.remove(k) {
            Some(e) => Some((e.0, e.1.0)),
            None => None,
        }
    }

    /// Puts `v` under key `k`.  An existing entry gets the new value, counts
    /// a visit (see `visited`), and its old value is given back with the key
    /// and `true`.  A new key enters in front with the default count raised
    /// by one, counting toward halving (see `settled`; the new entry is not
    /// halved); on a full cache it first evicts the least recently placed
    /// entry of the lowest class, which is given back with `false`.
    pub fn capture_insert(&mut self, k: K, v: V) -> (res: Option<(K, V, bool)>)
        requires
            old(self).wf(),
            old(self).spec_visits() < usize::MAX,
            old(self).spec_default_count() < usize::MAX,
            old(self)@.len() < usize::MAX - 1,
            old(self).spec_capacity() > 0,
            has_key(old(self)@, k) ==> old(self)@[key_pos(old(self)@, k)].1.1 < usize::MAX,
        ensures
            final(self).wf(),
            final(self).spec_capacity() == old(self).spec_capacity(),
            final(self).spec_default_count() == old(self).spec_default_count(),
            final(self).spec_reduce_count() == old(self).spec_reduce_count(),
            has_key(final(self)@, k),
            final(self)@[key_pos(final(self)@, k)].1.0 == v,
            has_key(old(self)@, k) ==> {
                let p = key_pos(old(self)@, k);
                &&& res == Some((k, old(self)@[p].1.0, true))
                &&& (final(self)@, final(self).spec_visits()) == visited(
                    old(self)@.update(p, (k, (v, old(self)@[p].1.1))),
                    old(self).spec_visits(),
                    old(self).spec_reduce_count(),
                    p,
                )
            },
            !has_key(old(self)@, k) && old(self)@.len() < old(self).spec_capacity() ==> {
                &&& res is None
                &&& (final(self)@, final(self).spec_visits()) == settled(
                    seq![(k, (v, (old(self).spec_default_count() + 1) as usize))] + old(self)@,
                    1,
                    old(self).spec_visits() + 1,
                    old(self).spec_reduce_count(),
                )
            },
            !has_key(old(self)@, k) && old(self)@.len() >= old(self).spec_capacity() ==> exists|i: int|
                #[trigger] is_unusual_last(old(self)@, i) && res == Some((old(self)@[i].0, old(self)@[i].1.0, false))
                    && (final(self)@, final(self).spec_visits()) == settled(
                    seq![(k, (v, (old(self).spec_default_count() + 1) as usize))] + old(self)@.remove(i),
                    1,
                    old(self).spec_visits() + 1,
                    old(self).spec_reduce_count(),
                ),
            final(self).expiry(k) == u64::MAX,
            forall|x: K| x != k ==> #[trigger] final(self).expiry(x) == old(self).expiry(x),
            final(self).spec_has_ttl() == old(self).spec_has_ttl(),
            final(self).spec_check_next() == old(self).spec_check_next(),
            final(self).spec_check_step() == old(self).spec_check_step(),
            forall|x: K| x != k && (has_key(old(self)@, k) || old(self)@.len() < old(self).spec_capacity())
                ==> #[trigger] keeps_value(old(self)@, final(self)@, x),
            !has_key(old(self)@, k) && old(self)@.len() >= old(self).spec_capacity() ==> exists|y: K|
                #[trigger] keeps_all_but(old(self)@, final(self)@, k, y),
    {
        proof {
            self.list.lemma_models();
            self.law_within_capacity();
        }
        let res = self.capture_insert_entry(k, v);
        self.expire.remove(&k);
        proof {
            self.law_within_capacity();
            let s = old(self)@;
            let t = self@;
            let dc = old(self).spec_default_count();
            let e = (k, (v, (dc + 1) as usize));
            if has_key(s, k) {
                let p = key_pos(s, k);
                let u = s.update(p, (k, (v, s[p].1.1)));
                assert forall|a: int, b: int| 0 <= a < b < u.len() implies (#[trigger] u[a]).0 != (#[trigger] u[b]).0 by {
                    assert(s[a].0 != s[b].0);
                }
                assert forall|x: K| x != k implies #[trigger] keeps_value(s, t, x) by {
                    lemma_visited_keeps(u, old(self).spec_visits(), old(self).spec_reduce_count(), p, x);
                    if has_key(s, x) {
                        let j = key_pos(s, x);
                        assert(u[j] == s[j]);
                        lemma_pos_of_entry(u, j);
                    }
                }
            } else if s.len() < old(self).spec_capacity() {
                assert(seq![e] + s == seq![e] + (if -1int >= 0 { s.remove(-1) } else { s }));
                assert forall|x: K| x != k implies #[trigger] keeps_value(s, t, x) by {
                    lemma_put_keeps(s, e, -1, old(self).spec_visits() + 1, old(self).spec_reduce_count(), x);
                }
            } else {
                let i = choose|i: int|
                    #[trigger] is_unusual_last(s, i) && res == Some((s[i].0, s[i].1.0, false)) && (t, self.spec_visits())
                        == settled(seq![e] + s.remove(i), 1, old(self).spec_visits() + 1, old(self).spec_reduce_count());
                assert(0 <= i < s.len());
                let y = s[i].0;
                assert forall|x: K| x != k && x != y implies #[trigger] keeps_value(s, t, x) by {
                    lemma_put_keeps(s, e, i, old(self).spec_visits() + 1, old(self).spec_reduce_count(), x);
                }
                assert(keeps_all_but(s, t, k, y));
            }
        }
        res
    }

    /// Puts `(k, v)` as `capture_insert` does, with no change to the times
    /// to live.
    fn capture_insert_entry(&mut self, k: K, v: V) -> (res: Option<(K, V, bool)>)
        requires
            old(self).wf(),
            old(self).spec_visits() < usize::MAX,
            old(self).spec_default_count() < usize::MAX,
            old(self)@.len() < usize::MAX - 1,
            old(self).spec_capacity() > 0,
            has_key(old(self)@, k) ==> old(self)@[key_pos(old(self)@, k)].1.1 < usize::MAX,
        ensures
            final(self).wf(),
            final(self).spec_capacity() == old(self).spec_capacity(),
            final(self).spec_default_count() == old(self).spec_default_count(),
            final(self).spec_reduce_count() == old(self).spec_reduce_count(),
            has_key(final(self)@, k),
            final(self)@[key_pos(final(self)@, k)].1.0 == v,
            has_key(old(self)@, k) ==> {
                let p = key_pos(old(self)@, k);
                &&& res == Some((k, old(self)@[p].1.0, true))
                &&& (final(self)@, final(self).spec_visits()) == visited(
                    old(self)@.update(p, (k, (v, old(self)@[p].1.1))),
                    old(self).spec_visits(),
                    old(self).spec_reduce_count(),
                    p,
                )
            },
            !has_key(old(self)@, k) && old(self)@.len() < old(self).spec_capacity() ==> {
                &&& res is None
                &&& (final(self)@, final(self).spec_visits()) == settled(
                    seq![(k, (v, (old(self).spec_default_count() + 1) as usize))] + old(self)@,
                    1,
                    old(self).spec_visits() + 1,
                    old(self).spec_reduce_count(),
                )
            },
            !has_key(old(self)@, k) && old(self)@.len() >= old(self).spec_capacity() ==> exists|i: int|
                #[trigger] is_unusual_last(old(self)@, i) && res == Some((old(self)@[i].0, old(self)@[i].1.0, false))
                    && (final(self)@, final(self).spec_visits()) == settled(
                    seq![(k, (v, (old(self).spec_default_count() + 1) as usize))] + old(self)@.remove(i),
                    1,
                    old(self).spec_visits() + 1,
                    old(self).spec_reduce_count(),
                ),
            final(self).keeps_ttl(old(self)),
    {
        proof {
            self.list.law_within_capacity();
        }
        if self.list.contains_key(&k) {
            let ghost p = key_pos(self@, k);
            let mut v = v;
            match self.list.peek_mut(&k) {
                Some(e) => {
                    std::mem::swap(&mut e.0, &mut v);
                },
                None => {},
            }
            proof {
                self.list.law_within_capacity();
                assert(self@[p].0 == k);
                assert(key_pos(self@, k) == p);
            }
            self.try_fix_entry(&k);
            return Some((k, v, true));
        }
        let mut evicted: Option<(K, V, bool)> = None;
        let ghost mut gi: int = 0;
        if self.list.len() == self.cap {
            let (i, ek) = self.pick(false, true);
            proof {
                gi = i as int;
            }
            let (ek2, ev) = self.take_at(&ek, Ghost(i as int));
            evicted = Some((ek2, ev, false));
        }
        let ghost mid = self@;
        proof {
            self.list.law_within_capacity();
            assert(!has_key(mid, k)) by {
                if has_key(mid, k) {
                    let q = choose|q: int| 0 <= q < mid.len() && (#[trigger] mid[q]).0 == k;
                    if old(self)@.len() >= old(self).spec_capacity() {
                        assert(mid[q] == old(self)@.remove(gi)[q]);
                        if q < gi {
                            assert(old(self)@[q].0 == k);
                        } else {
                            assert(old(self)@[q + 1].0 == k);
                        }
                    } else {
                        assert(old(self)@[q].0 == k);
                    }
                }
            }
        }
        let _ = self.list.capture_insert(k, (v, self.default_count + 1));
        self.visit_count = self.visit_count + 1;
        proof {
            assert(self@ =~= seq![(k, (v, (old(self).spec_default_count() + 1) as usize))] + mid);
        }
        let ghost front = self@;
        self.check_reduce(1);
        proof {
            lemma_settled_holds(front, 1, (old(self).visit_count + 1) as nat, self.reduce_count as nat, 0);
            let q = choose|q: int| 0 <= q < self@.len() && self@[q].0 == front[0].0 && self@[q].1.0 == front[0].1.0;
            self.list.law_within_capacity();
            assert(has_key(self@, k));
            assert(key_pos(self@, k) == q);
        }
        evicted
    }

    /// Puts `v` under key `k` (see `capture_insert`) and gives back the
    /// value that left: the old value of `k`, or the value evicted.
    pub fn insert(&mut self, k: K, v: V) -> (res: Option<V>)
        requires
            old(self).wf(),
            old(self).spec_visits() < usize::MAX,
            old(self).spec_default_count() < usize::MAX,
            old(self)@.len() < usize::MAX - 1,
            old(self).spec_capacity() > 0,
            has_key(old(self)@, k) ==> old(self)@[key_pos(old(self)@, k)].1.1 < usize::MAX,
        ensures
            final(self).wf(),
            final(self).spec_capacity() == old(self).spec_capacity(),
            final(self).spec_default_count() == old(self).spec_default_count(),
            final(self).spec_reduce_count() == old(self).spec_reduce_count(),
            has_key(final(self)@, k),
            final(self)@[key_pos(final(self)@, k)].1.0 == v,
            has_key(old(self)@, k) ==> {
                let p = key_pos(old(self)@, k);
                &&& res == Some(old(self)@[p].1.0)
                &&& (final(self)@, final(self).spec_visits()) == visited(
                    old(self)@.update(p, (k, (v, old(self)@[p].1.1))),
                    old(self).spec_visits(),
                    old(self).spec_reduce_count(),
                    p,
                )
            },
            !has_key(old(self)@, k) && old(self)@.len() < old(self).spec_capacity() ==> {
                &&& res is None
                &&& (final(self)@, final(self).spec_visits()) == settled(
                    seq![(k, (v, (old(self).spec_default_count() + 1) as usize))] + old(self)@,
                    1,
                    old(self).spec_visits() + 1,
                    old(self).spec_reduce_count(),
                )
            },
            !has_key(old(self)@, k) && old(self)@.len() >= old(self).spec_capacity() ==> exists|i: int|
                #[trigger] is_unusual_last(old(self)@, i) && res == Some(old(self)@[i].1.0)
                    && (final(self)@, final(self).spec_visits()) == settled(
                    seq![(k, (v, (old(self).spec_default_count() + 1) as usize))] + old(self)@.remove(i),
                    1,
                    old(self).spec_visits() + 1,
                    old(self).spec_reduce_count(),
                ),
            forall|x: K| x != k && (has_key(old(self)@, k) || old(self)@.len() < old(self).spec_capacity())
                ==> #[trigger] keeps_value(old(self)@, final(self)@, x),
            !has_key(old(self)@, k) && old(self)@.len() >= old(self).spec_capacity() ==> exists|y: K|
                #[trigger] keeps_all_but(old(self)@, final(self)@, k, y),
    {
        match self.capture_insert(k, v) {
            Some((_, old_v, _)) => Some(old_v),
            None => None,
        }
    }

    /// The entries as the cache lists them (see `listing`).
    pub fn iter(&self) -> (res: Vec<(&K, &V)>)
        requires
            self.wf(),
        ensures
            res@.len() == listing(self@).len(),
            forall|m: int| 0 <= m < res@.len() ==> *(#[trigger] res@[m]).0 == listing(self@)[m].0
                && *res@[m].1 == listing(self@)[m].1.0,
    {
        let items = self.list.iter();
        let ghost s = self@;
        let n = items.len();
        let mut res: Vec<(&K, &V)> = Vec::new();
        let mut cc: u8 = 20;
        while cc > 0
            invariant
                n == s.len(),
                s == self@,
                items@.len() == n,
                forall|m: int| 0 <= m < n ==> *(#[trigger] items@[m]).0 == s[m].0 && *items@[m].1 == s[m].1,
                cc <= 20,
                res@.len() == listing_down(s, cc as int).len(),
                forall|m: int| 0 <= m < res@.len() ==> *(#[trigger] res@[m]).0 == listing_down(s, cc as int)[m].0
                    && *res@[m].1 == listing_down(s, cc as int)[m].1.0,
            decreases cc,
        {
            let c = cc - 1;
            let ghost base = listing_down(s, cc as int);
            let mut j = n;
            proof {
                assert(s.subrange(n as int, n as int) =~= Seq::<(K, (V, usize))>::empty());
            }
            while j > 0
                invariant
                    n == s.len(),
                    items@.len() == n,
                    forall|m: int| 0 <= m < n ==> *(#[trigger] items@[m]).0 == s[m].0 && *items@[m].1 == s[m].1,
                    j <= n,
                    res@.len() == base.len() + class_from_back(s.subrange(j as int, n as int), c).len(),
                    forall|m: int| 0 <= m < res@.len() ==> *(#[trigger] res@[m]).0 == (base + class_from_back(
                        s.subrange(j as int, n as int),
                        c,
                    ))[m].0 && *res@[m].1 == (base + class_from_back(s.subrange(j as int, n as int), c))[m].1.0,
                decreases j,
            {
                j = j - 1;
                proof {
                    assert(s.subrange(j as int, n as int).drop_first() =~= s.subrange(j + 1, n as int));
                    assert(s.subrange(j as int, n as int)[0] == s[j as int]);
                }
                let (k, e) = items[j];
                if get_freq_by_times(e.1) == c {
                    res.push((k, &e.0));
                }
            }
            proof {
                assert(s.subrange(0, n as int) =~= s);
                assert(listing_down(s, c as int) == base + class_from_back(s, c));
            }
            cc = c;
        }
        res
    }

    /// The keys as the cache lists them (see `listing`).
    pub fn keys(&self) -> (res: Vec<&K>)
        requires
            self.wf(),
        ensures
            res@.len() == listing(self@).len(),
            forall|m: int| 0 <= m < res@.len() ==> *(#[trigger] res@[m]) == listing(self@)[m].0,
    {
        let items = self.iter();
        let mut res: Vec<&K> = Vec::new();
        let mut i: usize = 0;
        while i < items.len()
            invariant
                items@.len() == listing(self@).len(),
                forall|m: int| 0 <= m < items@.len() ==> *(#[trigger] items@[m]).0 == listing(self@)[m].0,
                i <= items@.len(),
                res@.len() == i,
                forall|m: int| 0 <= m < i ==> *(#[trigger] res@[m]) == listing(self@)[m].0,
            decreases items@.len() - i,
        {
            res.push(items[i].0);
            i = i + 1;
        }
        res
    }

    /// The values as the cache lists them (see `listing`).
    pub fn values(&self) -> (res: Vec<&V>)
        requires
            self.wf(),
        ensures
            res@.len() == listing(self@).len(),
            forall|m: int| 0 <= m < res@.len() ==> *(#[trigger] res@[m]) == listing(self@)[m].1.0,
    {
        let items = self.iter();
        let mut res: Vec<&V> = Vec::new();
        let mut i: usize = 0;
        while i < items.len()
            invariant
                items@.len() == listing(self@).len(),
                forall|m: int| 0 <= m < items@.len() ==> *(#[trigger] items@[m]).1 == listing(self@)[m].1.0,
                i <= items@.len(),
                res@.len() == i,
                forall|m: int| 0 <= m < i ==> *(#[trigger] res@[m]) == listing(self@)[m].1.0,
            decreases items@.len() - i,
        {
            res.push(items[i].1);
            i = i + 1;
        }
        res
    }

    /// Empties the cache, giving its entries back in the order of eviction
    /// (see `drained`), and forgets the visits.
    pub fn drain(&mut self) -> (res: Vec<(K, V)>)
        requires
            old(self).wf(),
        ensures
            final(self).wf(),
            final(self)@ == Seq::<(K, (V, usize))>::empty(),
            final(self).spec_visits() == 0,
            res@ == drained(old(self)@),
            final(self).spec_capacity() == old(self).spec_capacity(),
            final(self).spec_default_count() == old(self).spec_default_count(),
            final(self).spec_reduce_count() == old(self).spec_reduce_count(),
    {
        let mut res: Vec<(K, V)> = Vec::new();
        while self.list.len() > 0
            invariant
                self.wf(),
                self.spec_capacity() == old(self).spec_capacity(),
                self.spec_default_count() == old(self).spec_default_count(),
                self.spec_reduce_count() == old(self).spec_reduce_count(),
                res@ + drained(self@) == drained(old(self)@),
            decreases self@.len(),
        {
            let ghost s = self@;
            let ghost before = res@;
            match self.pop_unusual() {
                Some(e) => {
                    proof {
                        let i = choose|i: int| #[trigger] is_unusual_last(s, i) && Some(e) == Some((s[i].0, s[i].1.0))
                            && self@ == s.remove(i);
                        let c = choose|i: int| is_unusual_last(s, i);
                        law_one_to_evict(s, i, c);
                        assert(drained(s) == seq![(s[i].0, s[i].1.0)] + drained(s.remove(i)));
                    }
                    res.push(e);
                    proof {
                        assert(res@ + drained(self@) =~= before + drained(s));
                    }
                },
                None => {},
            }
        }
        proof {
            assert(drained(self@) =~= Seq::<(K, V)>::empty());
            assert(res@ =~= drained(old(self)@));
        }
        self.clear();
        res
    }

    /// Raises the capacity by one when the cache is full.
    pub fn full_increase(&mut self)
        requires
            old(self).wf(),
            old(self).spec_capacity() < usize::MAX,
        ensures
            final(self).wf(),
            final(self)@ == old(self)@,
            final(self).spec_capacity() == if old(self)@.len() == old(self).spec_capacity() {
                old(self).spec_capacity() + 1
            } else {
                old(self).spec_capacity()
            },
            final(self).spec_visits() == old(self).spec_visits(),
            final(self).spec_default_count() == old(self).spec_default_count(),
            final(self).spec_reduce_count() == old(self).spec_reduce_count(),
    {
        if self.cap == self.list.len() {
            let _ = self.reserve(1);
        }
    }

    /// When the cache is full, lowers the capacity by one, evicting and
    /// giving back the entry a full cache evicts.
    pub fn full_decrease(&mut self) -> (res: Option<(K, V)>)
        requires
            old(self).wf(),
        ensures
            final(self).wf(),
            old(self)@.len() < old(self).spec_capacity() ==> res is None && *final(self) == *old(self),
            old(self)@.len() == old(self).spec_capacity() ==> {
                &&& final(self).spec_capacity() == if old(self).spec_capacity() > 0 { old(self).spec_capacity() - 1 } else { 0 }
                &&& old(self)@.len() == 0 ==> res is None && final(self)@ == old(self)@
                &&& old(self)@.len() > 0 ==> exists|i: int| #[trigger] is_unusual_last(old(self)@, i)
                    && res == Some((old(self)@[i].0, old(self)@[i].1.0)) && final(self)@ == old(self)@.remove(i)
            },
            final(self).spec_visits() == old(self).spec_visits(),
            final(self).spec_default_count() == old(self).spec_default_count(),
            final(self).spec_reduce_count() == old(self).spec_reduce_count(),
    {
        if self.cap == self.list.len() {
            let ret = self.pop_unusual();
            self.cap = self.cap.saturating_sub(1);
            ret
        } else {
            None
        }
    }

    /// Places the entry of key `k`, which is there, anew in front with one
    /// more visit, counting toward halving (see `settled`).
    fn attach_again(&mut self, k: &K)
        requires
            old(self).wf(),
            has_key(old(self)@, *k),
            old(self)@[key_pos(old(self)@, *k)].1.1 < usize::MAX,
            old(self).spec_visits() < usize::MAX,
        ensures
            final(self).wf(),
            (final(self)@, final(self).spec_visits()) == settled(
                seq![bumped(old(self)@[key_pos(old(self)@, *k)])] + old(self)@.remove(key_pos(old(self)@, *k)),
                0,
                old(self).spec_visits() + 1,
                old(self).spec_reduce_count(),
            ),
            has_key(final(self)@, *k),
            final(self)@[key_pos(final(self)@, *k)].1.0 == old(self)@[key_pos(old(self)@, *k)].1.0,
            final(self).spec_capacity() == old(self).spec_capacity(),
            final(self).spec_default_count() == old(self).spec_default_count(),
            final(self).spec_reduce_count() == old(self).spec_reduce_count(),
    {
        let ghost s = self.list@;
        let ghost p = key_pos(s, *k);
        proof {
            self.list.law_within_capacity();
        }
        match self.list.peek_mut(k) {
            Some(e) => {
                e.1 = e.1 + 1;
            },
            None => {},
        }
        self.visit_count = self.visit_count + 1;
        let ghost cur1 = self.list@;
        proof {
            assert(cur1 == s.update(p, bumped(s[p])));
            self.list.law_within_capacity();
            assert(cur1[p].0 == *k);
            assert(key_pos(cur1, *k) == p);
        }
        let _ = self.list.get(k);
        let ghost mid = self.list@;
        proof {
            assert(cur1.remove(p) =~= s.remove(p));
            assert(mid =~= seq![bumped(s[p])] + s.remove(p));
        }
        self.check_reduce(0);
        proof {
            lemma_settled_holds(mid, 0, (old(self).visit_count + 1) as nat, self.reduce_count as nat, 0);
            let q = choose|q: int| 0 <= q < self.list@.len() && self.list@[q].0 == mid[0].0 && self.list@[q].1.0 == mid[0].1.0;
            self.list.law_within_capacity();
            assert(has_key(self.list@, *k));
            assert(key_pos(self.list@, *k) == q);
        }
    }

    /// The value of key `k`: an entry that is there is placed anew in
    /// front with one more visit (see `settled`); else the value `f` makes
    /// is put under `k` as `capture_insert` puts a new key.
    pub fn get_or_insert<F>(&mut self, k: K, f: F) -> (res: &V)
        where
            F: FnOnce() -> V,
        requires
            old(self).wf(),
            old(self).spec_visits() < usize::MAX,
            old(self).spec_default_count() < usize::MAX,
            old(self)@.len() < usize::MAX - 1,
            old(self).spec_capacity() > 0,
            has_key(old(self)@, k) ==> old(self)@[key_pos(old(self)@, k)].1.1 < usize::MAX,
            !has_key(old(self)@, k) ==> f.requires(()),
        ensures
            final(self).wf(),
            final(self).spec_capacity() == old(self).spec_capacity(),
            final(self).spec_default_count() == old(self).spec_default_count(),
            final(self).spec_reduce_count() == old(self).spec_reduce_count(),
            fetched(
                old(self)@,
                old(self).spec_visits(),
                old(self).spec_default_count(),
                old(self).spec_reduce_count(),
                old(self).spec_capacity(),
                k,
                *res,
                final(self)@,
                final(self).spec_visits(),
            ),
            !has_key(old(self)@, k) ==> f.ensures((), *res),
    {
        if self.list.contains_key(&k) {
            self.attach_again(&k);
        } else {
            let v = f();
            let _ = self.capture_insert(k, v);
        }
        &self.list.index(&k).0
    }

    /// The value of key `k`, to change in place, found or put as
    /// `get_or_insert` does; the change is kept in the entry of `k`.
    pub fn get_or_insert_mut<F>(&mut self, k: K, f: F) -> (res: &mut V)
        where
            F: FnOnce() -> V,
        requires
            old(self).wf(),
            old(self).spec_visits() < usize::MAX,
            old(self).spec_default_count() < usize::MAX,
            old(self)@.len() < usize::MAX - 1,
            old(self).spec_capacity() > 0,
            has_key(old(self)@, k) ==> old(self)@[key_pos(old(self)@, k)].1.1 < usize::MAX,
            !has_key(old(self)@, k) ==> f.requires(()),
        ensures
            final(self).wf(),
            final(self).spec_capacity() == old(self).spec_capacity(),
            final(self).spec_default_count() == old(self).spec_default_count(),
            final(self).spec_reduce_count() == old(self).spec_reduce_count(),
            exists|mid: Seq<(K, (V, usize))>, mid_visits: nat|
                #[trigger] fetched(
                    old(self)@,
                    old(self).spec_visits(),
                    old(self).spec_default_count(),
                    old(self).spec_reduce_count(),
                    old(self).spec_capacity(),
                    k,
                    *res,
                    mid,
                    mid_visits,
                ) && final(self).spec_visits() == mid_visits && final(self)@ == mid.update(
                    key_pos(mid, k),
                    (k, (*final(res), mid[key_pos(mid, k)].1.1)),
                ),
            !has_key(old(self)@, k) ==> f.ensures((), *res),
    {
        if self.list.contains_key(&k) {
            self.attach_again(&k);
        } else {
            let v = f();
            let _ = self.capture_insert(k, v);
        }
        let ghost mid = self@;
        let ghost mid_visits = self.spec_visits();
        proof {
            self.list.law_within_capacity();
            assert(fetched(
                old(self)@,
                old(self).spec_visits(),
                old(self).spec_default_count(),
                old(self).spec_reduce_count(),
                old(self).spec_capacity(),
                k,
                mid[key_pos(mid, k)].1.0,
                mid,
                mid_visits,
            ));
        }
        match self.list.peek_mut(&k) {
            Some(e) => {
                let r = &mut e.0;
                proof {
                    assert(fetched(
                        old(self)@,
                        old(self).spec_visits(),
                        old(self).spec_default_count(),
                        old(self).spec_reduce_count(),
                        old(self).spec_capacity(),
                        k,
                        *r,
                        mid,
                        mid_visits,
                    ));
                }
                r
            },
            None => vstd::pervasive::unreached(),
        }
    }

    /// The value of key `k`, found or put (a default value) as
    /// `get_or_insert` does.
    pub fn get_or_insert_default(&mut self, k: K) -> (res: &V)
        where
            V: Default,
        requires
            old(self).wf(),
            old(self).spec_visits() < usize::MAX,
            old(self).spec_default_count() < usize::MAX,
            old(self)@.len() < usize::MAX - 1,
            old(self).spec_capacity() > 0,
            has_key(old(self)@, k) ==> old(self)@[key_pos(old(self)@, k)].1.1 < usize::MAX,
        ensures
            final(self).wf(),
            final(self).spec_capacity() == old(self).spec_capacity(),
            final(self).spec_default_count() == old(self).spec_default_count(),
            final(self).spec_reduce_count() == old(self).spec_reduce_count(),
            fetched(
                old(self)@,
                old(self).spec_visits(),
                old(self).spec_default_count(),
                old(self).spec_reduce_count(),
                old(self).spec_capacity(),
                k,
                *res,
                final(self)@,
                final(self).spec_visits(),
            ),
    {
        self.get_or_insert(k, || V::default())
    }

    /// The value of key `k`, to change in place, found or put (a default
    /// value) as `get_or_insert_mut` does.
    pub fn get_or_insert_default_mut(&mut self, k: K) -> (res: &mut V)
        where
            V: Default,
        requires
            old(self).wf(),
            old(self).spec_visits() < usize::MAX,
            old(self).spec_default_count() < usize::MAX,
            old(self)@.len() < usize::MAX - 1,
            old(self).spec_capacity() > 0,
            has_key(old(self)@, k) ==> old(self)@[key_pos(old(self)@, k)].1.1 < usize::MAX,
        ensures
            final(self).wf(),
            final(self).spec_capacity() == old(self).spec_capacity(),
            final(self).spec_default_count() == old(self).spec_default_count(),
            final(self).spec_reduce_count() == old(self).spec_reduce_count(),
            exists|mid: Seq<(K, (V, usize))>, mid_visits: nat|
                #[trigger] fetched(
                    old(self)@,
                    old(self).spec_visits(),
                    old(self).spec_default_count(),
                    old(self).spec_reduce_count(),
                    old(self).spec_capacity(),
                    k,
                    *res,
                    mid,
                    mid_visits,
                ) && final(self).spec_visits() == mid_visits && final(self)@ == mid.update(
                    key_pos(mid, k),
                    (k, (*final(res), mid[key_pos(mid, k)].1.1)),
                ),
    {
        self.get_or_insert_mut(k, || V::default())
    }

    /// The time from which the entry of key `k` counts as expired, as kept.
    fn expiry_of(&self, k: &K) -> (r: u64)
        requires
            self.wf(),
        ensures
            r == self.expiry(*k),
    {
        proof {
            self.list.lemma_models();
        }
        match self.expire.get(k) {
            Some(e) => *e,
            None => u64::MAX,
        }
    }

    /// At time `now` (in milliseconds), once entries with a time to live
    /// exist and the time of the next sweep has come, removes every entry
    /// whose expiry is not after `now` and puts the next sweep
    /// `check_step` later (saturating); else changes nothing.
    pub fn clear_expire_at(&mut self, now: u64)
        requires
            old(self).wf(),
        ensures
            final(self).wf(),
            !old(self).spec_has_ttl() || now < old(self).spec_check_next() ==> *final(self) == *old(self),
            old(self).spec_has_ttl() && now >= old(self).spec_check_next() ==> {
                &&& final(self).spec_check_next() == if now as int + old(self).spec_check_step() > u64::MAX {
                    u64::MAX
                } else {
                    (now + old(self).spec_check_step()) as u64
                }
                &&& forall|x: K| #[trigger] has_key(final(self)@, x) <==> (has_key(old(self)@, x) && old(self).expiry(x) > now)
                &&& forall|i: int| 0 <= i < old(self)@.len() && has_key(final(self)@, (#[trigger] old(self)@[i]).0)
                    ==> final(self)@[key_pos(final(self)@, old(self)@[i].0)] == old(self)@[i]
            },
            final(self).spec_capacity() == old(self).spec_capacity(),
            final(self).spec_visits() == old(self).spec_visits(),
            final(self).spec_default_count() == old(self).spec_default_count(),
            final(self).spec_reduce_count() == old(self).spec_reduce_count(),
            final(self).spec_has_ttl() == old(self).spec_has_ttl(),
            final(self).spec_check_step() == old(self).spec_check_step(),
            final(self)@.len() <= old(self)@.len(),
            forall|x: K| has_key(final(self)@, x) ==> #[trigger] final(self).expiry(x) == old(self).expiry(x),
    {
        if !self.has_ttl || now < self.check_next {
            return;
        }
        self.check_next = if now <= u64::MAX - self.check_step {
            now + self.check_step
        } else {
            u64::MAX
        };
        let ghost s = self@;
        let ghost ttl0 = *self;
        let keys = self.copied_keys();
        proof {
            self.list.lemma_models();
            self.law_within_capacity();
        }
        let mut j: usize = 0;
        while j < keys.len()
            invariant
                self.wf(),
                self.spec_capacity() == old(self).spec_capacity(),
                self.spec_visits() == old(self).spec_visits(),
                self.spec_default_count() == old(self).spec_default_count(),
                self.spec_reduce_count() == old(self).spec_reduce_count(),
                self.keeps_ttl(&ttl0),
                ttl0.spec_has_ttl() == old(self).spec_has_ttl(),
                ttl0.spec_check_step() == old(self).spec_check_step(),
                forall|x: K| #[trigger] ttl0.expiry(x) == old(self).expiry(x),
                obeys_key_model::<K>(),
                s == old(self)@,
                distinct_keys(s),
                keys@.len() == s.len(),
                forall|m: int| 0 <= m < s.len() ==> #[trigger] keys@[m] == s[m].0,
                j <= s.len(),
                self@.len() <= s.len(),
                forall|k: K| #[trigger] has_key(self@, k) ==> has_key(s, k),
                forall|i: int| j <= i < s.len() ==> has_key(self@, (#[trigger] s[i]).0) && self@[key_pos(self@, s[i].0)] == s[i],
                forall|i: int| 0 <= i < j ==> {
                    let e = #[trigger] s[i];
                    &&& has_key(self@, e.0) ==> self@[key_pos(self@, e.0)] == e && old(self).expiry(e.0) > now
                    &&& !has_key(self@, e.0) ==> old(self).expiry(e.0) <= now
                },
            decreases s.len() - j,
        {
            let k = keys[j];
            proof {
                assert(has_key(self@, s[j as int].0));
            }
            let e = self.expiry_of(&k);
            proof {
                self.law_within_capacity();
                assert(self.expiry(k) == ttl0.expiry(k));
                assert(e == old(self).expiry(k));
                assert(s[j as int].0 == k);
            }
            let ghost cur = self@;
            if now >= e {
                let _ = self.remove(&k);
                proof {
                    self.law_within_capacity();
                    let p = key_pos(cur, k);
                    assert forall|kk: K| #[trigger] has_key(self@, kk) implies has_key(s, kk) by {
                        if kk != k {
                            lemma_remove_keeps(cur, p, kk);
                        } else {
                            assert(has_key(s, kk));
                        }
                    }
                    assert forall|i: int| j < i < s.len() implies has_key(self@, (#[trigger] s[i]).0) && self@[key_pos(self@, s[i].0)] == s[i] by {
                        assert(s[i].0 != s[j as int].0);
                        lemma_remove_keeps(cur, p, s[i].0);
                    }
                    assert forall|i: int| 0 <= i < j implies {
                        let e = #[trigger] s[i];
                        &&& has_key(self@, e.0) ==> self@[key_pos(self@, e.0)] == e && old(self).expiry(e.0) > now
                        &&& !has_key(self@, e.0) ==> old(self).expiry(e.0) <= now
                    } by {
                        assert(s[i].0 != s[j as int].0);
                        lemma_remove_keeps(cur, p, s[i].0);
                    }
                    assert(!has_key(self@, k)) by {
                        if has_key(self@, k) {
                            let m = key_pos(self@, k);
                            let m2 = if m < p { m } else { m + 1 };
                            assert(cur[m2] == self@[m]);
                            if m2 < p {
                                assert(cur[m2].0 != cur[p].0);
                            } else {
                                assert(cur[p].0 != cur[m2].0);
                            }
                        }
                    }
                }
            }
            j = j + 1;
        }
        proof {
            assert forall|x: K| #[trigger] has_key(self@, x) <==> (has_key(s, x) && old(self).expiry(x) > now) by {
                if has_key(s, x) {
                    let i = key_pos(s, x);
                    assert(s[i].0 == x);
                }
            }
            assert forall|x: K| has_key(self@, x) implies #[trigger] self.expiry(x) == old(self).expiry(x) by {
                assert(ttl0.expiry(x) == old(self).expiry(x));
            }
        }
    }

    /// Puts `(k, v)` at time `now` (in milliseconds) with a time to live of
    /// `ttl` seconds: nothing is done for a zero `ttl`; else expired entries
    /// are swept (see `clear_expire_at`), the entry is put as
    /// `capture_insert` puts it, and it expires `ttl` seconds after `now`.
    pub fn capture_insert_with_ttl_at(&mut self, k: K, v: V, ttl: u64, now: u64) -> (res: Option<(K, V, bool)>)
        requires
            old(self).wf(),
            old(self).spec_visits() < usize::MAX,
            old(self).spec_default_count() < usize::MAX,
            old(self)@.len() < usize::MAX - 1,
            old(self).spec_capacity() > 0,
            has_key(old(self)@, k) ==> old(self)@[key_pos(old(self)@, k)].1.1 < usize::MAX,
        ensures
            final(self).wf(),
            ttl == 0 ==> res is None && *final(self) == *old(self),
            ttl > 0 ==> {
                &&& final(self).spec_has_ttl()
                &&& has_key(final(self)@, k)
                &&& final(self)@[key_pos(final(self)@, k)].1.0 == v
                &&& final(self).expiry(k) == expiry_after(ttl, now)
                &&& forall|x: K| #[trigger] has_key(final(self)@, x) ==> x == k || has_key(old(self)@, x)
                &&& now >= old(self).spec_check_next() ==> forall|x: K| #[trigger] has_key(final(self)@, x) && x != k
                    ==> old(self).expiry(x) > now
                &&& forall|x: K| x != k && has_key(final(self)@, x) ==> #[trigger] final(self).expiry(x) == old(self).expiry(x)
            },
            final(self).spec_capacity() == old(self).spec_capacity(),
    {
        if ttl == 0 {
            return None;
        }
        self.has_ttl = true;
        let ghost before = *self;
        self.clear_expire_at(now);
        proof {
            self.law_within_capacity();
            self.list.lemma_models();
            if has_key(self@, k) {
                let i = key_pos(old(self)@, k);
                assert(old(self)@[i].0 == k);
                assert(self@[key_pos(self@, k)] == old(self)@[i]);
            }
        }
        let ghost mid = *self;
        let res = self.capture_insert_entry(k, v);
        let ghost after = *self;
        let t = expiry_time(ttl, now);
        self.expire.insert(k, t);
        proof {
            assert(before.expire@ == old(self).expire@);
            assert forall|x: K| #[trigger] has_key(self@, x) && x != k implies has_key(mid@, x) by {
                lemma_capture_keys(mid@, self@, mid.spec_visits(), mid.spec_default_count(), mid.spec_reduce_count(), mid.spec_capacity(), k, v, self.spec_visits(), x);
            }
            assert forall|x: K| x != k && has_key(self@, x) implies #[trigger] self.expiry(x) == old(self).expiry(x) by {
                assert(has_key(mid@, x));
                assert(mid.expiry(x) == before.expiry(x));
                assert(after.expiry(x) == mid.expiry(x));
            }
        }
        res
    }

    /// Puts `(k, v)` with a time to live of `ttl` seconds at time `now`, as
    /// `capture_insert_with_ttl_at` does, and gives the old value of `k`.
    pub fn insert_with_ttl_at(&mut self, k: K, v: V, ttl: u64, now: u64) -> (res: Option<V>)
        requires
            old(self).wf(),
            old(self).spec_visits() < usize::MAX,
            old(self).spec_default_count() < usize::MAX,
            old(self)@.len() < usize::MAX - 1,
            old(self).spec_capacity() > 0,
            has_key(old(self)@, k) ==> old(self)@[key_pos(old(self)@, k)].1.1 < usize::MAX,
        ensures
            final(self).wf(),
            ttl == 0 ==> res is None && *final(self) == *old(self),
            ttl > 0 ==> {
                &&& has_key(final(self)@, k)
                &&& final(self)@[key_pos(final(self)@, k)].1.0 == v
                &&& final(self).expiry(k) == expiry_after(ttl, now)
            },
    {
        match self.capture_insert_with_ttl_at(k, v, ttl, now) {
            Some((_, old_v, _)) => Some(old_v),
            None => None,
        }
    }

    /// Whether the entry of key `k` is there and, entries with a time to live
    /// existing, expired at time `now`.
    pub open spec fn expired_at(&self, k: K, now: u64) -> bool {
        &&& self.spec_has_ttl()
        &&& has_key(self@, k)
        &&& now >= self.expiry(k)
    }

    /// Removes the entry of key `k` where it is expired at time `now`, and
    /// tells whether it did.
    fn drop_if_expired(&mut self, k: &K, now: u64) -> (res: bool)
        requires
            old(self).wf(),
        ensures
            final(self).wf(),
            res == old(self).expired_at(*k, now),
            res ==> final(self)@ == old(self)@.remove(key_pos(old(self)@, *k)),
            !res ==> *final(self) == *old(self),
            final(self).keeps_ttl(old(self)),
            final(self).spec_capacity() == old(self).spec_capacity(),
            final(self).spec_visits() == old(self).spec_visits(),
            final(self).spec_default_count() == old(self).spec_default_count(),
            final(self).spec_reduce_count() == old(self).spec_reduce_count(),
    {
        if !self.has_ttl || !self.list.contains_key(k) {
            return false;
        }
        let e = self.expiry_of(k);
        if now >= e {
            let _ = self.remove(k);
            true
        } else {
            false
        }
    }

    /// At time `now`, the value of key `k`, counting a visit (see
    /// `visited`), as `get` gives it; an entry expired at `now` is removed
    /// instead and gives `None`.
    pub fn get_at(&mut self, k: &K, now: u64) -> (res: Option<&V>)
        requires
            old(self).wf(),
            has_key(old(self)@, *k) ==> old(self)@[key_pos(old(self)@, *k)].1.1 < usize::MAX,
            old(self).spec_visits() < usize::MAX,
        ensures
            final(self).wf(),
            final(self).spec_capacity() == old(self).spec_capacity(),
            final(self).keeps_ttl(old(self)),
            old(self).expired_at(*k, now) ==> res is None && final(self)@ == old(self)@.remove(key_pos(old(self)@, *k)),
            !old(self).expired_at(*k, now) ==> {
                &&& res is Some <==> has_key(old(self)@, *k)
                &&& res matches Some(v) ==> {
                    &&& *v == old(self)@[key_pos(old(self)@, *k)].1.0
                    &&& (final(self)@, final(self).spec_visits()) == visited(
                        old(self)@,
                        old(self).spec_visits(),
                        old(self).spec_reduce_count(),
                        key_pos(old(self)@, *k),
                    )
                }
                &&& res is None ==> final(self)@ == old(self)@
            },
    {
        if self.drop_if_expired(k, now) {
            return None;
        }
        self.get(k)
    }

    /// At time `now`, gives the entry of key `k` a time to live of `ttl`
    /// seconds, counting a visit of it, and tells whether it is there.  An
    /// entry expired at `now` is removed instead.
    pub fn set_ttl_at(&mut self, k: &K, ttl: u64, now: u64) -> (res: bool)
        requires
            old(self).wf(),
            has_key(old(self)@, *k) ==> old(self)@[key_pos(old(self)@, *k)].1.1 < usize::MAX,
            old(self).spec_visits() < usize::MAX,
        ensures
            final(self).wf(),
            old(self).expired_at(*k, now) ==> !res && final(self)@ == old(self)@.remove(key_pos(old(self)@, *k)),
            !has_key(old(self)@, *k) ==> !res && *final(self) == *old(self),
            has_key(old(self)@, *k) && !old(self).expired_at(*k, now) ==> {
                &&& res
                &&& (final(self)@, final(self).spec_visits()) == visited(
                    old(self)@,
                    old(self).spec_visits(),
                    old(self).spec_reduce_count(),
                    key_pos(old(self)@, *k),
                )
                &&& final(self).expiry(*k) == expiry_after(ttl, now)
                &&& final(self).spec_has_ttl()
                &&& forall|x: K| x != *k ==> #[trigger] final(self).expiry(x) == old(self).expiry(x)
            },
            final(self).spec_capacity() == old(self).spec_capacity(),
    {
        if self.drop_if_expired(k, now) {
            return false;
        }
        if !self.list.contains_key(k) {
            return false;
        }
        self.try_fix_entry(k);
        self.has_ttl = true;
        proof {
            self.list.lemma_models();
        }
        let t = expiry_time(ttl, now);
        self.expire.insert(*k, t);
        true
    }

    /// At time `now`, takes the time to live off the entry of key `k`, as
    /// `set_ttl_at` with the largest time does.
    pub fn del_ttl_at(&mut self, k: &K, now: u64)
        requires
            old(self).wf(),
            has_key(old(self)@, *k) ==> old(self)@[key_pos(old(self)@, *k)].1.1 < usize::MAX,
            old(self).spec_visits() < usize::MAX,
        ensures
            final(self).wf(),
            old(self).expired_at(*k, now) ==> final(self)@ == old(self)@.remove(key_pos(old(self)@, *k)),
            !has_key(old(self)@, *k) ==> *final(self) == *old(self),
            has_key(old(self)@, *k) && !old(self).expired_at(*k, now) ==> {
                &&& (final(self)@, final(self).spec_visits()) == visited(
                    old(self)@,
                    old(self).spec_visits(),
                    old(self).spec_reduce_count(),
                    key_pos(old(self)@, *k),
                )
                &&& final(self).expiry(*k) == u64::MAX
            },
    {
        let _ = self.set_ttl_at(k, u64::MAX, now);
    }

    /// At time `now`, the whole seconds the entry of key `k` has left
    /// (`u64::MAX` for no time to live), counting a visit of it; `None`
    /// where it is not there.  An entry expired at `now` is removed instead.
    pub fn get_ttl_at(&mut self, k: &K, now: u64) -> (res: Option<u64>)
        requires
            old(self).wf(),
            has_key(old(self)@, *k) ==> old(self)@[key_pos(old(self)@, *k)].1.1 < usize::MAX,
            old(self).spec_visits() < usize::MAX,
        ensures
            final(self).wf(),
            old(self).expired_at(*k, now) ==> res is None && final(self)@ == old(self)@.remove(key_pos(old(self)@, *k)),
            !has_key(old(self)@, *k) ==> res is None && *final(self) == *old(self),
            has_key(old(self)@, *k) && !old(self).expired_at(*k, now) ==> {
                &&& res == Some(seconds_left(old(self).expiry(*k), now))
                &&& (final(self)@, final(self).spec_visits()) == visited(
                    old(self)@,
                    old(self).spec_visits(),
                    old(self).spec_reduce_count(),
                    key_pos(old(self)@, *k),
                )
            },
            final(self).keeps_ttl(old(self)),
    {
        if self.drop_if_expired(k, now) {
            return None;
        }
        if !self.list.contains_key(k) {
            return None;
        }
        self.try_fix_entry(k);
        let e = self.expiry_of(k);
        Some(seconds_until(e, now))
    }

    /// Removes the entry of key `k` and gives it with the whole seconds it
    /// had left at time `now` (`u64::MAX` for no time to live).
    pub fn remove_with_ttl_at(&mut self, k: &K, now: u64) -> (res: Option<(K, V, u64)>)
        requires
            old(self).wf(),
        ensures
            final(self).wf(),
            has_key(old(self)@, *k) ==> {
                let p = key_pos(old(self)@, *k);
                &&& res == Some((old(self)@[p].0, old(self)@[p].1.0, seconds_left(old(self).expiry(*k), now)))
                &&& final(self)@ == old(self)@.remove(p)
            },
            !has_key(old(self)@, *k) ==> res is None && final(self)@ == old(self)@,
            final(self).keeps_ttl(old(self)),
    {
        let e = self.expiry_of(k);
        match self.remove(k) {
            Some((key, v)) => Some((key, v, seconds_until(e, now))),
            None => None,
        }
    }

    /// The time, in seconds, between two sweeps of expired entries.
    pub fn get_check_step(&self) -> (res: u64)
        ensures
            res == self.spec_check_step(),
    {
        self.check_step
    }

    /// Sets the time between two sweeps to `check_step` seconds, the next
    /// one `check_step` seconds after time `now`.
    pub fn set_check_step_at(&mut self, check_step: u64, now: u64)
        requires
            old(self).wf(),
        ensures
            final(self).wf(),
            final(self)@ == old(self)@,
            final(self).spec_check_step() == check_step,
            final(self).spec_check_next() == expiry_after(check_step, now),
            final(self).spec_has_ttl() == old(self).spec_has_ttl(),
            forall|x: K| #[trigger] final(self).expiry(x) == old(self).expiry(x),
            final(self).spec_capacity() == old(self).spec_capacity(),
            final(self).spec_visits() == old(self).spec_visits(),
    {
        self.check_step = check_step;
        self.check_next = expiry_time(check_step, now);
    }

    /// Keeps the entries for which `f` answers `true` and removes the
    /// others; the entries kept keep their count and their order.
    pub fn retain<F>(&mut self, f: F)
        where
            F: Fn(&K, &V) -> bool,
        requires
            old(self).wf(),
            forall|k: &K, v: &V| #[trigger] f.requires((k, v)),
        ensures
            final(self).wf(),
            final(self).spec_capacity() == old(self).spec_capacity(),
            final(self).spec_visits() == old(self).spec_visits(),
            final(self).spec_default_count() == old(self).spec_default_count(),
            final(self).spec_reduce_count() == old(self).spec_reduce_count(),
            forall|k: K| #[trigger] has_key(final(self)@, k) ==> has_key(old(self)@, k),
            forall|i: int| 0 <= i < old(self)@.len() ==> {
                let e = #[trigger] old(self)@[i];
                &&& has_key(final(self)@, e.0) ==> final(self)@[key_pos(final(self)@, e.0)] == e && f.ensures((&e.0, &e.1.0), true)
                &&& !has_key(final(self)@, e.0) ==> f.ensures((&e.0, &e.1.0), false)
            },
            forall|a: int, b: int| 0 <= a < b < final(self)@.len() ==>
                key_pos(old(self)@, (#[trigger] final(self)@[a]).0) < key_pos(old(self)@, (#[trigger] final(self)@[b]).0),
    {
        let ghost s = self@;
        let keys = self.copied_keys();
        proof {
            self.law_within_capacity();
            assert forall|a: int, b: int| 0 <= a < b < s.len() implies
                key_pos(s, (#[trigger] s[a]).0) < key_pos(s, (#[trigger] s[b]).0) by {
                lemma_pos_of_entry(s, a);
                lemma_pos_of_entry(s, b);
            }
        }
        let mut j: usize = 0;
        while j < keys.len()
            invariant
                self.wf(),
                self.spec_capacity() == old(self).spec_capacity(),
                self.spec_visits() == old(self).spec_visits(),
                self.spec_default_count() == old(self).spec_default_count(),
                self.spec_reduce_count() == old(self).spec_reduce_count(),
                s == old(self)@,
                distinct_keys(s),
                keys@.len() == s.len(),
                forall|m: int| 0 <= m < s.len() ==> #[trigger] keys@[m] == s[m].0,
                forall|k: &K, v: &V| #[trigger] f.requires((k, v)),
                j <= s.len(),
                forall|k: K| #[trigger] has_key(self@, k) ==> has_key(s, k),
                forall|i: int| j <= i < s.len() ==> has_key(self@, (#[trigger] s[i]).0) && self@[key_pos(self@, s[i].0)] == s[i],
                forall|i: int| 0 <= i < j ==> {
                    let e = #[trigger] s[i];
                    &&& has_key(self@, e.0) ==> self@[key_pos(self@, e.0)] == e && f.ensures((&e.0, &e.1.0), true)
                    &&& !has_key(self@, e.0) ==> f.ensures((&e.0, &e.1.0), false)
                },
                forall|a: int, b: int| 0 <= a < b < self@.len() ==>
                    key_pos(s, (#[trigger] self@[a]).0) < key_pos(s, (#[trigger] self@[b]).0),
            decreases s.len() - j,
        {
            let k = keys[j];
            proof {
                assert(has_key(self@, s[j as int].0));
            }
            let keep = match self.list.raw_get(&k) {
                Some(e) => f(&k, &e.0),
                None => true,
            };
            proof {
                self.law_within_capacity();
            }
            let ghost cur = self@;
            if !keep {
                let _ = self.remove(&k);
                proof {
                    self.law_within_capacity();
                    let p = key_pos(cur, k);
                    assert forall|kk: K| #[trigger] has_key(self@, kk) implies has_key(s, kk) by {
                        if kk != k {
                            lemma_remove_keeps(cur, p, kk);
                        } else {
                            assert(has_key(s, kk));
                        }
                    }
                    assert forall|i: int| j < i < s.len() implies has_key(self@, (#[trigger] s[i]).0) && self@[key_pos(self@, s[i].0)] == s[i] by {
                        assert(s[i].0 != s[j as int].0);
                        lemma_remove_keeps(cur, p, s[i].0);
                    }
                    assert forall|i: int| 0 <= i < j implies {
                        let e = #[trigger] s[i];
                        &&& has_key(self@, e.0) ==> self@[key_pos(self@, e.0)] == e && f.ensures((&e.0, &e.1.0), true)
                        &&& !has_key(self@, e.0) ==> f.ensures((&e.0, &e.1.0), false)
                    } by {
                        assert(s[i].0 != s[j as int].0);
                        lemma_remove_keeps(cur, p, s[i].0);
                    }
                    assert(!has_key(self@, k)) by {
                        if has_key(self@, k) {
                            let m = key_pos(self@, k);
                            let m2 = if m < p { m } else { m + 1 };
                            assert(cur[m2] == self@[m]);
                            if m2 < p {
                                assert(cur[m2].0 != cur[p].0);
                            } else {
                                assert(cur[p].0 != cur[m2].0);
                            }
                        }
                    }
                    assert forall|a: int, b: int| 0 <= a < b < self@.len() implies
                        key_pos(s, (#[trigger] self@[a]).0) < key_pos(s, (#[trigger] self@[b]).0) by {
                        let a2 = if a < p { a } else { a + 1 };
                        let b2 = if b < p { b } else { b + 1 };
                        assert(self@[a] == cur[a2] && self@[b] == cur[b2]);
                    }
                }
            }
            j = j + 1;
        }
    }
}


impl<K: Hash + Eq + Copy, V: Clone, S: BuildHasher + Clone> LfuCache<K, V, S> {
    /// A new cache of the same capacity and hash builder, with the default
    /// settings, into which the entries are put anew, from the last one
    /// listed to the first: the copy lists them in the same order, each
    /// with the count of a new entry.
    pub fn clone(&self) -> (res: Self)
        requires
            self.wf(),
            self.spec_capacity() <= usize::MAX / 100,
        ensures
            res.wf(),
            res.spec_capacity() == if self.spec_capacity() == 0 { 1 } else { self.spec_capacity() },
            res.spec_default_count() == 4,
            res.spec_reduce_count() == res.spec_capacity() * 100,
            res@.len() == listing(self@).len(),
            res.spec_visits() == res@.len(),
            forall|m: int| 0 <= m < res@.len() ==> (#[trigger] res@[m]).0 == listing(self@)[m].0
                && cloned::<V>(listing(self@)[m].1.0, res@[m].1.0) && res@[m].1.1 == 5,
    {
        proof {
            self.list.lemma_models();
            self.list.law_within_capacity();
            lemma_listing_distinct(self@, 0);
        }
        let ghost l = listing(self@);
        let hb = self.hasher().clone();
        let mut res = LfuCache::with_hasher(self.cap, hb);
        let items = self.iter();
        let n = items.len();
        proof {
            assert(n <= self@.len()) by {
                assert forall|m: int| 0 <= m < l.len() implies self@.contains(#[trigger] l[m]) by {
                }
                lemma_distinct_within(self@, l);
            }
        }
        let mut i = n;
        while i > 0
            invariant
                res.wf(),
                res.spec_capacity() == if self.spec_capacity() == 0 { 1 } else { self.spec_capacity() },
                res.spec_capacity() <= usize::MAX / 100,
                res.spec_default_count() == 4,
                res.spec_reduce_count() == res.spec_capacity() * 100,
                n == l.len(),
                n <= self@.len(),
                self@.len() <= self.spec_capacity(),
                items@.len() == n,
                forall|m: int| 0 <= m < n ==> *(#[trigger] items@[m]).0 == l[m].0 && *items@[m].1 == l[m].1.0,
                distinct_keys(l),
                i <= n,
                res@.len() == n - i,
                res.spec_visits() == n - i,
                forall|m: int| 0 <= m < res@.len() ==> (#[trigger] res@[m]).0 == l[i + m].0
                    && cloned::<V>(l[i + m].1.0, res@[m].1.0) && res@[m].1.1 == 5,
            decreases i,
        {
            i = i - 1;
            let (k, v) = items[i];
            let nv = v.clone();
            proof {
                assert(!has_key(res@, *k)) by {
                    if has_key(res@, *k) {
                        let m = choose|m: int| 0 <= m < res@.len() && (#[trigger] res@[m]).0 == *k;
                        assert(l[i + 1 + m].0 == l[i as int].0);
                    }
                }
                assert(res@.len() < res.spec_capacity());
            }
            let ghost before = res@;
            let _ = res.insert(*k, nv);
            proof {
                assert(res.spec_visits() == n - i) by {
                    assert((n - i - 1) + 1 < res.spec_capacity() * 100) by (nonlinear_arith)
                        requires
                            n - i <= res.spec_capacity(),
                            res.spec_capacity() >= 1,
                    {
                    }
                }
                assert(res@ == seq![(*k, (nv, 5usize))] + before);
                assert forall|m: int| 0 <= m < res@.len() implies (#[trigger] res@[m]).0 == l[i + m].0
                    && cloned::<V>(l[i + m].1.0, res@[m].1.0) && res@[m].1.1 == 5 by {
                    if m > 0 {
                        assert(res@[m] == before[m - 1]);
                    }
                }
            }
        }
        res
    }
}

impl<K: Hash + Eq + Copy, V: PartialEq, S: BuildHasher> LfuCache<K, V, S> {
    /// Whether both caches hold the same keys with equal values (order and
    /// counts do not count).
    pub fn eq(&self, other: &Self) -> (res: bool)
        requires
            self.wf(),
            other.wf(),
        ensures
            V::obeys_eq_spec() ==> (res <==> self@.len() == other@.len() && forall|m: int| 0 <= m < self@.len()
                ==> has_key(other@, (#[trigger] self@[m]).0) && self@[m].1.0.eq_spec(
                &other@[key_pos(other@, self@[m].0)].1.0,
            )),
    {
        if self.len() != other.len() {
            return false;
        }
        let items = self.list.iter();
        let mut i: usize = 0;
        while i < items.len()
            invariant
                self.wf(),
                other.wf(),
                self@.len() == other@.len(),
                items@.len() == self@.len(),
                forall|m: int| 0 <= m < items@.len() ==> *(#[trigger] items@[m]).0 == self@[m].0 && *items@[m].1 == self@[m].1,
                i <= items@.len(),
                V::obeys_eq_spec() ==> forall|m: int| 0 <= m < i ==> has_key(other@, (#[trigger] self@[m]).0)
                    && self@[m].1.0.eq_spec(&other@[key_pos(other@, self@[m].0)].1.0),
            decreases items@.len() - i,
        {
            let (k, e) = items[i];
            match other.raw_get(k) {
                Some(ov) => {
                    if !(e.0 == *ov) {
                        return false;
                    }
                },
                None => {
                    return false;
                },
            }
            i = i + 1;
        }
        true
    }
}

} // verus!
