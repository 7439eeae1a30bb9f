use std::cmp::Ordering;
use vstd::multiset::Multiset;
use vstd::prelude::*;
use vstd::std_specs::cmp::PartialOrdSpec;

verus! {

broadcast use vstd::seq_lib::group_to_multiset_ensures;

/// The closure answers every comparison of `a` and `b` with `lt(a, b)`.
pub open spec fn answers<T, F: Fn(&T, &T) -> bool>(f: F, lt: spec_fn(T, T) -> bool) -> bool {
    &&& forall|a: &T, b: &T| #[trigger] f.requires((a, b))
    &&& forall|a: &T, b: &T, r: bool| #[trigger] f.ensures((a, b), r) ==> r == lt(*a, *b)
}

/// The closure answers by some strict weak order.
pub open spec fn sorts_by<T, F: Fn(&T, &T) -> bool>(f: F) -> bool {
    exists|lt: spec_fn(T, T) -> bool| strict_weak_order(lt) && answers(f, lt)
}

/// A strict weak order by which the closure answers.
pub open spec fn order_of<T, F: Fn(&T, &T) -> bool>(f: F) -> spec_fn(T, T) -> bool {
    choose|lt: spec_fn(T, T) -> bool| strict_weak_order(lt) && answers(f, lt)
}

/// `lt` is a strict weak order: irreflexive, transitive, and such that
/// "not before" is transitive too, so that sorting by it makes sense.
#[verifier::opaque]
pub open spec fn strict_weak_order<T>(lt: spec_fn(T, T) -> bool) -> bool {
    &&& forall|a: T| !#[trigger] lt(a, a)
    &&& forall|a: T, b: T, c: T| #[trigger] lt(a, b) && #[trigger] lt(b, c) ==> lt(a, c)
    &&& forall|a: T, b: T, c: T| !#[trigger] lt(a, b) && !#[trigger] lt(b, c) ==> !lt(a, c)
}

/// No element of `s` comes before an element placed earlier.
pub open spec fn sorted_by<T>(s: Seq<T>, lt: spec_fn(T, T) -> bool) -> bool {
    forall|i: int, j: int| 0 <= i < j < s.len() ==> !lt(#[trigger] s[j], #[trigger] s[i])
}

/// What a closure that answers by `lt` answers for `a` and `b`.
proof fn lemma_answer<T, F: Fn(&T, &T) -> bool>(f: F, lt: spec_fn(T, T) -> bool, a: T, b: T, r: bool)
    requires
        answers(f, lt),
        f.ensures((&a, &b), r),
    ensures
        r == lt(a, b),
{
}

/// A strict weak order is irreflexive.
pub proof fn lemma_irreflexive<T>(lt: spec_fn(T, T) -> bool, a: T)
    requires
        strict_weak_order(lt),
    ensures
        !lt(a, a),
{
    reveal(strict_weak_order);
}

/// A strict weak order is transitive.
pub proof fn lemma_transitive<T>(lt: spec_fn(T, T) -> bool, a: T, b: T, c: T)
    requires
        strict_weak_order(lt),
        lt(a, b),
        lt(b, c),
    ensures
        lt(a, c),
{
    reveal(strict_weak_order);
}

/// "Not before" is transitive for a strict weak order.
pub proof fn lemma_not_before<T>(lt: spec_fn(T, T) -> bool, a: T, b: T, c: T)
    requires
        strict_weak_order(lt),
        !lt(a, b),
        !lt(b, c),
    ensures
        !lt(a, c),
{
    reveal(strict_weak_order);
}

/// Of `a` and `c`, with `a` before `c`, any `b` comes after `a` or before
/// `c`.
pub proof fn lemma_between<T>(lt: spec_fn(T, T) -> bool, a: T, b: T, c: T)
    requires
        strict_weak_order(lt),
        lt(a, c),
    ensures
        lt(a, b) || lt(b, c),
{
    reveal(strict_weak_order);
}

/// `s` with the elements at `i` and `j` exchanged.
pub open spec fn swapped<T>(s: Seq<T>, i: int, j: int) -> Seq<T> {
    s.update(i, s[j]).update(j, s[i])
}

/// Exchanging two elements keeps the elements.
pub proof fn lemma_swapped_multiset<T>(s: Seq<T>, i: int, j: int)
    requires
        0 <= i < s.len(),
        0 <= j < s.len(),
    ensures
        swapped(s, i, j).to_multiset() == s.to_multiset(),
        swapped(s, i, j).len() == s.len(),
{
    let t = s.update(i, s[j]);
    assert(t[j] == if i == j { s[i] } else { s[j] });
    assert(swapped(s, i, j).to_multiset() =~= s.to_multiset());
}

/// Exchanges the elements at `i` and `j` of `src`.
fn swap_at<T: Copy>(src: &mut [T], i: usize, j: usize)
    requires
        i < old(src)@.len(),
        j < old(src)@.len(),
    ensures
        final(src)@ == swapped(old(src)@, i as int, j as int),
{
    let a = src[i];
    let b = src[j];
    src[i] = b;
    src[j] = a;
}

/// Puts the elements at `start` and `end` of `src` in order: exchanges them
/// unless the first comes before the second, and tells whether it did.
fn exchange_by<T: Copy, F: Fn(&T, &T) -> bool>(
    src: &mut [T],
    is_less: &F,
    start: usize,
    end: usize,
    Ghost(lt): Ghost<spec_fn(T, T) -> bool>,
) -> (r: bool)
    requires
        answers(*is_less, lt),
        start < old(src)@.len(),
        end < old(src)@.len(),
    ensures
        r == !lt(old(src)@[start as int], old(src)@[end as int]),
        final(src)@ == if r { swapped(old(src)@, start as int, end as int) } else { old(src)@ },
{
    let before = is_less(&src[start], &src[end]);
    proof {
        lemma_answer(*is_less, lt, old(src)@[start as int], old(src)@[end as int], before);
    }
    if !before {
        swap_at(src, start, end);
        true
    } else {
        false
    }
}

/// Puts the elements at `start` and `end` of `src` in order: exchanges them
/// unless the first comes before the second (by the order `is_less`
/// answers by), and tells whether it did.
pub fn try_exchange<T: Copy, F: Fn(&T, &T) -> bool>(src: &mut [T], is_less: &F, start: usize, end: usize) -> (r: bool)
    requires
        sorts_by(*is_less),
        start < old(src)@.len(),
        end < old(src)@.len(),
    ensures
        r == !order_of(*is_less)(old(src)@[start as int], old(src)@[end as int]),
        final(src)@ == if r { swapped(old(src)@, start as int, end as int) } else { old(src)@ },
{
    exchange_by(src, is_less, start, end, Ghost(order_of(*is_less)))
}

/// The merge of `a` and `b`: the first of `a` when it comes before the first
/// of `b`, else the first of `b`, and so on.
pub open spec fn merged<T>(a: Seq<T>, b: Seq<T>, lt: spec_fn(T, T) -> bool) -> Seq<T>
    decreases a.len() + b.len(),
{
    if a.len() == 0 {
        b
    } else if b.len() == 0 {
        a
    } else if lt(a[0], b[0]) {
        seq![a[0]] + merged(a.drop_first(), b, lt)
    } else {
        seq![b[0]] + merged(a, b.drop_first(), lt)
    }
}

/// The elements of `x` followed by `s` are those of `s` and `x`.
proof fn lemma_cons_multiset<T>(x: T, s: Seq<T>)
    ensures
        (seq![x] + s).to_multiset() == s.to_multiset().insert(x),
{
    vstd::seq_lib::lemma_multiset_commutative(seq![x], s);
    assert(seq![x].to_multiset() =~= Multiset::<T>::empty().insert(x)) by {
        assert(seq![x] =~= Seq::<T>::empty().push(x));
        vstd::seq_lib::to_multiset_build(Seq::<T>::empty(), x);
    }
    assert((seq![x] + s).to_multiset() =~= s.to_multiset().insert(x));
}

/// The first of `s` and the rest make up `s`.
proof fn lemma_first_rest_multiset<T>(s: Seq<T>)
    requires
        s.len() > 0,
    ensures
        s.to_multiset() == s.drop_first().to_multiset().insert(s[0]),
{
    assert(s =~= seq![s[0]] + s.drop_first());
    lemma_cons_multiset(s[0], s.drop_first());
}

/// A merge holds the elements of both.
pub proof fn lemma_merged_multiset<T>(a: Seq<T>, b: Seq<T>, lt: spec_fn(T, T) -> bool)
    ensures
        merged(a, b, lt).to_multiset() == a.to_multiset().add(b.to_multiset()),
        merged(a, b, lt).len() == a.len() + b.len(),
    decreases a.len() + b.len(),
{
    if a.len() == 0 {
        assert(a.to_multiset() =~= Multiset::<T>::empty());
        assert(merged(a, b, lt).to_multiset() =~= a.to_multiset().add(b.to_multiset()));
    } else if b.len() == 0 {
        assert(b.to_multiset() =~= Multiset::<T>::empty());
        assert(merged(a, b, lt).to_multiset() =~= a.to_multiset().add(b.to_multiset()));
    } else if lt(a[0], b[0]) {
        lemma_merged_multiset(a.drop_first(), b, lt);
        lemma_cons_multiset(a[0], merged(a.drop_first(), b, lt));
        lemma_first_rest_multiset(a);
        assert(merged(a, b, lt).to_multiset() =~= a.to_multiset().add(b.to_multiset()));
    } else {
        lemma_merged_multiset(a, b.drop_first(), lt);
        lemma_cons_multiset(b[0], merged(a, b.drop_first(), lt));
        lemma_first_rest_multiset(b);
        assert(merged(a, b, lt).to_multiset() =~= a.to_multiset().add(b.to_multiset()));
    }
}

/// An element of a merge is an element of one of the two.
proof fn lemma_merged_from<T>(a: Seq<T>, b: Seq<T>, lt: spec_fn(T, T) -> bool, x: T)
    requires
        merged(a, b, lt).contains(x),
    ensures
        a.contains(x) || b.contains(x),
{
    lemma_merged_multiset(a, b, lt);
    assert(merged(a, b, lt).to_multiset().count(x) > 0);
}

/// Removing the first element keeps a sequence sorted.
proof fn lemma_rest_sorted<T>(s: Seq<T>, lt: spec_fn(T, T) -> bool)
    requires
        s.len() > 0,
        sorted_by(s, lt),
    ensures
        sorted_by(s.drop_first(), lt),
{
    assert forall|i: int, j: int| 0 <= i < j < s.drop_first().len() implies !lt(
        #[trigger] s.drop_first()[j],
        #[trigger] s.drop_first()[i],
    ) by {
        assert(s.drop_first()[j] == s[j + 1] && s.drop_first()[i] == s[i + 1]);
    }
}

/// No element of a sorted sequence comes before its first.
proof fn lemma_first_least<T>(s: Seq<T>, lt: spec_fn(T, T) -> bool, x: T)
    requires
        strict_weak_order(lt),
        sorted_by(s, lt),
        s.contains(x),
    ensures
        !lt(x, s[0]),
{
    let k = choose|k: int| 0 <= k < s.len() && s[k] == x;
    if k == 0 {
        lemma_irreflexive(lt, x);
    } else {
        assert(!lt(s[k], s[0]));
    }
}

/// The merge of sorted sequences is sorted.
pub proof fn lemma_merged_sorted<T>(a: Seq<T>, b: Seq<T>, lt: spec_fn(T, T) -> bool)
    requires
        strict_weak_order(lt),
        sorted_by(a, lt),
        sorted_by(b, lt),
    ensures
        sorted_by(merged(a, b, lt), lt),
    decreases a.len() + b.len(),
{
    if a.len() > 0 && b.len() > 0 {
        let m = merged(a, b, lt);
        if lt(a[0], b[0]) {
            let a2 = a.drop_first();
            lemma_rest_sorted(a, lt);
            lemma_merged_sorted(a2, b, lt);
            let t = merged(a2, b, lt);
            assert forall|j: int| 0 <= j < t.len() implies !lt(#[trigger] t[j], a[0]) by {
                assert(t.contains(t[j]));
                lemma_merged_from(a2, b, lt, t[j]);
                if a2.contains(t[j]) {
                    let k = choose|k: int| 0 <= k < a2.len() && a2[k] == t[j];
                    assert(a[k + 1] == t[j]);
                    assert(!lt(a[k + 1], a[0]));
                } else {
                    lemma_first_least(b, lt, t[j]);
                    if lt(t[j], a[0]) {
                        lemma_transitive(lt, t[j], a[0], b[0]);
                    }
                }
            }
            assert forall|i: int, j: int| 0 <= i < j < m.len() implies !lt(#[trigger] m[j], #[trigger] m[i]) by {
                assert(m[j] == t[j - 1]);
                if i > 0 {
                    assert(m[i] == t[i - 1]);
                }
            }
        } else {
            let b2 = b.drop_first();
            lemma_rest_sorted(b, lt);
            lemma_merged_sorted(a, b2, lt);
            let t = merged(a, b2, lt);
            assert forall|j: int| 0 <= j < t.len() implies !lt(#[trigger] t[j], b[0]) by {
                assert(t.contains(t[j]));
                lemma_merged_from(a, b2, lt, t[j]);
                if b2.contains(t[j]) {
                    let k = choose|k: int| 0 <= k < b2.len() && b2[k] == t[j];
                    assert(b[k + 1] == t[j]);
                    assert(!lt(b[k + 1], b[0]));
                } else {
                    lemma_first_least(a, lt, t[j]);
                    lemma_not_before(lt, t[j], a[0], b[0]);
                }
            }
            assert forall|i: int, j: int| 0 <= i < j < m.len() implies !lt(#[trigger] m[j], #[trigger] m[i]) by {
                assert(m[j] == t[j - 1]);
                if i > 0 {
                    assert(m[i] == t[i - 1]);
                }
            }
        }
    }
}

/// Merges the runs `from[lo..mid)` and `from[mid..hi)` into the front of
/// `dest` (see `merged`); the rest of `dest` stays.
fn merge_into<T: Copy, F: Fn(&T, &T) -> bool>(
    dest: &mut [T],
    from: &[T],
    lo: usize,
    mid: usize,
    hi: usize,
    is_less: &F,
    Ghost(lt): Ghost<spec_fn(T, T) -> bool>,
)
    requires
        answers(*is_less, lt),
        lo <= mid <= hi <= from@.len(),
        hi - lo <= old(dest)@.len(),
    ensures
        final(dest)@.len() == old(dest)@.len(),
        final(dest)@.subrange(0, hi - lo) == merged(
            from@.subrange(lo as int, mid as int),
            from@.subrange(mid as int, hi as int),
            lt,
        ),
        final(dest)@.subrange(hi - lo, old(dest)@.len() as int) == old(dest)@.subrange(hi - lo, old(dest)@.len() as int),
{
    let ghost whole = merged(from@.subrange(lo as int, mid as int), from@.subrange(mid as int, hi as int), lt);
    let ghost n = old(dest)@.len();
    let mut i = lo;
    let mut j = mid;
    let mut k: usize = 0;
    proof {
        assert(dest@.subrange(0, 0) + merged(from@.subrange(lo as int, mid as int), from@.subrange(mid as int, hi as int), lt)
            =~= whole);
    }
    while i < mid || j < hi
        invariant
            answers(*is_less, lt),
            lo <= i <= mid,
            mid <= j <= hi,
            hi <= from@.len(),
            k == (i - lo) + (j - mid),
            dest@.len() == n,
            hi - lo <= n,
            whole == dest@.subrange(0, k as int) + merged(from@.subrange(i as int, mid as int), from@.subrange(j as int, hi as int), lt),
            dest@.subrange(hi - lo, n as int) == old(dest)@.subrange(hi - lo, n as int),
        decreases (mid - i) + (hi - j),
    {
        let ghost a = from@.subrange(i as int, mid as int);
        let ghost b = from@.subrange(j as int, hi as int);
        let ghost before = dest@;
        let take_left = if i < mid && j < hi {
            let r = is_less(&from[i], &from[j]);
            proof {
                lemma_answer(*is_less, lt, from@[i as int], from@[j as int], r);
            }
            r
        } else {
            i < mid
        };
        if take_left {
            dest[k] = from[i];
            proof {
                assert(a[0] == from@[i as int]);
                assert(a.drop_first() =~= from@.subrange(i + 1, mid as int));
                assert(merged(a, b, lt) == seq![a[0]] + merged(a.drop_first(), b, lt));
            }
            i = i + 1;
        } else {
            dest[k] = from[j];
            proof {
                assert(b[0] == from@[j as int]);
                assert(b.drop_first() =~= from@.subrange(j + 1, hi as int));
                assert(merged(a, b, lt) == seq![b[0]] + merged(a, b.drop_first(), lt));
            }
            j = j + 1;
        }
        k = k + 1;
        proof {
            assert(dest@.subrange(0, k as int) =~= before.subrange(0, k - 1) + seq![dest@[k - 1]]);
            assert(whole =~= dest@.subrange(0, k as int) + merged(from@.subrange(i as int, mid as int), from@.subrange(j as int, hi as int), lt));
            assert(dest@.subrange(hi - lo, n as int) =~= before.subrange(hi - lo, n as int));
        }
    }
    proof {
        assert(from@.subrange(i as int, mid as int).len() == 0);
        assert(from@.subrange(j as int, hi as int).len() == 0);
        assert(merged(from@.subrange(i as int, mid as int), from@.subrange(j as int, hi as int), lt) =~= Seq::<T>::empty());
        assert(whole =~= dest@.subrange(0, k as int));
    }
}


/// `t` agrees with `s` outside `[lo, hi)` and holds the same elements
/// inside it.
pub open spec fn permuted_between<T>(s: Seq<T>, t: Seq<T>, lo: int, hi: int) -> bool {
    &&& 0 <= lo <= hi <= s.len()
    &&& t.len() == s.len()
    &&& t.subrange(0, lo) == s.subrange(0, lo)
    &&& t.subrange(hi, s.len() as int) == s.subrange(hi, s.len() as int)
    &&& t.subrange(lo, hi).to_multiset() == s.subrange(lo, hi).to_multiset()
}

/// The part of `s` in `[lo, hi)` is sorted by `lt`.
pub open spec fn sorted_between<T>(s: Seq<T>, lo: int, hi: int, lt: spec_fn(T, T) -> bool) -> bool {
    sorted_by(s.subrange(lo, hi), lt)
}

/// A sequence is a rearrangement of itself.
proof fn lemma_permuted_refl<T>(s: Seq<T>, lo: int, hi: int)
    requires
        0 <= lo <= hi <= s.len(),
    ensures
        permuted_between(s, s, lo, hi),
{
}

/// Rearranging twice is rearranging.
proof fn lemma_permuted_trans<T>(s: Seq<T>, t: Seq<T>, u: Seq<T>, lo: int, hi: int)
    requires
        permuted_between(s, t, lo, hi),
        permuted_between(t, u, lo, hi),
    ensures
        permuted_between(s, u, lo, hi),
{
}

/// A sequence cut in three holds the elements of the three parts.
proof fn lemma_three_parts<T>(s: Seq<T>, lo: int, hi: int)
    requires
        0 <= lo <= hi <= s.len(),
    ensures
        s.to_multiset() == s.subrange(0, lo).to_multiset().add(s.subrange(lo, hi).to_multiset()).add(
            s.subrange(hi, s.len() as int).to_multiset(),
        ),
{
    assert(s =~= s.subrange(0, lo) + s.subrange(lo, hi) + s.subrange(hi, s.len() as int));
    vstd::seq_lib::lemma_multiset_commutative(s.subrange(0, lo), s.subrange(lo, hi));
    vstd::seq_lib::lemma_multiset_commutative(s.subrange(0, lo) + s.subrange(lo, hi), s.subrange(hi, s.len() as int));
}

/// A rearrangement of a part is a rearrangement of a larger part, and of
/// the whole.
proof fn lemma_permuted_widen<T>(s: Seq<T>, t: Seq<T>, lo: int, hi: int, lo2: int, hi2: int)
    requires
        permuted_between(s, t, lo, hi),
        0 <= lo2 <= lo,
        hi <= hi2 <= s.len(),
    ensures
        permuted_between(s, t, lo2, hi2),
        t.to_multiset() == s.to_multiset(),
{
    let a = s.subrange(lo2, hi2);
    let b = t.subrange(lo2, hi2);
    assert(a.subrange(0, lo - lo2) =~= s.subrange(lo2, lo));
    assert(b.subrange(0, lo - lo2) =~= t.subrange(lo2, lo));
    assert(s.subrange(lo2, lo) =~= s.subrange(0, lo).subrange(lo2, lo));
    assert(t.subrange(lo2, lo) =~= t.subrange(0, lo).subrange(lo2, lo));
    assert(a.subrange(lo - lo2, hi - lo2) =~= s.subrange(lo, hi));
    assert(b.subrange(lo - lo2, hi - lo2) =~= t.subrange(lo, hi));
    assert(a.subrange(hi - lo2, hi2 - lo2) =~= s.subrange(hi, hi2));
    assert(b.subrange(hi - lo2, hi2 - lo2) =~= t.subrange(hi, hi2));
    assert(s.subrange(hi, hi2) =~= s.subrange(hi, s.len() as int).subrange(0, hi2 - hi));
    assert(t.subrange(hi, hi2) =~= t.subrange(hi, t.len() as int).subrange(0, hi2 - hi));
    lemma_three_parts(a, lo - lo2, hi - lo2);
    lemma_three_parts(b, lo - lo2, hi - lo2);
    assert(t.subrange(0, lo2) =~= t.subrange(0, lo).subrange(0, lo2));
    assert(s.subrange(0, lo2) =~= s.subrange(0, lo).subrange(0, lo2));
    assert(t.subrange(hi2, t.len() as int) =~= t.subrange(hi, t.len() as int).subrange(hi2 - hi, t.len() - hi));
    assert(s.subrange(hi2, s.len() as int) =~= s.subrange(hi, s.len() as int).subrange(hi2 - hi, s.len() - hi));
    lemma_three_parts(s, lo, hi);
    lemma_three_parts(t, lo, hi);
}

/// Exchanging two elements of a part rearranges that part.
proof fn lemma_swap_permuted<T>(s: Seq<T>, i: int, j: int, lo: int, hi: int)
    requires
        lo <= i < hi,
        lo <= j < hi,
        0 <= lo,
        hi <= s.len(),
    ensures
        permuted_between(s, swapped(s, i, j), lo, hi),
{
    let t = swapped(s, i, j);
    assert(t.subrange(0, lo) =~= s.subrange(0, lo));
    assert(t.subrange(hi, s.len() as int) =~= s.subrange(hi, s.len() as int));
    assert(t.subrange(lo, hi) =~= swapped(s.subrange(lo, hi), i - lo, j - lo));
    lemma_swapped_multiset(s.subrange(lo, hi), i - lo, j - lo);
}

/// Two sorted runs, the last of the first before the first of the second,
/// make a sorted run.
proof fn lemma_concat_sorted<T>(a: Seq<T>, b: Seq<T>, lt: spec_fn(T, T) -> bool)
    requires
        strict_weak_order(lt),
        sorted_by(a, lt),
        sorted_by(b, lt),
        a.len() > 0,
        b.len() > 0,
        lt(a.last(), b[0]),
    ensures
        sorted_by(a + b, lt),
{
    let c = a + b;
    assert forall|i: int, j: int| 0 <= i < j < c.len() implies !lt(#[trigger] c[j], #[trigger] c[i]) by {
        if j < a.len() {
            assert(c[i] == a[i] && c[j] == a[j]);
        } else if i >= a.len() {
            assert(c[i] == b[i - a.len()] && c[j] == b[j - a.len()]);
        } else {
            let x = a[i];
            let y = b[j - a.len()];
            assert(c[i] == x && c[j] == y);
            if i < a.len() - 1 {
                assert(!lt(a[a.len() - 1], a[i]));
            } else {
                lemma_irreflexive(lt, x);
            }
            lemma_between(lt, a.last(), x, b[0]);
            if j - a.len() > 0 {
                assert(!lt(b[j - a.len()], b[0]));
            } else {
                lemma_irreflexive(lt, y);
            }
            if lt(y, x) {
                lemma_between(lt, x, y, b[0]);
                lemma_transitive(lt, y, x, y);
                lemma_irreflexive(lt, y);
            }
        }
    }
}

/// Copies the first `n` elements of `from` to `dest` from place `at` on.
fn copy_to<T: Copy>(dest: &mut [T], at: usize, from: &[T], n: usize)
    requires
        n <= from@.len(),
        at + n <= old(dest)@.len(),
    ensures
        final(dest)@.len() == old(dest)@.len(),
        final(dest)@.subrange(0, at as int) == old(dest)@.subrange(0, at as int),
        final(dest)@.subrange(at as int, at + n) == from@.subrange(0, n as int),
        final(dest)@.subrange(at + n, old(dest)@.len() as int) == old(dest)@.subrange(at + n, old(dest)@.len() as int),
{
    let dlen = dest.len();
    let mut k: usize = 0;
    while k < n
        invariant
            k <= n,
            n <= from@.len(),
            dlen == dest@.len(),
            at + n <= dest@.len(),
            dest@.len() == old(dest)@.len(),
            forall|m: int| 0 <= m < at ==> dest@[m] == old(dest)@[m],
            forall|m: int| at + n <= m < dest@.len() ==> dest@[m] == old(dest)@[m],
            forall|m: int| 0 <= m < k ==> dest@[at + m] == from@[m],
        decreases n - k,
    {
        dest[at + k] = from[k];
        k = k + 1;
    }
    assert(dest@.subrange(0, at as int) =~= old(dest)@.subrange(0, at as int));
    assert(dest@.subrange(at as int, at + n) =~= from@.subrange(0, n as int));
    assert(dest@.subrange(at + n, old(dest)@.len() as int) =~= old(dest)@.subrange(at + n, old(dest)@.len() as int));
}

/// Merges the sorted runs `[lo, mid)` and `[mid, hi)` of `src` into one
/// sorted run, through `swap`; nothing moves when the runs are already in
/// order.
fn merge_runs<T: Copy, F: Fn(&T, &T) -> bool>(
    src: &mut [T],
    lo: usize,
    mid: usize,
    hi: usize,
    swap: &mut [T],
    is_less: &F,
    Ghost(lt): Ghost<spec_fn(T, T) -> bool>,
)
    requires
        strict_weak_order(lt),
        answers(*is_less, lt),
        lo <= mid <= hi <= old(src)@.len(),
        hi - lo <= old(swap)@.len(),
        sorted_between(old(src)@, lo as int, mid as int, lt),
        sorted_between(old(src)@, mid as int, hi as int, lt),
    ensures
        permuted_between(old(src)@, final(src)@, lo as int, hi as int),
        sorted_between(final(src)@, lo as int, hi as int, lt),
        final(swap)@.len() == old(swap)@.len(),
{
    let ghost s = src@;
    proof {
        lemma_permuted_refl(s, lo as int, hi as int);
    }
    if lo == mid || mid == hi {
        proof {
            if lo == mid {
                assert(s.subrange(lo as int, hi as int) =~= s.subrange(mid as int, hi as int));
            } else {
                assert(s.subrange(lo as int, hi as int) =~= s.subrange(lo as int, mid as int));
            }
        }
        return;
    }
    let ordered = is_less(&src[mid - 1], &src[mid]);
    proof {
        lemma_answer(*is_less, lt, s[mid - 1], s[mid as int], ordered);
    }
    if ordered {
        proof {
            let a = s.subrange(lo as int, mid as int);
            let b = s.subrange(mid as int, hi as int);
            assert(a.last() == s[mid - 1]);
            assert(b[0] == s[mid as int]);
            lemma_concat_sorted(a, b, lt);
            assert(s.subrange(lo as int, hi as int) =~= a + b);
        }
        return;
    }
    merge_into(swap, src, lo, mid, hi, is_less, Ghost(lt));
    let n = hi - lo;
    copy_to(src, lo, swap, n);
    proof {
        let a = s.subrange(lo as int, mid as int);
        let b = s.subrange(mid as int, hi as int);
        lemma_merged_multiset(a, b, lt);
        lemma_merged_sorted(a, b, lt);
        assert(src@.subrange(lo as int, hi as int) =~= merged(a, b, lt));
        vstd::seq_lib::lemma_multiset_commutative(a, b);
        assert(s.subrange(lo as int, hi as int) =~= a + b);
        assert(src@.subrange(0, lo as int) =~= s.subrange(0, lo as int));
        assert(src@.subrange(hi as int, s.len() as int) =~= s.subrange(hi as int, s.len() as int));
    }
}

/// Merges the sorted runs `src[..block)` and `src[block..)` through `swap`,
/// when there are two; nothing moves when they are already in order.
pub fn partial_backward_merge<T: Copy, F: Fn(&T, &T) -> bool>(src: &mut [T], swap: &mut [T], block: usize, is_less: &F)
    requires
        sorts_by(*is_less),
        block <= old(src)@.len() ==> old(src)@.len() <= old(swap)@.len(),
        block <= old(src)@.len() ==> sorted_between(old(src)@, 0, block as int, order_of(*is_less)),
        block <= old(src)@.len() ==> sorted_between(old(src)@, block as int, old(src)@.len() as int, order_of(*is_less)),
        block < old(src)@.len() ==> block > 0,
    ensures
        final(src)@.to_multiset() == old(src)@.to_multiset(),
        final(src)@.len() == old(src)@.len(),
        old(src)@.len() <= block ==> final(src)@ == old(src)@,
        old(src)@.len() > block ==> sorted_by(final(src)@, order_of(*is_less)),
        final(swap)@.len() == old(swap)@.len(),
{
    partial_backward_merge_by(src, swap, block, is_less, Ghost(order_of(*is_less)));
}

/// Merges the sorted runs `src[..block)` and `src[block..)` by `lt` through
/// `swap`, when there are two.
fn partial_backward_merge_by<T: Copy, F: Fn(&T, &T) -> bool>(
    src: &mut [T],
    swap: &mut [T],
    block: usize,
    is_less: &F,
    Ghost(lt): Ghost<spec_fn(T, T) -> bool>,
)
    requires
        strict_weak_order(lt),
        answers(*is_less, lt),
        block <= old(src)@.len() ==> old(src)@.len() <= old(swap)@.len(),
        block <= old(src)@.len() ==> sorted_between(old(src)@, 0, block as int, lt),
        block <= old(src)@.len() ==> sorted_between(old(src)@, block as int, old(src)@.len() as int, lt),
        block < old(src)@.len() ==> block > 0,
    ensures
        final(src)@.to_multiset() == old(src)@.to_multiset(),
        final(src)@.len() == old(src)@.len(),
        old(src)@.len() <= block ==> final(src)@ == old(src)@,
        old(src)@.len() > block ==> sorted_by(final(src)@, lt),
        final(swap)@.len() == old(swap)@.len(),
{
    let len = src.len();
    if len <= block {
        return;
    }
    merge_runs(src, 0, block, len, swap, is_less, Ghost(lt));
    proof {
        lemma_permuted_widen(old(src)@, src@, 0, len as int, 0, len as int);
        assert(src@.subrange(0, len as int) =~= src@);
    }
}


/// A sequence in which no element comes before the one just ahead of it is
/// sorted.
pub proof fn lemma_adjacent_sorted<T>(s: Seq<T>, lt: spec_fn(T, T) -> bool)
    requires
        strict_weak_order(lt),
        forall|i: int| 0 <= i < s.len() - 1 ==> !lt(#[trigger] s[i + 1], s[i]),
    ensures
        sorted_by(s, lt),
    decreases s.len(),
{
    if s.len() > 1 {
        let d = s.drop_last();
        assert forall|i: int| 0 <= i < d.len() - 1 implies !lt(#[trigger] d[i + 1], d[i]) by {
            assert(d[i + 1] == s[i + 1] && d[i] == s[i]);
        }
        lemma_adjacent_sorted(d, lt);
        assert forall|i: int, j: int| 0 <= i < j < s.len() implies !lt(#[trigger] s[j], #[trigger] s[i]) by {
            if j < s.len() - 1 {
                assert(d[i] == s[i] && d[j] == s[j]);
            } else if i < j - 1 {
                assert(d[i] == s[i] && d[j - 1] == s[j - 1]);
                assert(!lt(s[j - 1], s[i]));
                assert(!lt(s[j - 1 + 1], s[j - 1]));
                lemma_not_before(lt, s[j], s[j - 1], s[i]);
            } else {
                assert(!lt(s[i + 1], s[i]));
            }
        }
    }
}

/// What an exchange leaves is a rearrangement of a part holding both
/// places.
proof fn lemma_exchange_permuted<T>(s: Seq<T>, t: Seq<T>, i: int, j: int, lo: int, hi: int, r: bool)
    requires
        lo <= i < hi,
        lo <= j < hi,
        0 <= lo,
        hi <= s.len(),
        t == if r { swapped(s, i, j) } else { s },
    ensures
        permuted_between(s, t, lo, hi),
{
    if r {
        lemma_swap_permuted(s, i, j, lo, hi);
    } else {
        lemma_permuted_refl(s, lo, hi);
    }
}

/// Sorts the four elements of `src` from `lo` on with a few exchanges.
fn quad_swap_four_at<T: Copy, F: Fn(&T, &T) -> bool>(src: &mut [T], lo: usize, is_less: &F, Ghost(lt): Ghost<spec_fn(T, T) -> bool>)
    requires
        strict_weak_order(lt),
        answers(*is_less, lt),
        lo + 4 <= old(src)@.len(),
    ensures
        permuted_between(old(src)@, final(src)@, lo as int, lo + 4),
        sorted_between(final(src)@, lo as int, lo + 4, lt),
{
    let ghost s0 = src@;
    let ghost l = lo as int;
    let len = src.len();
    assert(lo + 4 <= len);
    let r1 = exchange_by(src, is_less, lo, lo + 1, Ghost(lt));
    let ghost s1 = src@;
    let r2 = exchange_by(src, is_less, lo + 2, lo + 3, Ghost(lt));
    let ghost s2 = src@;
    proof {
        lemma_exchange_permuted(s0, s1, l, l + 1, l, l + 4, r1);
        lemma_exchange_permuted(s1, s2, l + 2, l + 3, l, l + 4, r2);
        lemma_permuted_trans(s0, s1, s2, l, l + 4);
        reveal(strict_weak_order);
        assert(!lt(s2[l + 1], s2[l]));
        assert(!lt(s2[l + 3], s2[l + 2]));
    }
    let r3 = exchange_by(src, is_less, lo + 1, lo + 2, Ghost(lt));
    let ghost s3 = src@;
    proof {
        lemma_exchange_permuted(s2, s3, l + 1, l + 2, l, l + 4, r3);
        lemma_permuted_trans(s0, s2, s3, l, l + 4);
    }
    if r3 {
        let r4 = exchange_by(src, is_less, lo, lo + 1, Ghost(lt));
        let ghost s4 = src@;
        proof {
            lemma_exchange_permuted(s3, s4, l, l + 1, l, l + 4, r4);
            lemma_permuted_trans(s0, s3, s4, l, l + 4);
        }
        let r5 = exchange_by(src, is_less, lo + 2, lo + 3, Ghost(lt));
        let ghost s5 = src@;
        proof {
            lemma_exchange_permuted(s4, s5, l + 2, l + 3, l, l + 4, r5);
            lemma_permuted_trans(s0, s4, s5, l, l + 4);
        }
        if r5 {
            let r6 = exchange_by(src, is_less, lo + 1, lo + 2, Ghost(lt));
            let ghost s6 = src@;
            proof {
                lemma_exchange_permuted(s5, s6, l + 1, l + 2, l, l + 4, r6);
                lemma_permuted_trans(s0, s5, s6, l, l + 4);
                reveal(strict_weak_order);
                assert(!lt(s6[l + 1], s6[l]));
                assert(!lt(s6[l + 2], s6[l + 1]));
                assert(!lt(s6[l + 3], s6[l + 2]));
            }
        } else {
            proof {
                reveal(strict_weak_order);
                assert(!lt(s5[l + 1], s5[l]));
                assert(!lt(s5[l + 2], s5[l + 1]));
                assert(!lt(s5[l + 3], s5[l + 2]));
            }
        }
    } else {
        proof {
            reveal(strict_weak_order);
            assert(!lt(s3[l + 2], s3[l + 1]));
        }
    }
    proof {
        let f = src@;
        let g = f.subrange(l, l + 4);
        assert(!lt(f[l + 1], f[l]));
        assert(!lt(f[l + 2], f[l + 1]));
        assert(!lt(f[l + 3], f[l + 2]));
        assert forall|i: int| 0 <= i < g.len() - 1 implies !lt(#[trigger] g[i + 1], g[i]) by {
            assert(g[i + 1] == f[l + i + 1] && g[i] == f[l + i]);
        }
        lemma_adjacent_sorted(g, lt);
    }
}

/// Sorts the first four elements of `src`.
pub fn quad_swap_four<T: Copy, F: Fn(&T, &T) -> bool>(src: &mut [T], is_less: &F)
    requires
        sorts_by(*is_less),
        4 <= old(src)@.len(),
    ensures
        permuted_between(old(src)@, final(src)@, 0, 4),
        sorted_between(final(src)@, 0, 4, order_of(*is_less)),
{
    quad_swap_four_at(src, 0, is_less, Ghost(order_of(*is_less)));
}


/// Sorts the `n` (at most four) elements of `src` from `lo` on.
fn tiny_sort_at<T: Copy, F: Fn(&T, &T) -> bool>(src: &mut [T], lo: usize, n: usize, is_less: &F, Ghost(lt): Ghost<spec_fn(T, T) -> bool>)
    requires
        strict_weak_order(lt),
        answers(*is_less, lt),
        n <= 4,
        lo + n <= old(src)@.len(),
    ensures
        permuted_between(old(src)@, final(src)@, lo as int, lo + n),
        sorted_between(final(src)@, lo as int, lo + n, lt),
{
    let ghost s0 = src@;
    let ghost l = lo as int;
    let len = src.len();
    assert(lo + n <= len);
    if n == 4 {
        quad_swap_four_at(src, lo, is_less, Ghost(lt));
    } else if n == 3 {
        let r1 = exchange_by(src, is_less, lo, lo + 1, Ghost(lt));
        let ghost s1 = src@;
        let r2 = exchange_by(src, is_less, lo + 1, lo + 2, Ghost(lt));
        let ghost s2 = src@;
        proof {
            lemma_exchange_permuted(s0, s1, l, l + 1, l, l + 3, r1);
            lemma_exchange_permuted(s1, s2, l + 1, l + 2, l, l + 3, r2);
            lemma_permuted_trans(s0, s1, s2, l, l + 3);
        }
        if r2 {
            let r3 = exchange_by(src, is_less, lo, lo + 1, Ghost(lt));
            let ghost s3 = src@;
            proof {
                lemma_exchange_permuted(s2, s3, l, l + 1, l, l + 3, r3);
                lemma_permuted_trans(s0, s2, s3, l, l + 3);
                reveal(strict_weak_order);
                assert(!lt(s3[l + 1], s3[l]));
                assert(!lt(s3[l + 2], s3[l + 1]));
            }
        } else {
            proof {
                reveal(strict_weak_order);
                assert(!lt(s2[l + 1], s2[l]));
                assert(!lt(s2[l + 2], s2[l + 1]));
            }
        }
        proof {
            let f = src@;
            let g = f.subrange(l, l + 3);
            assert forall|i: int| 0 <= i < g.len() - 1 implies !lt(#[trigger] g[i + 1], g[i]) by {
                assert(g[i + 1] == f[l + i + 1] && g[i] == f[l + i]);
            }
            lemma_adjacent_sorted(g, lt);
        }
    } else if n == 2 {
        let r1 = exchange_by(src, is_less, lo, lo + 1, Ghost(lt));
        proof {
            lemma_exchange_permuted(s0, src@, l, l + 1, l, l + 2, r1);
            reveal(strict_weak_order);
            let f = src@;
            let g = f.subrange(l, l + 2);
            assert(!lt(f[l + 1], f[l]));
            assert(g[1] == f[l + 1] && g[0] == f[l]);
            lemma_adjacent_sorted(g, lt);
        }
    } else {
        proof {
            lemma_permuted_refl(s0, l, l + n);
        }
    }
}

/// Sorts `src` when it holds at most four elements; leaves longer ones as
/// they are.
pub fn tiny_sort<T: Copy, F: Fn(&T, &T) -> bool>(src: &mut [T], is_less: &F)
    requires
        sorts_by(*is_less),
    ensures
        final(src)@.len() == old(src)@.len(),
        final(src)@.to_multiset() == old(src)@.to_multiset(),
        old(src)@.len() <= 4 ==> sorted_by(final(src)@, order_of(*is_less)),
        old(src)@.len() > 4 ==> final(src)@ == old(src)@,
{
    let n = src.len();
    if n <= 4 {
        tiny_sort_at(src, 0, n, is_less, Ghost(order_of(*is_less)));
        proof {
            lemma_permuted_widen(old(src)@, src@, 0, n as int, 0, n as int);
            assert(src@.subrange(0, n as int) =~= src@);
        }
    }
}

/// What a rearrangement of one part leaves of a part apart from it.
proof fn lemma_outside_kept<T>(s: Seq<T>, t: Seq<T>, a: int, b: int, c: int, d: int)
    requires
        permuted_between(s, t, a, b),
        0 <= c <= d <= s.len(),
        d <= a || b <= c,
    ensures
        t.subrange(c, d) == s.subrange(c, d),
{
    if d <= a {
        assert(t.subrange(c, d) =~= t.subrange(0, a).subrange(c, d));
        assert(s.subrange(c, d) =~= s.subrange(0, a).subrange(c, d));
    } else {
        assert(t.subrange(c, d) =~= t.subrange(b, s.len() as int).subrange(c - b, d - b));
        assert(s.subrange(c, d) =~= s.subrange(b, s.len() as int).subrange(c - b, d - b));
    }
}


/// Four runs sorted one after another, each by a rearrangement of its own
/// part, make a rearrangement of the whole in which each run is sorted.
proof fn lemma_four_parts<T>(
    s0: Seq<T>,
    s1: Seq<T>,
    s2: Seq<T>,
    s3: Seq<T>,
    s4: Seq<T>,
    a: int,
    b: int,
    c: int,
    d: int,
    e: int,
    lt: spec_fn(T, T) -> bool,
)
    requires
        0 <= a <= b <= c <= d <= e <= s0.len(),
        permuted_between(s0, s1, a, b),
        sorted_between(s1, a, b, lt),
        permuted_between(s1, s2, b, c),
        sorted_between(s2, b, c, lt),
        permuted_between(s2, s3, c, d),
        sorted_between(s3, c, d, lt),
        permuted_between(s3, s4, d, e),
        sorted_between(s4, d, e, lt),
    ensures
        permuted_between(s0, s4, a, e),
        sorted_between(s4, a, b, lt),
        sorted_between(s4, b, c, lt),
        sorted_between(s4, c, d, lt),
{
    lemma_outside_kept(s1, s2, b, c, a, b);
    lemma_outside_kept(s2, s3, c, d, a, b);
    lemma_outside_kept(s3, s4, d, e, a, b);
    lemma_outside_kept(s2, s3, c, d, b, c);
    lemma_outside_kept(s3, s4, d, e, b, c);
    lemma_outside_kept(s3, s4, d, e, c, d);
    lemma_permuted_widen(s0, s1, a, b, a, e);
    lemma_permuted_widen(s1, s2, b, c, a, e);
    lemma_permuted_widen(s2, s3, c, d, a, e);
    lemma_permuted_widen(s3, s4, d, e, a, e);
    lemma_permuted_trans(s0, s1, s2, a, e);
    lemma_permuted_trans(s0, s2, s3, a, e);
    lemma_permuted_trans(s0, s3, s4, a, e);
}

/// Merges four sorted runs `[a, b)`, `[b, c)`, `[c, d)`, `[d, e)` of `src`
/// into one: the first two, the last two, then the halves.
fn merge_quarters<T: Copy, F: Fn(&T, &T) -> bool>(
    src: &mut [T],
    a: usize,
    b: usize,
    c: usize,
    d: usize,
    e: usize,
    swap: &mut [T],
    is_less: &F,
    Ghost(lt): Ghost<spec_fn(T, T) -> bool>,
)
    requires
        strict_weak_order(lt),
        answers(*is_less, lt),
        a <= b <= c <= d <= e <= old(src)@.len(),
        e - a <= old(swap)@.len(),
        sorted_between(old(src)@, a as int, b as int, lt),
        sorted_between(old(src)@, b as int, c as int, lt),
        sorted_between(old(src)@, c as int, d as int, lt),
        sorted_between(old(src)@, d as int, e as int, lt),
    ensures
        permuted_between(old(src)@, final(src)@, a as int, e as int),
        sorted_between(final(src)@, a as int, e as int, lt),
        final(swap)@.len() == old(swap)@.len(),
{
    let ghost s0 = src@;
    merge_runs(src, a, b, c, swap, is_less, Ghost(lt));
    let ghost s1 = src@;
    proof {
        lemma_outside_kept(s0, s1, a as int, c as int, c as int, d as int);
        lemma_outside_kept(s0, s1, a as int, c as int, d as int, e as int);
        lemma_permuted_widen(s0, s1, a as int, c as int, a as int, e as int);
    }
    merge_runs(src, c, d, e, swap, is_less, Ghost(lt));
    let ghost s2 = src@;
    proof {
        lemma_outside_kept(s1, s2, c as int, e as int, a as int, c as int);
        lemma_permuted_widen(s1, s2, c as int, e as int, a as int, e as int);
        lemma_permuted_trans(s0, s1, s2, a as int, e as int);
    }
    merge_runs(src, a, c, e, swap, is_less, Ghost(lt));
    proof {
        lemma_permuted_trans(s0, s2, src@, a as int, e as int);
    }
}

/// Puts the two elements of `src` at `at` and `at + 1` in order.
fn sort_pair_at<T: Copy, F: Fn(&T, &T) -> bool>(src: &mut [T], at: usize, is_less: &F, Ghost(lt): Ghost<spec_fn(T, T) -> bool>)
    requires
        strict_weak_order(lt),
        answers(*is_less, lt),
        at + 2 <= old(src)@.len(),
    ensures
        permuted_between(old(src)@, final(src)@, at as int, at + 2),
        sorted_between(final(src)@, at as int, at + 2, lt),
{
    tiny_sort_at(src, at, 2, is_less, Ghost(lt));
}

/// Sorts the eight elements of `src` from `lo` on: in pairs, then merging.
fn parity_swap_eight_at<T: Copy, F: Fn(&T, &T) -> bool>(
    src: &mut [T],
    lo: usize,
    swap: &mut [T],
    is_less: &F,
    Ghost(lt): Ghost<spec_fn(T, T) -> bool>,
)
    requires
        strict_weak_order(lt),
        answers(*is_less, lt),
        lo + 8 <= old(src)@.len(),
        8 <= old(swap)@.len(),
    ensures
        permuted_between(old(src)@, final(src)@, lo as int, lo + 8),
        sorted_between(final(src)@, lo as int, lo + 8, lt),
        final(swap)@.len() == old(swap)@.len(),
{
    let len = src.len();
    let ghost s0 = src@;
    sort_pair_at(src, lo, is_less, Ghost(lt));
    let ghost s1 = src@;
    sort_pair_at(src, lo + 2, is_less, Ghost(lt));
    let ghost s2 = src@;
    sort_pair_at(src, lo + 4, is_less, Ghost(lt));
    let ghost s3 = src@;
    sort_pair_at(src, lo + 6, is_less, Ghost(lt));
    proof {
        lemma_four_parts(s0, s1, s2, s3, src@, lo as int, lo + 2, lo + 4, lo + 6, lo + 8, lt);
    }
    let ghost s4 = src@;
    merge_quarters(src, lo, lo + 2, lo + 4, lo + 6, lo + 8, swap, is_less, Ghost(lt));
    proof {
        lemma_permuted_trans(s0, s4, src@, lo as int, lo + 8);
    }
}

/// Sorts the sixteen elements of `src` from `lo` on: by fours, then
/// merging.
fn parity_swap_sixteen_at<T: Copy, F: Fn(&T, &T) -> bool>(
    src: &mut [T],
    lo: usize,
    swap: &mut [T],
    is_less: &F,
    Ghost(lt): Ghost<spec_fn(T, T) -> bool>,
)
    requires
        strict_weak_order(lt),
        answers(*is_less, lt),
        lo + 16 <= old(src)@.len(),
        16 <= old(swap)@.len(),
    ensures
        permuted_between(old(src)@, final(src)@, lo as int, lo + 16),
        sorted_between(final(src)@, lo as int, lo + 16, lt),
        final(swap)@.len() == old(swap)@.len(),
{
    let len = src.len();
    let ghost s0 = src@;
    quad_swap_four_at(src, lo, is_less, Ghost(lt));
    let ghost s1 = src@;
    quad_swap_four_at(src, lo + 4, is_less, Ghost(lt));
    let ghost s2 = src@;
    quad_swap_four_at(src, lo + 8, is_less, Ghost(lt));
    let ghost s3 = src@;
    quad_swap_four_at(src, lo + 12, is_less, Ghost(lt));
    proof {
        lemma_four_parts(s0, s1, s2, s3, src@, lo as int, lo + 4, lo + 8, lo + 12, lo + 16, lt);
    }
    let ghost s4 = src@;
    merge_quarters(src, lo, lo + 4, lo + 8, lo + 12, lo + 16, swap, is_less, Ghost(lt));
    proof {
        lemma_permuted_trans(s0, s4, src@, lo as int, lo + 16);
    }
}

/// Sorts the thirty-two elements of `src` from `lo` on: by eights, then
/// merging.
fn parity_swap_thirtytwo_at<T: Copy, F: Fn(&T, &T) -> bool>(
    src: &mut [T],
    lo: usize,
    swap: &mut [T],
    is_less: &F,
    Ghost(lt): Ghost<spec_fn(T, T) -> bool>,
)
    requires
        strict_weak_order(lt),
        answers(*is_less, lt),
        lo + 32 <= old(src)@.len(),
        32 <= old(swap)@.len(),
    ensures
        permuted_between(old(src)@, final(src)@, lo as int, lo + 32),
        sorted_between(final(src)@, lo as int, lo + 32, lt),
        final(swap)@.len() == old(swap)@.len(),
{
    let len = src.len();
    let ghost s0 = src@;
    parity_swap_eight_at(src, lo, swap, is_less, Ghost(lt));
    let ghost s1 = src@;
    parity_swap_eight_at(src, lo + 8, swap, is_less, Ghost(lt));
    let ghost s2 = src@;
    parity_swap_eight_at(src, lo + 16, swap, is_less, Ghost(lt));
    let ghost s3 = src@;
    parity_swap_eight_at(src, lo + 24, swap, is_less, Ghost(lt));
    proof {
        lemma_four_parts(s0, s1, s2, s3, src@, lo as int, lo + 8, lo + 16, lo + 24, lo + 32, lt);
    }
    let ghost s4 = src@;
    merge_quarters(src, lo, lo + 8, lo + 16, lo + 24, lo + 32, swap, is_less, Ghost(lt));
    proof {
        lemma_permuted_trans(s0, s4, src@, lo as int, lo + 32);
    }
}

/// Sorts the first eight elements of `src`, using `swap` as room.
pub fn parity_swap_eight<T: Copy, F: Fn(&T, &T) -> bool>(src: &mut [T], swap: &mut [T], is_less: &F)
    requires
        sorts_by(*is_less),
        8 <= old(src)@.len(),
        8 <= old(swap)@.len(),
    ensures
        permuted_between(old(src)@, final(src)@, 0, 8),
        sorted_between(final(src)@, 0, 8, order_of(*is_less)),
        final(swap)@.len() == old(swap)@.len(),
{
    parity_swap_eight_at(src, 0, swap, is_less, Ghost(order_of(*is_less)));
}

/// Sorts the first sixteen elements of `src`, using `swap` as room.
pub fn parity_swap_sixteen<T: Copy, F: Fn(&T, &T) -> bool>(src: &mut [T], swap: &mut [T], is_less: &F)
    requires
        sorts_by(*is_less),
        16 <= old(src)@.len(),
        16 <= old(swap)@.len(),
    ensures
        permuted_between(old(src)@, final(src)@, 0, 16),
        sorted_between(final(src)@, 0, 16, order_of(*is_less)),
        final(swap)@.len() == old(swap)@.len(),
{
    parity_swap_sixteen_at(src, 0, swap, is_less, Ghost(order_of(*is_less)));
}

/// Sorts the first thirty-two elements of `src`, using `swap` as room.
pub fn parity_swap_thirtytwo<T: Copy, F: Fn(&T, &T) -> bool>(src: &mut [T], swap: &mut [T], is_less: &F)
    requires
        sorts_by(*is_less),
        32 <= old(src)@.len(),
        32 <= old(swap)@.len(),
    ensures
        permuted_between(old(src)@, final(src)@, 0, 32),
        sorted_between(final(src)@, 0, 32, order_of(*is_less)),
        final(swap)@.len() == old(swap)@.len(),
{
    parity_swap_thirtytwo_at(src, 0, swap, is_less, Ghost(order_of(*is_less)));
}

/// Merges the sorted runs `from[..left)` and `from[left..left + right)`
/// into the front of `dest` (see `merged`); the rest of `dest` stays.
/// The runs must be sorted: the merge works from both ends.
pub fn parity_merge<T: Copy, F: Fn(&T, &T) -> bool>(dest: &mut [T], from: &mut [T], left: usize, right: usize, is_less: &F)
    requires
        sorts_by(*is_less),
        left + right <= old(from)@.len(),
        sorted_between(old(from)@, 0, left as int, order_of(*is_less)),
        sorted_between(old(from)@, left as int, left + right, order_of(*is_less)),
        left + right <= old(dest)@.len(),
    ensures
        final(from)@ == old(from)@,
        final(dest)@.len() == old(dest)@.len(),
        final(dest)@.subrange(0, left + right) == merged(
            old(from)@.subrange(0, left as int),
            old(from)@.subrange(left as int, left + right),
            order_of(*is_less),
        ),
        final(dest)@.subrange(left + right, old(dest)@.len() as int) == old(dest)@.subrange(
            left + right,
            old(dest)@.len() as int,
        ),
{
    let len = from.len();
    merge_into(dest, from, 0, left, left + right, is_less, Ghost(order_of(*is_less)));
}

/// Merges the sorted runs `from[..left)` and `from[left..left + right)`
/// into the front of `dest` (see `merged`), as `parity_merge` does; the
/// rest of `dest` stays.
pub fn cross_merge<T: Copy, F: Fn(&T, &T) -> bool>(dest: &mut [T], from: &mut [T], left: usize, right: usize, is_less: &F)
    requires
        sorts_by(*is_less),
        left + right <= old(from)@.len(),
        sorted_between(old(from)@, 0, left as int, order_of(*is_less)),
        sorted_between(old(from)@, left as int, left + right, order_of(*is_less)),
        left + right <= old(dest)@.len(),
    ensures
        final(from)@ == old(from)@,
        final(dest)@.len() == old(dest)@.len(),
        final(dest)@.subrange(0, left + right) == merged(
            old(from)@.subrange(0, left as int),
            old(from)@.subrange(left as int, left + right),
            order_of(*is_less),
        ),
        final(dest)@.subrange(left + right, old(dest)@.len() as int) == old(dest)@.subrange(
            left + right,
            old(dest)@.len() as int,
        ),
{
    let len = from.len();
    merge_into(dest, from, 0, left, left + right, is_less, Ghost(order_of(*is_less)));
}


/// A part of a sorted part is sorted.
proof fn lemma_sorted_sub<T>(s: Seq<T>, lo: int, hi: int, a: int, b: int, lt: spec_fn(T, T) -> bool)
    requires
        0 <= lo <= a <= b <= hi <= s.len(),
        sorted_between(s, lo, hi, lt),
    ensures
        sorted_between(s, a, b, lt),
{
    let g = s.subrange(lo, hi);
    let h = s.subrange(a, b);
    assert forall|i: int, j: int| 0 <= i < j < h.len() implies !lt(#[trigger] h[j], #[trigger] h[i]) by {
        assert(h[i] == g[i + a - lo] && h[j] == g[j + a - lo]);
    }
}

/// Sorts the elements of `src` in `[lo, hi)`: up to four directly; up to
/// eleven, and sixteen to twenty-three, by sorting a first block of four,
/// eight or sixteen and inserting the rest; others by sorting each quarter
/// the same way and merging the quarters pairwise through `swap`.
fn tail_swap_at<T: Copy, F: Fn(&T, &T) -> bool>(
    src: &mut [T],
    lo: usize,
    hi: usize,
    swap: &mut [T],
    is_less: &F,
    Ghost(lt): Ghost<spec_fn(T, T) -> bool>,
)
    requires
        strict_weak_order(lt),
        answers(*is_less, lt),
        lo <= hi <= old(src)@.len(),
        hi - lo <= old(swap)@.len(),
    ensures
        permuted_between(old(src)@, final(src)@, lo as int, hi as int),
        sorted_between(final(src)@, lo as int, hi as int, lt),
        final(swap)@.len() == old(swap)@.len(),
    decreases hi - lo,
{
    let n = hi - lo;
    let len = src.len();
    let ghost s0 = src@;
    if n < 5 {
        tiny_sort_at(src, lo, n, is_less, Ghost(lt));
        return;
    }
    if n < 8 {
        quad_swap_four_at(src, lo, is_less, Ghost(lt));
        let ghost s1 = src@;
        insert_from(src, lo, hi, lo + 4, is_less, Ghost(lt));
        proof {
            lemma_permuted_widen(s0, s1, lo as int, lo + 4, lo as int, hi as int);
            lemma_permuted_trans(s0, s1, src@, lo as int, hi as int);
        }
        return;
    }
    if n < 12 {
        parity_swap_eight_at(src, lo, swap, is_less, Ghost(lt));
        let ghost s1 = src@;
        proof {
            lemma_sorted_sub(s1, lo as int, lo + 8, lo as int, lo + 4, lt);
        }
        insert_from(src, lo, hi, lo + 4, is_less, Ghost(lt));
        proof {
            lemma_permuted_widen(s0, s1, lo as int, lo + 8, lo as int, hi as int);
            lemma_permuted_trans(s0, s1, src@, lo as int, hi as int);
        }
        return;
    }
    if n >= 16 && n < 24 {
        parity_swap_sixteen_at(src, lo, swap, is_less, Ghost(lt));
        let ghost s1 = src@;
        insert_from(src, lo, hi, lo + 16, is_less, Ghost(lt));
        proof {
            lemma_permuted_widen(s0, s1, lo as int, lo + 16, lo as int, hi as int);
            lemma_permuted_trans(s0, s1, src@, lo as int, hi as int);
        }
        return;
    }
    let half1 = n / 2;
    let quad1 = half1 / 2;
    let half2 = n - half1;
    let quad3 = half2 / 2;
    let m1 = lo + quad1;
    let m2 = lo + half1;
    let m3 = lo + half1 + quad3;
    tail_swap_at(src, lo, m1, swap, is_less, Ghost(lt));
    let ghost s1 = src@;
    tail_swap_at(src, m1, m2, swap, is_less, Ghost(lt));
    let ghost s2 = src@;
    tail_swap_at(src, m2, m3, swap, is_less, Ghost(lt));
    let ghost s3 = src@;
    tail_swap_at(src, m3, hi, swap, is_less, Ghost(lt));
    let ghost s4 = src@;
    proof {
        lemma_four_parts(s0, s1, s2, s3, s4, lo as int, m1 as int, m2 as int, m3 as int, hi as int, lt);
    }
    merge_quarters(src, lo, m1, m2, m3, hi, swap, is_less, Ghost(lt));
    proof {
        lemma_permuted_trans(s0, s4, src@, lo as int, hi as int);
    }
}

/// Sorts `src`, using `swap` (at least as long) as room for merging.
pub fn tail_swap<T: Copy, F: Fn(&T, &T) -> bool>(src: &mut [T], swap: &mut [T], is_less: &F)
    requires
        sorts_by(*is_less),
        old(src)@.len() <= old(swap)@.len(),
    ensures
        final(src)@.len() == old(src)@.len(),
        final(src)@.to_multiset() == old(src)@.to_multiset(),
        sorted_by(final(src)@, order_of(*is_less)),
        final(swap)@.len() == old(swap)@.len(),
{
    let n = src.len();
    tail_swap_at(src, 0, n, swap, is_less, Ghost(order_of(*is_less)));
    proof {
        lemma_permuted_widen(old(src)@, src@, 0, n as int, 0, n as int);
        assert(src@.subrange(0, n as int) =~= src@);
    }
}


/// Asymmetry: of two elements, at most one comes before the other.
proof fn lemma_asymmetric<T>(lt: spec_fn(T, T) -> bool, a: T, b: T)
    requires
        strict_weak_order(lt),
        lt(a, b),
    ensures
        !lt(b, a),
{
    if lt(b, a) {
        lemma_transitive(lt, a, b, a);
        lemma_irreflexive(lt, a);
    }
}


/// Exchanging two places inside a part exchanges them in the part.
proof fn lemma_swapped_subrange<T>(s: Seq<T>, i: int, j: int, lo: int, hi: int)
    requires
        0 <= lo <= i < hi <= s.len(),
        lo <= j < hi,
    ensures
        swapped(s, i, j).subrange(lo, hi) == swapped(s.subrange(lo, hi), i - lo, j - lo),
{
    assert(swapped(s, i, j).subrange(lo, hi) =~= swapped(s.subrange(lo, hi), i - lo, j - lo));
}

/// Moving `x` one place toward the front of `p` (taken at `q`).
proof fn lemma_step_front<T>(p: Seq<T>, x: T, y: T, q: int)
    requires
        1 <= q <= p.len(),
    ensures
        swapped(p.take(q) + seq![x] + p.skip(q) + seq![y], q - 1, q) == p.take(q - 1) + seq![x] + p.skip(q - 1) + seq![y],
{
    let a = p.take(q) + seq![x] + p.skip(q) + seq![y];
    let b = p.take(q - 1) + seq![x] + p.skip(q - 1) + seq![y];
    assert(a.len() == b.len());
    assert forall|i: int| 0 <= i < a.len() implies #[trigger] swapped(a, q - 1, q)[i] == b[i] by {
        if i < q - 1 {
            assert(a[i] == p[i] && b[i] == p[i]);
        } else if i == q - 1 {
            assert(a[q] == x && b[i] == x);
        } else if i == q {
            assert(a[q - 1] == p[q - 1] && b[i] == p[q - 1]);
        } else if i < p.len() + 1 {
            assert(a[i] == p[i - 1] && b[i] == p[i - 1]);
        } else {
            assert(a[i] == y && b[i] == y);
        }
    }
    assert(swapped(a, q - 1, q) =~= b);
}

/// Inserts the element at `idx` into the sorted run `[lo, idx)` of `src`,
/// making `[lo, idx]` sorted.
#[verifier::rlimit(100)]
#[verifier::spinoff_prover]
fn insert_one<T: Copy, F: Fn(&T, &T) -> bool>(src: &mut [T], lo: usize, idx: usize, is_less: &F, Ghost(lt): Ghost<spec_fn(T, T) -> bool>)
    requires
        strict_weak_order(lt),
        answers(*is_less, lt),
        lo < idx < old(src)@.len(),
        sorted_between(old(src)@, lo as int, idx as int, lt),
    ensures
        permuted_between(old(src)@, final(src)@, lo as int, idx + 1),
        sorted_between(final(src)@, lo as int, idx + 1, lt),
{
    let ghost s0 = src@;
    let len = src.len();
    let r = exchange_by(src, is_less, idx - 1, idx, Ghost(lt));
    let ghost s1 = src@;
    proof {
        lemma_exchange_permuted(s0, s1, idx - 1, idx as int, lo as int, idx + 1, r);
    }
    if !r {
        proof {
            let g = s1.subrange(lo as int, idx + 1);
            let pre = s0.subrange(lo as int, idx as int);
            lemma_asymmetric(lt, s0[idx - 1], s0[idx as int]);
            assert forall|i: int| 0 <= i < g.len() - 1 implies !lt(#[trigger] g[i + 1], g[i]) by {
                if i < g.len() - 2 {
                    assert(g[i + 1] == pre[i + 1] && g[i] == pre[i]);
                } else {
                    assert(g[i + 1] == s0[idx as int] && g[i] == s0[idx - 1]);
                }
            }
            lemma_adjacent_sorted(g, lt);
        }
        return;
    }
    let ghost p_seq = s0.subrange(lo as int, idx - 1);
    let ghost x = s0[idx as int];
    let ghost y = s0[idx - 1];
    proof {
        assert(s1.subrange(lo as int, idx + 1) =~= p_seq.take(idx - 1 - lo) + seq![x] + p_seq.skip(idx - 1 - lo) + seq![y]);
        assert forall|k: int| 0 <= k < p_seq.len() implies !lt(y, #[trigger] p_seq[k]) by {
            assert(p_seq[k] == s0.subrange(lo as int, idx as int)[k]);
            assert(y == s0.subrange(lo as int, idx as int)[idx - 1 - lo]);
        }
    }
    let front = is_less(&src[idx - 1], &src[lo]);
    proof {
        lemma_answer(*is_less, lt, s1[idx - 1], s1[lo as int], front);
    }
    let mut p = idx - 1;
    let mut go = true;
    while go && p > lo
        invariant
            strict_weak_order(lt),
            answers(*is_less, lt),
            lo <= p <= idx - 1,
            idx < len,
            len == src@.len(),
            permuted_between(s0, src@, lo as int, idx + 1),
            src@.subrange(lo as int, idx + 1) == p_seq.take(p - lo) + seq![x] + p_seq.skip(p - lo) + seq![y],
            p_seq.len() == idx - 1 - lo,
            sorted_by(p_seq, lt),
            !lt(y, x),
            forall|k: int| 0 <= k < p_seq.len() ==> !lt(y, #[trigger] p_seq[k]),
            front ==> lt(x, p_seq[0]) || p_seq.len() == 0,
            front ==> go,
            !front ==> forall|k: int| p - lo <= k < p_seq.len() ==> !lt(#[trigger] p_seq[k], x),
            !front && !go ==> p > lo && lt(p_seq[p - lo - 1], x),
        decreases p + (if go { 1int } else { 0int }),
    {
        let ghost cur = src@;
        let ghost q = (p - lo) as int;
        if front {
            swap_at(src, p - 1, p);
            proof {
                lemma_swap_permuted(cur, p - 1, p as int, lo as int, idx + 1);
                lemma_permuted_trans(s0, cur, src@, lo as int, idx + 1);
                lemma_swapped_subrange(cur, p - 1, p as int, lo as int, idx + 1);
                lemma_step_front(p_seq, x, y, q);
            }
            p = p - 1;
        } else {
            proof {
                let seg = cur.subrange(lo as int, idx + 1);
                assert(seg[q] == x);
                assert(seg[q - 1] == p_seq[q - 1]);
                assert(cur[p - 1] == seg[q - 1]);
                assert(cur[p as int] == seg[q]);
            }
            let r2 = exchange_by(src, is_less, p - 1, p, Ghost(lt));
            if r2 {
                proof {
                    lemma_swap_permuted(cur, p - 1, p as int, lo as int, idx + 1);
                    lemma_permuted_trans(s0, cur, src@, lo as int, idx + 1);
                    lemma_swapped_subrange(cur, p - 1, p as int, lo as int, idx + 1);
                    lemma_step_front(p_seq, x, y, q);
                }
                p = p - 1;
            } else {
                go = false;
            }
        }
    }
    proof {
        let q = (p - lo) as int;
        let g = src@.subrange(lo as int, idx + 1);
        assert(g.len() == p_seq.len() + 2);
        assert forall|i: int| 0 <= i < g.len() - 1 implies !lt(#[trigger] g[i + 1], g[i]) by {
            if i < q - 1 {
                assert(g[i] == p_seq[i] && g[i + 1] == p_seq[i + 1]);
            } else if i == q - 1 {
                assert(g[i] == p_seq[q - 1] && g[i + 1] == x);
                if front {
                    assert(p == lo);
                } else {
                    if go {
                        assert(p == lo);
                    }
                    lemma_asymmetric(lt, p_seq[q - 1], x);
                }
            } else if i == q {
                assert(g[i] == x);
                if q < p_seq.len() {
                    assert(g[i + 1] == p_seq[q]);
                    if front {
                        assert(q == 0);
                        lemma_asymmetric(lt, x, p_seq[0]);
                    }
                } else {
                    assert(g[i + 1] == y);
                }
            } else if i < p_seq.len() {
                assert(g[i] == p_seq[i - 1] && g[i + 1] == p_seq[i]);
            } else {
                assert(g[i] == p_seq[i - 1] && g[i + 1] == y);
            }
        }
        lemma_adjacent_sorted(g, lt);
    }
}

/// Sorts `[lo, hi)` of `src`, of which `[lo, off)` is sorted, by inserting
/// the other elements one by one.
fn insert_from<T: Copy, F: Fn(&T, &T) -> bool>(
    src: &mut [T],
    lo: usize,
    hi: usize,
    off: usize,
    is_less: &F,
    Ghost(lt): Ghost<spec_fn(T, T) -> bool>,
)
    requires
        strict_weak_order(lt),
        answers(*is_less, lt),
        lo < off <= hi <= old(src)@.len(),
        sorted_between(old(src)@, lo as int, off as int, lt),
    ensures
        permuted_between(old(src)@, final(src)@, lo as int, hi as int),
        sorted_between(final(src)@, lo as int, hi as int, lt),
{
    let ghost s0 = src@;
    let mut idx = off;
    proof {
        lemma_permuted_refl(s0, lo as int, hi as int);
    }
    while idx < hi
        invariant
            strict_weak_order(lt),
            answers(*is_less, lt),
            lo < off <= idx <= hi <= src@.len(),
            permuted_between(s0, src@, lo as int, hi as int),
            sorted_between(src@, lo as int, idx as int, lt),
        decreases hi - idx,
    {
        let ghost cur = src@;
        insert_one(src, lo, idx, is_less, Ghost(lt));
        proof {
            lemma_permuted_widen(cur, src@, lo as int, idx + 1, lo as int, hi as int);
            lemma_permuted_trans(s0, cur, src@, lo as int, hi as int);
        }
        idx = idx + 1;
    }
}

/// Sorts `src`, of which the elements before `offset` are sorted, by
/// inserting the others one by one.
pub fn twice_unguarded_insert<T: Copy, F: Fn(&T, &T) -> bool>(src: &mut [T], is_less: &F, offset: usize)
    requires
        sorts_by(*is_less),
        0 < offset <= old(src)@.len(),
        sorted_between(old(src)@, 0, offset as int, order_of(*is_less)),
    ensures
        final(src)@.len() == old(src)@.len(),
        final(src)@.to_multiset() == old(src)@.to_multiset(),
        sorted_by(final(src)@, order_of(*is_less)),
{
    let n = src.len();
    insert_from(src, 0, n, offset, is_less, Ghost(order_of(*is_less)));
    proof {
        lemma_permuted_widen(old(src)@, src@, 0, n as int, 0, n as int);
        assert(src@.subrange(0, n as int) =~= src@);
    }
}


/// Block `b` of thirty-two elements of `s` is sorted by `lt`.
pub open spec fn block_sorted<T>(s: Seq<T>, b: int, lt: spec_fn(T, T) -> bool) -> bool {
    sorted_between(s, 32 * b, 32 * b + 32, lt)
}

/// Sorts each whole block of thirty-two elements of `src`, and the
/// elements after the last whole block.
fn quad_swap_by<T: Copy, F: Fn(&T, &T) -> bool>(src: &mut [T], is_less: &F, Ghost(lt): Ghost<spec_fn(T, T) -> bool>)
    requires
        strict_weak_order(lt),
        answers(*is_less, lt),
    ensures
        final(src)@.len() == old(src)@.len(),
        final(src)@.to_multiset() == old(src)@.to_multiset(),
        forall|b: int| 0 <= b < old(src)@.len() / 32 ==> #[trigger] block_sorted(final(src)@, b, lt),
        sorted_between(final(src)@, (32 * (old(src)@.len() / 32)) as int, old(src)@.len() as int, lt),
{
    let ghost s0 = src@;
    let len = src.len();
    if len == 0 {
        proof {
            assert(src@.subrange(0, 0).len() == 0);
        }
        return;
    }
    let mut room: Vec<T> = Vec::new();
    let mut k: usize = 0;
    while k < 32
        invariant
            k <= 32,
            room@.len() == k,
            len == src@.len(),
            len > 0,
        decreases 32 - k,
    {
        room.push(src[0]);
        k = k + 1;
    }
    let count = len / 32;
    let mut i: usize = 0;
    proof {
        lemma_permuted_refl(s0, 0, 0);
    }
    while i < count
        invariant
            strict_weak_order(lt),
            answers(*is_less, lt),
            len == src@.len(),
            count == len / 32,
            i <= count,
            room@.len() == 32,
            permuted_between(s0, src@, 0, 32 * i),
            forall|b: int| 0 <= b < i ==> #[trigger] block_sorted(src@, b, lt),
        decreases count - i,
    {
        let ghost cur = src@;
        parity_swap_thirtytwo_at(src, 32 * i, room.as_mut_slice(), is_less, Ghost(lt));
        proof {
            assert forall|b: int| 0 <= b < i + 1 implies #[trigger] block_sorted(src@, b, lt) by {
                if b < i {
                    assert(block_sorted(cur, b, lt));
                    lemma_outside_kept(cur, src@, 32 * i, 32 * i + 32, 32 * b, 32 * b + 32);
                }
            }
            lemma_permuted_widen(cur, src@, 32 * i, 32 * i + 32, 0, 32 * i + 32);
            lemma_permuted_widen(s0, cur, 0, 32 * i, 0, 32 * i + 32);
            lemma_permuted_trans(s0, cur, src@, 0, 32 * i + 32);
        }
        i = i + 1;
    }
    let start = 32 * count;
    let ghost mid = src@;
    tail_swap_at(src, start, len, room.as_mut_slice(), is_less, Ghost(lt));
    proof {
        assert forall|b: int| 0 <= b < count implies #[trigger] block_sorted(src@, b, lt) by {
            assert(block_sorted(mid, b, lt));
            lemma_outside_kept(mid, src@, start as int, len as int, 32 * b, 32 * b + 32);
        }
        lemma_permuted_widen(mid, src@, start as int, len as int, 0, len as int);
        lemma_permuted_widen(s0, mid, 0, start as int, 0, len as int);
    }
}


/// Sorts each whole block of thirty-two elements of `src`, and the
/// elements after the last whole block.
pub fn quad_swap<T: Copy, F: Fn(&T, &T) -> bool>(src: &mut [T], is_less: &F)
    requires
        sorts_by(*is_less),
    ensures
        final(src)@.len() == old(src)@.len(),
        final(src)@.to_multiset() == old(src)@.to_multiset(),
        forall|b: int| 0 <= b < old(src)@.len() / 32 ==> #[trigger] block_sorted(final(src)@, b, order_of(*is_less)),
        sorted_between(final(src)@, (32 * (old(src)@.len() / 32)) as int, old(src)@.len() as int, order_of(*is_less)),
{
    quad_swap_by(src, is_less, Ghost(order_of(*is_less)));
}

/// Run `k` of width `w` of `s` (from `k * w` up to `(k + 1) * w` or the end)
/// is sorted by `lt`.
pub open spec fn run_sorted<T>(s: Seq<T>, w: int, k: int, lt: spec_fn(T, T) -> bool) -> bool {
    sorted_between(s, k * w, if (k + 1) * w < s.len() { (k + 1) * w } else { s.len() as int }, lt)
}

/// Every run of width `w` of `s` is sorted by `lt`.
pub open spec fn runs_sorted<T>(s: Seq<T>, w: int, lt: spec_fn(T, T) -> bool) -> bool {
    forall|k: int| 0 <= k && k * w < s.len() ==> #[trigger] run_sorted(s, w, k, lt)
}

/// Where the runs of a pair of runs start and end.
proof fn lemma_pair_bounds(k: int, w: int)
    requires
        0 <= k,
        0 < w,
    ensures
        (2 * k) * w == k * (2 * w),
        (2 * k + 1) * w == k * (2 * w) + w,
        (2 * k + 2) * w == k * (2 * w) + 2 * w,
        (k + 1) * (2 * w) == k * (2 * w) + 2 * w,
{
    assert((2 * k) * w == k * (2 * w)) by (nonlinear_arith);
    assert((2 * k + 1) * w == k * (2 * w) + w) by (nonlinear_arith);
    assert((2 * k + 2) * w == k * (2 * w) + 2 * w) by (nonlinear_arith);
    assert((k + 1) * (2 * w) == k * (2 * w) + 2 * w) by (nonlinear_arith);
}

/// Later runs start later.
proof fn lemma_run_order(a: int, b: int, w: int)
    requires
        0 <= a <= b,
        0 < w,
    ensures
        a * w <= b * w,
{
    assert(a * w <= b * w) by (nonlinear_arith)
        requires
            a <= b,
            0 < w,
    ;
}

/// Merges the runs of width `block` of `src` pairwise, again and again,
/// until one run holds all (when `swap` is as long as `src`).
fn tail_merge_by<T: Copy, F: Fn(&T, &T) -> bool>(
    src: &mut [T],
    swap: &mut [T],
    block: usize,
    is_less: &F,
    Ghost(lt): Ghost<spec_fn(T, T) -> bool>,
)
    requires
        strict_weak_order(lt),
        answers(*is_less, lt),
        0 < block,
        old(src)@.len() <= usize::MAX / 2,
        old(src)@.len() <= old(swap)@.len() || old(swap)@.len() <= block,
        runs_sorted(old(src)@, block as int, lt),
    ensures
        final(src)@.len() == old(src)@.len(),
        final(src)@.to_multiset() == old(src)@.to_multiset(),
        old(src)@.len() <= old(swap)@.len() ==> sorted_by(final(src)@, lt),
        final(swap)@.len() == old(swap)@.len(),
{
    let ghost s0 = src@;
    let len = src.len();
    let swap_len = swap.len();
    let mut w = block;
    proof {
        lemma_permuted_refl(s0, 0, len as int);
    }
    while w < len && w < swap_len
        invariant
            strict_weak_order(lt),
            answers(*is_less, lt),
            len == src@.len(),
            len <= usize::MAX / 2,
            swap_len == swap@.len(),
            len <= swap_len || swap_len <= w,
            0 < w,
            permuted_between(s0, src@, 0, len as int),
            runs_sorted(src@, w as int, lt),
        decreases len - (if w < len { w } else { len }),
    {
        let ghost pass = src@;
        let ghost ww = w as int;
        let mut idx: usize = 0;
        let ghost mut k: int = 0;
        let mut go = true;
        while go
            invariant
                strict_weak_order(lt),
                answers(*is_less, lt),
                len == src@.len(),
                len <= usize::MAX / 2,
                swap_len == swap@.len(),
                len <= swap_len,
                0 < w < len,
                ww == w,
                0 <= k,
                go ==> idx == k * (2 * ww),
                go ==> idx < len,
                !go ==> k * (2 * ww) >= len,
                permuted_between(s0, src@, 0, len as int),
                forall|j: int| 0 <= j < k ==> #[trigger] run_sorted(src@, 2 * ww, j, lt),
                forall|j: int| 2 * k <= j && j * ww < len ==> #[trigger] run_sorted(src@, ww, j, lt),
            decreases len - idx,
        {
            let ghost cur = src@;
            let rest = len - idx;
            let mid = if rest > w { idx + w } else { len };
            let hi = if rest > 2 * w { idx + 2 * w } else { len };
            proof {
                lemma_pair_bounds(k, ww);
                assert(run_sorted(cur, ww, 2 * k, lt));
                if (2 * k + 1) * ww < len {
                    assert(run_sorted(cur, ww, 2 * k + 1, lt));
                } else {
                    assert(mid == len && hi == len);
                }
            }
            merge_runs(src, idx, mid, hi, swap, is_less, Ghost(lt));
            proof {
                lemma_permuted_widen(cur, src@, idx as int, hi as int, 0, len as int);
                lemma_permuted_trans(s0, cur, src@, 0, len as int);
                assert(run_sorted(src@, 2 * ww, k, lt));
                assert forall|j: int| 0 <= j < k + 1 implies #[trigger] run_sorted(src@, 2 * ww, j, lt) by {
                    if j < k {
                        assert(run_sorted(cur, 2 * ww, j, lt));
                        lemma_run_order(j + 1, k, 2 * ww);
                        lemma_pair_bounds(j, ww);
                        let e = if (j + 1) * (2 * ww) < len { (j + 1) * (2 * ww) } else { len as int };
                        lemma_run_order(j, j + 1, 2 * ww);
                        lemma_outside_kept(cur, src@, idx as int, hi as int, j * (2 * ww), e);
                    }
                }
                assert forall|j: int| 2 * (k + 1) <= j && j * ww < len implies #[trigger] run_sorted(src@, ww, j, lt) by {
                    assert(run_sorted(cur, ww, j, lt));
                    lemma_run_order(2 * k + 2, j, ww);
                    lemma_run_order(j, j + 1, ww);
                    let e = if (j + 1) * ww < len { (j + 1) * ww } else { len as int };
                    lemma_outside_kept(cur, src@, idx as int, hi as int, j * ww, e);
                }
            }
            if rest > 2 * w {
                idx = idx + 2 * w;
            } else {
                idx = len;
                go = false;
            }
            proof {
                lemma_pair_bounds(k, ww);
                k = k + 1;
            }
        }
        proof {
            assert forall|j: int| 0 <= j && j * (2 * ww) < len implies #[trigger] run_sorted(src@, 2 * ww, j, lt) by {
                if j >= k {
                    lemma_run_order(k, j, 2 * ww);
                }
            }
        }
        w = 2 * w;
    }
    proof {
        lemma_permuted_widen(s0, src@, 0, len as int, 0, len as int);
        assert(src@.subrange(0, len as int) =~= src@);
        if len <= swap_len && len > 0 {
            assert(run_sorted(src@, w as int, 0, lt));
            assert(0 * (w as int) == 0);
            assert(1 * (w as int) == w);
        }
    }
}

/// Merges the runs of width `block` of `src` pairwise, again and again,
/// until one run holds all (when `swap` is as long as `src`).
pub fn tail_merge<T: Copy, F: Fn(&T, &T) -> bool>(src: &mut [T], swap: &mut [T], block: usize, is_less: &F)
    requires
        sorts_by(*is_less),
        0 < block,
        old(src)@.len() <= usize::MAX / 2,
        old(src)@.len() <= old(swap)@.len() || old(swap)@.len() <= block,
        runs_sorted(old(src)@, block as int, order_of(*is_less)),
    ensures
        final(src)@.len() == old(src)@.len(),
        final(src)@.to_multiset() == old(src)@.to_multiset(),
        old(src)@.len() <= old(swap)@.len() ==> sorted_by(final(src)@, order_of(*is_less)),
        final(swap)@.len() == old(swap)@.len(),
{
    tail_merge_by(src, swap, block, is_less, Ghost(order_of(*is_less)));
}

/// Merges the four sorted runs of width `block` at the front of `src` into
/// one, through `swap`.
pub fn quad_merge_block<T: Copy, F: Fn(&T, &T) -> bool>(src: &mut [T], swap: &mut [T], block: usize, is_less: &F)
    requires
        sorts_by(*is_less),
        4 * block <= old(src)@.len(),
        4 * block <= old(swap)@.len(),
        sorted_between(old(src)@, 0, block as int, order_of(*is_less)),
        sorted_between(old(src)@, block as int, 2 * block, order_of(*is_less)),
        sorted_between(old(src)@, 2 * block, 3 * block, order_of(*is_less)),
        sorted_between(old(src)@, 3 * block, 4 * block, order_of(*is_less)),
    ensures
        permuted_between(old(src)@, final(src)@, 0, 4 * block),
        sorted_between(final(src)@, 0, 4 * block, order_of(*is_less)),
        final(swap)@.len() == old(swap)@.len(),
{
    let len = src.len();
    merge_quarters(src, 0, block, 2 * block, 3 * block, 4 * block, swap, is_less, Ghost(order_of(*is_less)));
}

/// Where the four runs of width `w` of group `g` start and end.
proof fn lemma_quad_bounds(g: int, w: int)
    requires
        0 <= g,
        0 < w,
    ensures
        (4 * g) * w == g * (4 * w),
        (4 * g + 1) * w == g * (4 * w) + w,
        (4 * g + 2) * w == g * (4 * w) + 2 * w,
        (4 * g + 3) * w == g * (4 * w) + 3 * w,
        (4 * g + 4) * w == g * (4 * w) + 4 * w,
        (g + 1) * (4 * w) == g * (4 * w) + 4 * w,
{
    assert((4 * g) * w == g * (4 * w)) by (nonlinear_arith);
    assert((4 * g + 1) * w == g * (4 * w) + w) by (nonlinear_arith);
    assert((4 * g + 2) * w == g * (4 * w) + 2 * w) by (nonlinear_arith);
    assert((4 * g + 3) * w == g * (4 * w) + 3 * w) by (nonlinear_arith);
    assert((4 * g + 4) * w == g * (4 * w) + 4 * w) by (nonlinear_arith);
    assert((g + 1) * (4 * w) == g * (4 * w) + 4 * w) by (nonlinear_arith);
}

/// The runs of width `w` from run `m` on are the runs of the part of `s`
/// that starts with run `m`.
proof fn lemma_runs_shift<T>(s: Seq<T>, lo: int, m: int, w: int, lt: spec_fn(T, T) -> bool)
    requires
        0 < w,
        0 <= m,
        lo == m * w,
        lo <= s.len(),
        forall|j: int| m <= j && j * w < s.len() ==> #[trigger] run_sorted(s, w, j, lt),
    ensures
        runs_sorted(s.subrange(lo, s.len() as int), w, lt),
{
    let sub = s.subrange(lo, s.len() as int);
    assert forall|k: int| 0 <= k && k * w < sub.len() implies #[trigger] run_sorted(sub, w, k, lt) by {
        assert((m + k) * w == lo + k * w) by (nonlinear_arith)
            requires
                lo == m * w,
        ;
        assert((m + k + 1) * w == lo + (k + 1) * w) by (nonlinear_arith)
            requires
                lo == m * w,
        ;
        assert((k + 1) * w == k * w + w) by (nonlinear_arith);
        assert(run_sorted(s, w, m + k, lt));
        let x = k * w;
        let y = if (k + 1) * w < sub.len() { (k + 1) * w } else { sub.len() as int };
        assert(sub.subrange(x, y) =~= s.subrange(lo + x, lo + y));
    }
}

/// Merges each four runs of width `w` of `src` into one run of width
/// `4 * w`: the whole groups of four by `merge_quarters`, and the runs after
/// the last whole group among themselves.
fn quad_pass<T: Copy, F: Fn(&T, &T) -> bool>(
    src: &mut [T],
    swap: &mut [T],
    w: usize,
    is_less: &F,
    Ghost(lt): Ghost<spec_fn(T, T) -> bool>,
)
    requires
        strict_weak_order(lt),
        answers(*is_less, lt),
        0 < w,
        4 * w < old(src)@.len(),
        old(src)@.len() <= usize::MAX / 2,
        old(src)@.len() <= old(swap)@.len(),
        runs_sorted(old(src)@, w as int, lt),
    ensures
        final(src)@.len() == old(src)@.len(),
        final(src)@.to_multiset() == old(src)@.to_multiset(),
        runs_sorted(final(src)@, 4 * w, lt),
        final(swap)@.len() == old(swap)@.len(),
{
    let ghost s0 = src@;
    let len = src.len();
    let b = 4 * w;
    let ghost ww = w as int;
    let ghost bb = b as int;
    let mut index: usize = 0;
    let ghost mut g: int = 0;
    proof {
        lemma_permuted_refl(s0, 0, len as int);
    }
    let mut go = true;
    while go
        invariant
            strict_weak_order(lt),
            answers(*is_less, lt),
            len == src@.len(),
            len <= usize::MAX / 2,
            len <= swap@.len(),
            swap@.len() == old(swap)@.len(),
            0 < w,
            ww == w,
            bb == b,
            b == 4 * w,
            b < len,
            0 <= g,
            index == g * bb,
            go ==> index + b <= len,
            !go ==> index <= len < index + b,
            permuted_between(s0, src@, 0, len as int),
            forall|j: int| 0 <= j < g ==> #[trigger] run_sorted(src@, bb, j, lt),
            forall|j: int| 4 * g <= j && j * ww < len ==> #[trigger] run_sorted(src@, ww, j, lt),
        decreases len - index,
    {
        let ghost cur = src@;
        proof {
            lemma_quad_bounds(g, ww);
            assert(run_sorted(cur, ww, 4 * g, lt));
            assert(run_sorted(cur, ww, 4 * g + 1, lt));
            assert(run_sorted(cur, ww, 4 * g + 2, lt));
            assert(run_sorted(cur, ww, 4 * g + 3, lt));
        }
        merge_quarters(src, index, index + w, index + 2 * w, index + 3 * w, index + b, swap, is_less, Ghost(lt));
        proof {
            lemma_permuted_widen(cur, src@, index as int, index + b, 0, len as int);
            lemma_permuted_trans(s0, cur, src@, 0, len as int);
            assert(run_sorted(src@, bb, g, lt));
            assert forall|j: int| 0 <= j < g + 1 implies #[trigger] run_sorted(src@, bb, j, lt) by {
                if j < g {
                    assert(run_sorted(cur, bb, j, lt));
                    lemma_run_order(j + 1, g, bb);
                    lemma_quad_bounds(j, ww);
                    lemma_outside_kept(cur, src@, index as int, index + b, j * bb, (j + 1) * bb);
                }
            }
            assert forall|j: int| 4 * (g + 1) <= j && j * ww < len implies #[trigger] run_sorted(src@, ww, j, lt) by {
                assert(run_sorted(cur, ww, j, lt));
                lemma_run_order(4 * g + 4, j, ww);
                lemma_run_order(j, j + 1, ww);
                let e = if (j + 1) * ww < len { (j + 1) * ww } else { len as int };
                lemma_outside_kept(cur, src@, index as int, index + b, j * ww, e);
            }
        }
        if len - index - b < b {
            go = false;
        }
        index = index + b;
        proof {
            lemma_quad_bounds(g, ww);
            g = g + 1;
        }
    }
    let ghost cur = src@;
    proof {
        lemma_quad_bounds(g, ww);
        lemma_runs_shift(cur, index as int, 4 * g, ww, lt);
    }
    let ghost mut merged: Seq<T> = Seq::empty();
    {
        let (front, rest) = src.split_at_mut(index);
        tail_merge_by(rest, swap, w, is_less, Ghost(lt));
        proof {
            merged = rest@;
        }
    }
    proof {
        assert(merged.len() == len - index);
        assert(merged.to_multiset() == cur.subrange(index as int, len as int).to_multiset());
        assert(src@ == cur.subrange(0, index as int) + merged);
        assert(src@.subrange(0, index as int) =~= cur.subrange(0, index as int));
        assert(src@.subrange(index as int, len as int) =~= merged);
        assert(permuted_between(cur, src@, index as int, len as int)) by {
            assert(src@.subrange(len as int, len as int) =~= cur.subrange(len as int, len as int));
        }
        lemma_permuted_widen(cur, src@, index as int, len as int, 0, len as int);
        lemma_permuted_trans(s0, cur, src@, 0, len as int);
        assert forall|j: int| 0 <= j && j * bb < len implies #[trigger] run_sorted(src@, bb, j, lt) by {
            if j < g {
                assert(run_sorted(cur, bb, j, lt));
                lemma_run_order(j + 1, g, bb);
                lemma_quad_bounds(j, ww);
                lemma_outside_kept(cur, src@, index as int, len as int, j * bb, (j + 1) * bb);
            } else if j > g {
                lemma_run_order(g + 1, j, bb);
            } else {
                assert(src@.subrange(index as int, len as int) =~= src@.subrange(j * bb, len as int));
            }
        }
        lemma_permuted_widen(s0, src@, 0, len as int, 0, len as int);
    }
}

/// The width of the sorted runs at which merging four runs at a time stops:
/// `w` times four, again and again, while four runs are shorter than `len`.
pub open spec fn quad_width(w: nat, len: nat) -> nat
    decreases len - w,
    when w > 0
{
    if 4 * w >= len {
        w
    } else {
        quad_width(4 * w, len)
    }
}

/// Merges the sorted runs of width `block` of `src` four at a time while
/// four runs are shorter than `src`, then pairwise until one run holds all;
/// gives half the width of four runs at the width where the first stops.
fn quad_merge_by<T: Copy, F: Fn(&T, &T) -> bool>(
    src: &mut [T],
    swap: &mut [T],
    block: usize,
    is_less: &F,
    Ghost(lt): Ghost<spec_fn(T, T) -> bool>,
) -> (res: usize)
    requires
        strict_weak_order(lt),
        answers(*is_less, lt),
        0 < block <= usize::MAX / 4,
        old(src)@.len() <= usize::MAX / 8,
        old(src)@.len() <= old(swap)@.len(),
        runs_sorted(old(src)@, block as int, lt),
    ensures
        final(src)@.len() == old(src)@.len(),
        final(src)@.to_multiset() == old(src)@.to_multiset(),
        sorted_by(final(src)@, lt),
        final(swap)@.len() == old(swap)@.len(),
        res == 2 * quad_width(block as nat, old(src)@.len()),
{
    let len = src.len();
    let swap_len = swap.len();
    let mut w = block;
    while 4 * w < len && 4 * w < swap_len
        invariant
            strict_weak_order(lt),
            answers(*is_less, lt),
            len == src@.len(),
            len <= usize::MAX / 8,
            len <= swap_len,
            swap_len == swap@.len(),
            swap@.len() == old(swap)@.len(),
            0 < w <= usize::MAX / 4,
            runs_sorted(src@, w as int, lt),
            src@.to_multiset() == old(src)@.to_multiset(),
            quad_width(w as nat, len as nat) == quad_width(block as nat, len as nat),
        decreases len - w,
    {
        quad_pass(src, swap, w, is_less, Ghost(lt));
        w = 4 * w;
    }
    tail_merge_by(src, swap, w, is_less, Ghost(lt));
    2 * w
}

/// Merges the sorted runs of width `block` of `src` four at a time while
/// four runs are shorter than `src`, then pairwise until all of `src` is
/// sorted; gives half the width of four runs at the width where the first
/// stops.
pub fn quad_merge<T: Copy, F: Fn(&T, &T) -> bool>(src: &mut [T], swap: &mut [T], block: usize, is_less: &F) -> (res: usize)
    requires
        sorts_by(*is_less),
        0 < block <= usize::MAX / 4,
        old(src)@.len() <= usize::MAX / 8,
        old(src)@.len() <= old(swap)@.len(),
        runs_sorted(old(src)@, block as int, order_of(*is_less)),
    ensures
        final(src)@.len() == old(src)@.len(),
        final(src)@.to_multiset() == old(src)@.to_multiset(),
        sorted_by(final(src)@, order_of(*is_less)),
        final(swap)@.len() == old(swap)@.len(),
        res == 2 * quad_width(block as nat, old(src)@.len()),
{
    quad_merge_by(src, swap, block, is_less, Ghost(order_of(*is_less)))
}

/// `p` splits the elements `[lo, hi)` of `s` into those that `key` does not
/// come before, up to `p`, and those that it comes before, from `p` on.
pub open spec fn splits_at<T>(s: Seq<T>, key: T, lo: int, hi: int, p: int, lt: spec_fn(T, T) -> bool) -> bool {
    &&& lo <= p <= hi
    &&& forall|i: int| lo <= i < p ==> !lt(key, #[trigger] s[i])
    &&& forall|i: int| p <= i < hi ==> lt(key, #[trigger] s[i])
}

/// Searches the elements `[right, right + top)` of `src` for the first one
/// that `src[left]` comes before, halving the span at each step, and gives
/// its place counted from `left` (`right + top` where there is none).  The
/// place is within the span; where the span is sorted it is the one that
/// splits it.
pub fn monobound_binary_first<T: Copy, F: Fn(&T, &T) -> bool>(
    src: &mut [T],
    right: usize,
    left: usize,
    top: usize,
    is_less: &F,
) -> (res: usize)
    requires
        sorts_by(*is_less),
        left <= right,
        0 < top,
        right + top <= old(src)@.len(),
    ensures
        final(src)@ == old(src)@,
        right <= left + res <= right + top,
        sorted_between(old(src)@, right as int, right + top, order_of(*is_less)) ==> splits_at(
            old(src)@,
            old(src)@[left as int],
            right as int,
            right + top,
            left + res,
            order_of(*is_less),
        ),
{
    let ghost lt = order_of(*is_less);
    let ghost s = src@;
    let ghost hi = right + top;
    let key = src[left];
    let mut end = right + top;
    let mut span = top;
    while span > 1
        invariant
            strict_weak_order(lt),
            answers(*is_less, lt),
            s == src@,
            key == s[left as int],
            hi == right + top,
            hi <= s.len(),
            1 <= span,
            right <= end - span,
            end <= hi,
            sorted_between(s, right as int, hi, lt) ==> {
                &&& forall|i: int| right <= i < end - span ==> !lt(key, #[trigger] s[i])
                &&& forall|i: int| end <= i < hi ==> lt(key, #[trigger] s[i])
            },
        decreases span,
    {
        let mid = span / 2;
        let r = is_less(&key, &src[end - mid]);
        proof {
            lemma_answer(*is_less, lt, key, s[end - mid], r);
            reveal(strict_weak_order);
            if sorted_between(s, right as int, hi, lt) {
                let c = end - mid;
                if r {
                    assert forall|i: int| end - mid <= i < hi implies lt(key, #[trigger] s[i]) by {
                        if i < end {
                            if i > c {
                                assert(s.subrange(right as int, hi)[c - right] == s[c]);
                                assert(s.subrange(right as int, hi)[i - right] == s[i]);
                                assert(!lt(s[i], s[c]));
                                if !lt(key, s[i]) {
                                    assert(!lt(key, s[c]));
                                }
                            }
                        }
                    }
                } else {
                    assert forall|i: int| right <= i < end - span + mid implies !lt(key, #[trigger] s[i]) by {
                        if i >= end - span {
                            if i < c {
                                assert(s.subrange(right as int, hi)[c - right] == s[c]);
                                assert(s.subrange(right as int, hi)[i - right] == s[i]);
                                assert(!lt(s[c], s[i]));
                            }
                        }
                    }
                }
            }
        }
        if r {
            end = end - mid;
        }
        span = span - mid;
    }
    let r = is_less(&key, &src[end - 1]);
    proof {
        lemma_answer(*is_less, lt, key, s[end - 1], r);
    }
    if r {
        end = end - 1;
    }
    end - left
}

/// Checks whether the run `[0, lblock)` of `src` already comes before the
/// run `[lblock, lblock + right)`; where it does not, finds by
/// `monobound_binary_first` where the first element of the second half of
/// the left run would go in the right run, and takes that many elements off
/// the right run.  The elements are not moved.
pub fn rotate_merge_block<T: Copy, F: Fn(&T, &T) -> bool>(
    src: &mut [T],
    swap: &mut [T],
    lblock: usize,
    right: usize,
    is_less: &F,
)
    requires
        sorts_by(*is_less),
        0 < lblock < old(src)@.len(),
        lblock + right <= old(src)@.len(),
        sorted_between(old(src)@, lblock as int, lblock + right, order_of(*is_less)),
        order_of(*is_less)(old(src)@[lblock as int], old(src)@[lblock - 1]) ==> {
            &&& right > 0
            &&& forall|p: int|
                #[trigger] splits_at(
                    old(src)@,
                    old(src)@[lblock - lblock / 2],
                    lblock as int,
                    lblock + right,
                    p,
                    order_of(*is_less),
                ) ==> p - (lblock - lblock / 2) <= right
        },
    ensures
        final(src)@ == old(src)@,
        final(swap)@ == old(swap)@,
{
    let ghost lt = order_of(*is_less);
    let r = is_less(&src[lblock], &src[lblock - 1]);
    proof {
        lemma_answer(*is_less, lt, src@[lblock as int], src@[lblock - 1], r);
    }
    if !r {
        return;
    }
    let rblock = lblock / 2;
    let lb = lblock - rblock;
    let left = monobound_binary_first(src, lb + rblock, lb, right, is_less);
    let _rest = right - left;
}

/// Merges the sorted runs `[0, block)` and `[block, len)` of `src` through
/// `swap`, which holds all of `src`, where `src` is longer than `block`;
/// leaves `src` as it is where it is not.
pub fn rotate_merge<T: Copy, F: Fn(&T, &T) -> bool>(src: &mut [T], swap: &mut [T], block: usize, is_less: &F)
    requires
        sorts_by(*is_less),
        block <= usize::MAX / 2,
        block < old(src)@.len() <= 2 * block && old(src)@.len() - block <= old(swap)@.len() ==> old(src)@.len() <= old(swap)@.len(),
        block < old(src)@.len() <= 2 * block ==> sorted_between(old(src)@, 0, block as int, order_of(*is_less)),
        block < old(src)@.len() <= 2 * block ==> sorted_between(old(src)@, block as int, old(src)@.len() as int, order_of(*is_less)),
    ensures
        final(src)@.len() == old(src)@.len(),
        final(src)@.to_multiset() == old(src)@.to_multiset(),
        block < old(src)@.len() <= 2 * block && old(src)@.len() - block <= old(swap)@.len() ==> sorted_by(final(src)@, order_of(*is_less)),
        !(block < old(src)@.len() <= 2 * block && old(src)@.len() - block <= old(swap)@.len()) ==> final(src)@ == old(src)@,
        final(swap)@.len() == old(swap)@.len(),
{
    rotate_merge_by(src, swap, block, is_less, Ghost(order_of(*is_less)));
}

/// Merges the sorted runs `[0, block)` and `[block, len)` of `src` by `lt`
/// as `rotate_merge` does.
fn rotate_merge_by<T: Copy, F: Fn(&T, &T) -> bool>(
    src: &mut [T],
    swap: &mut [T],
    block: usize,
    is_less: &F,
    Ghost(lt): Ghost<spec_fn(T, T) -> bool>,
)
    requires
        strict_weak_order(lt),
        answers(*is_less, lt),
        block <= usize::MAX / 2,
        block < old(src)@.len() <= 2 * block && old(src)@.len() - block <= old(swap)@.len() ==> old(src)@.len() <= old(swap)@.len(),
        block < old(src)@.len() <= 2 * block ==> sorted_between(old(src)@, 0, block as int, lt),
        block < old(src)@.len() <= 2 * block ==> sorted_between(old(src)@, block as int, old(src)@.len() as int, lt),
    ensures
        final(src)@.len() == old(src)@.len(),
        final(src)@.to_multiset() == old(src)@.to_multiset(),
        block < old(src)@.len() <= 2 * block && old(src)@.len() - block <= old(swap)@.len() ==> sorted_by(final(src)@, lt),
        !(block < old(src)@.len() <= 2 * block && old(src)@.len() - block <= old(swap)@.len()) ==> final(src)@ == old(src)@,
        final(swap)@.len() == old(swap)@.len(),
{
    let len = src.len();
    if len <= block * 2 && len > block && len - block <= swap.len() {
        partial_backward_merge_by(src, swap, block, is_less, Ghost(lt));
    }
}

/// Four runs of the width where merging four at a time stops are at least
/// as long as the whole, and that width is at least the first.
proof fn lemma_quad_width_reached(w: nat, len: nat)
    requires
        w > 0,
    ensures
        4 * quad_width(w, len) >= len,
        quad_width(w, len) >= w,
        quad_width(w, len) == w || quad_width(w, len) < len,
    decreases len - w,
{
    if 4 * w < len {
        lemma_quad_width_reached(4 * w, len);
    }
}

/// Both parts of a sorted sequence are sorted.
proof fn lemma_sorted_parts<T>(s: Seq<T>, m: int, lt: spec_fn(T, T) -> bool)
    requires
        sorted_by(s, lt),
        0 <= m,
    ensures
        m <= s.len() ==> sorted_between(s, 0, m, lt),
        m <= s.len() ==> sorted_between(s, m, s.len() as int, lt),
{
    if m <= s.len() {
        let a = s.subrange(0, m);
        let b = s.subrange(m, s.len() as int);
        assert forall|i: int, j: int| 0 <= i < j < a.len() implies !lt(#[trigger] a[j], #[trigger] a[i]) by {
            assert(a[i] == s[i] && a[j] == s[j]);
        }
        assert forall|i: int, j: int| 0 <= i < j < b.len() implies !lt(#[trigger] b[j], #[trigger] b[i]) by {
            assert(b[i] == s[m + i] && b[j] == s[m + j]);
        }
    }
}

/// Blocks of thirty-two sorted, and the rest sorted, are runs of width
/// thirty-two sorted.
proof fn lemma_blocks_runs<T>(s: Seq<T>, lt: spec_fn(T, T) -> bool)
    requires
        forall|b: int| 0 <= b < s.len() / 32 ==> #[trigger] block_sorted(s, b, lt),
        sorted_between(s, (32 * (s.len() / 32)) as int, s.len() as int, lt),
    ensures
        runs_sorted(s, 32, lt),
{
    assert forall|k: int| 0 <= k && k * 32 < s.len() implies #[trigger] run_sorted(s, 32, k, lt) by {
        if k < s.len() / 32 {
            assert(block_sorted(s, k, lt));
        }
    }
}

/// Sorts all of `src` by `lt`, which `is_less` answers by, using a copy of
/// `src` as room for merging: short slices by `tail_swap`, longer ones by
/// sorting blocks of thirty-two, merging them four at a time and pairwise
/// (`quad_merge`), and merging the last two runs (`rotate_merge`).
fn sort_with<T: Copy, F: Fn(&T, &T) -> bool>(src: &mut [T], is_less: &F, Ghost(lt): Ghost<spec_fn(T, T) -> bool>)
    requires
        strict_weak_order(lt),
        answers(*is_less, lt),
    ensures
        final(src)@.len() == old(src)@.len(),
        final(src)@.to_multiset() == old(src)@.to_multiset(),
        sorted_by(final(src)@, lt),
{
    let n = src.len();
    let mut room: Vec<T> = Vec::new();
    let mut i: usize = 0;
    while i < n
        invariant
            i <= n,
            n == src@.len(),
            room@.len() == i,
        decreases n - i,
    {
        room.push(src[i]);
        i = i + 1;
    }
    if n < 32 || n > usize::MAX / 8 {
        tail_swap_at(src, 0, n, room.as_mut_slice(), is_less, Ghost(lt));
        proof {
            lemma_permuted_widen(old(src)@, src@, 0, n as int, 0, n as int);
            assert(src@.subrange(0, n as int) =~= src@);
        }
    } else {
        quad_swap_by(src, is_less, Ghost(lt));
        proof {
            lemma_blocks_runs(src@, lt);
        }
        let block = quad_merge_by(src, room.as_mut_slice(), 32, is_less, Ghost(lt));
        proof {
            lemma_quad_width_reached(32, n as nat);
            lemma_sorted_parts(src@, block as int, lt);
        }
        rotate_merge_by(src, room.as_mut_slice(), block, is_less, Ghost(lt));
    }
}

/// Sorts `src` by the order `is_less` answers by: the result holds the same
/// elements, and none comes before one placed ahead of it.
pub fn quad_sort_order_by<T: Copy, F: Fn(&T, &T) -> bool>(src: &mut [T], is_less: F)
    requires
        sorts_by(is_less),
    ensures
        final(src)@.len() == old(src)@.len(),
        final(src)@.to_multiset() == old(src)@.to_multiset(),
        sorted_by(final(src)@, order_of(is_less)),
{
    sort_with(src, &is_less, Ghost(order_of(is_less)));
}

/// `a` comes before `b` in the natural order of `T`.
pub open spec fn natural_less<T: PartialOrd>(a: T, b: T) -> bool {
    a.partial_cmp_spec(&b) == Some(Ordering::Less)
}

/// Sorts `src` by the natural order of `T`, when that order is a strict
/// weak order.
pub fn quad_sort<T: Ord + Copy>(src: &mut [T])
    requires
        T::obeys_partial_cmp_spec(),
        strict_weak_order(|a: T, b: T| natural_less(a, b)),
    ensures
        final(src)@.len() == old(src)@.len(),
        final(src)@.to_multiset() == old(src)@.to_multiset(),
        sorted_by(final(src)@, |a: T, b: T| natural_less(a, b)),
{
    let ghost lt = |a: T, b: T| natural_less(a, b);
    let is_less = |a: &T, b: &T| -> (r: bool)
        ensures
            T::obeys_partial_cmp_spec() ==> r == natural_less(*a, *b),
        {
            *a < *b
        };
    proof {
        assert(answers(is_less, lt));
    }
    sort_with(src, &is_less, Ghost(lt));
}

/// Sorts `src` by the order `is_less` answers by, with the same blocks and
/// merges as `quad_sort_order_by`.
pub fn quicksort_order_by<T: Copy, F: Fn(&T, &T) -> bool>(src: &mut [T], is_less: F)
    requires
        sorts_by(is_less),
    ensures
        final(src)@.len() == old(src)@.len(),
        final(src)@.to_multiset() == old(src)@.to_multiset(),
        sorted_by(final(src)@, order_of(is_less)),
{
    sort_with(src, &is_less, Ghost(order_of(is_less)));
}

/// Sorts `src` by the natural order of `T`, as `quad_sort` does, when that
/// order is a strict weak order.
pub fn quicksort<T: Ord + Copy>(src: &mut [T])
    requires
        T::obeys_partial_cmp_spec(),
        strict_weak_order(|a: T, b: T| natural_less(a, b)),
    ensures
        final(src)@.len() == old(src)@.len(),
        final(src)@.to_multiset() == old(src)@.to_multiset(),
        sorted_by(final(src)@, |a: T, b: T| natural_less(a, b)),
{
    let ghost lt = |a: T, b: T| natural_less(a, b);
    let is_less = |a: &T, b: &T| -> (r: bool)
        ensures
            T::obeys_partial_cmp_spec() ==> r == natural_less(*a, *b),
        {
            *a < *b
        };
    proof {
        assert(answers(is_less, lt));
    }
    sort_with(src, &is_less, Ghost(lt));
}

} // verus!
