use vstd::prelude::*;

use crate::map::text::{render_set, set_text};
use vstd::set_lib::*;

verus! {

/// Bit `k` of a byte.
pub open spec fn bit_of(b: u8, k: usize) -> bool {
    b & (1u8 << k) != 0
}

proof fn lemma_set_bit(b: u8, k: usize, j: usize)
    requires
        k < 8,
        j < 8,
    ensures
        bit_of(b | (1u8 << k), j) == (j == k || bit_of(b, j)),
        bit_of(b & (0xffu8 - (1u8 << k)) as u8, j) == (j != k && bit_of(b, j)),
{
    assert(((b | (1u8 << k)) & (1u8 << j) != 0) == (j == k || b & (1u8 << j) != 0)) by (bit_vector)
        requires
            k < 8,
            j < 8,
    ;
    assert(((b & (0xffu8 - (1u8 << k)) as u8) & (1u8 << j) != 0) == (j != k && b & (1u8 << j) != 0)) by (bit_vector)
        requires
            k < 8,
            j < 8,
    ;
}

proof fn lemma_zero_byte(j: usize)
    requires
        j < 8,
    ensures
        !bit_of(0u8, j),
{
    assert(0u8 & (1u8 << j) == 0) by (bit_vector);
}

/// A set of numbers below `n` is finite and has at most `n` elements.
pub proof fn lemma_card_below(s: Set<usize>, n: nat)
    requires
        n <= usize::MAX + 1,
        forall|x: usize| #[trigger] s.contains(x) ==> x < n,
    ensures
        s.finite(),
        s.len() <= n,
    decreases n,
{
    if n == 0 {
        assert(s =~= Set::<usize>::empty());
    } else {
        let top = (n - 1) as usize;
        let t = s.remove(top);
        lemma_card_below(t, (n - 1) as nat);
        if s.contains(top) {
            assert(s =~= t.insert(top));
        } else {
            assert(s =~= t);
        }
    }
}

/// The numbers of `start..end` that `s` does not hold.
pub open spec fn fresh_in(s: Set<usize>, start: int, end: int) -> Set<usize> {
    Set::new(|x: usize| start <= x < end && !s.contains(x))
}

/// Adding `pos` to `cur`, which is `old` with `start..pos` added, adds one
/// number exactly when `old` lacked `pos`.
proof fn lemma_fresh_step(old: Set<usize>, cur: Set<usize>, start: int, pos: usize)
    requires
        old.finite(),
        cur.finite(),
        start <= pos,
        forall|x: usize| #[trigger] cur.contains(x) <==> (old.contains(x) || start <= x < pos),
        fresh_in(old, start, pos as int).finite(),
        cur.len() == old.len() + fresh_in(old, start, pos as int).len(),
    ensures
        fresh_in(old, start, pos + 1).finite(),
        cur.insert(pos).len() == old.len() + fresh_in(old, start, pos + 1).len(),
{
    let a = fresh_in(old, start, pos as int);
    let b = fresh_in(old, start, pos + 1);
    if old.contains(pos) {
        assert(b =~= a);
        assert(cur.insert(pos) =~= cur);
    } else {
        assert(b =~= a.insert(pos));
        assert(!a.contains(pos));
        assert(!cur.contains(pos));
    }
}

/// A set of small numbers kept as one bit per number.
pub struct BitMap {
    entries: Vec<u8>,
    cap: usize,
    len: usize,
    max_key: usize,
}

impl View for BitMap {
    type V = Set<usize>;

    /// The numbers in the set.
    closed spec fn view(&self) -> Set<usize> {
        Set::new(|i: usize| self.has(i))
    }
}

impl BitMap {
    closed spec fn has(&self, i: usize) -> bool {
        &&& i < self.bits()
        &&& bit_of(self.entries@[(i / 8) as int], i % 8)
    }

    /// How many numbers the bit storage can hold: `0..bits()`.
    pub closed spec fn bits(&self) -> nat {
        self.entries@.len() * 8
    }

    /// The capacity asked for at creation.
    pub closed spec fn spec_capacity(&self) -> nat {
        self.cap as nat
    }

    /// Largest number ever added (0 at first); no number in the set is
    /// larger.
    pub closed spec fn spec_max_key(&self) -> usize {
        self.max_key
    }

    /// Internal consistency.
    pub closed spec fn wf(&self) -> bool {
        &&& self.bits() <= isize::MAX + 8
        &&& self.cap <= isize::MAX
        &&& self.entries@.len() == self.cap / 8 + if self.cap % 8 == 0 { 0int } else { 1int }
        &&& self.bits() >= self.cap
        &&& self.len == self@.len()
        &&& forall|i: usize| #[trigger] self.has(i) ==> i <= self.max_key
        &&& (self.max_key < self.bits() || self.max_key == 0)
    }

    proof fn lemma_view(&self, i: usize)
        ensures
            self@.contains(i) == self.has(i),
    {
    }

    /// Facts of every well-formed map.
    pub proof fn lemma_wf(&self)
        requires
            self.wf(),
        ensures
            forall|i: usize| #[trigger] self@.contains(i) ==> i < self.bits() && i <= self.spec_max_key(),
            self@.finite(),
            self@.len() <= self.bits(),
            self.spec_max_key() < self.bits() || self.spec_max_key() == 0,
            self.bits() <= isize::MAX + 8,
            self.spec_capacity() <= isize::MAX,
            self.bits() == (self.spec_capacity() / 8 + if self.spec_capacity() % 8 == 0 { 0int } else { 1int }) * 8,
            self.bits() >= self.spec_capacity(),
    {
        lemma_card_below(self@, self.bits());
    }

    /// An empty set for the numbers `0..cap` (rounded up to whole bytes).
    pub fn new(cap: usize) -> (res: Self)
        requires
            cap <= isize::MAX,
        ensures
            res.wf(),
            res@ == Set::<usize>::empty(),
            res.spec_capacity() == cap,
            res.bits() == (cap / 8 + if cap % 8 == 0 { 0int } else { 1int }) * 8,
            res.spec_max_key() == 0,
    {
        let len = cap / 8 + if cap % 8 == 0 { 0 } else { 1 };
        let res = BitMap { entries: vec![0u8; len], cap, len: 0, max_key: 0 };
        proof {
            assert forall|i: usize| !res.has(i) by {
                if i < res.bits() {
                    lemma_zero_byte(i % 8);
                }
            }
            assert(res@ =~= Set::<usize>::empty());
        }
        res
    }

    /// The capacity asked for at creation.
    pub fn capacity(&self) -> (res: usize)
        ensures
            res == self.spec_capacity(),
    {
        self.cap
    }

    /// Number of numbers in the set.
    pub fn len(&self) -> (res: usize)
        requires
            self.wf(),
        ensures
            res == self@.len(),
    {
        self.len
    }

    /// Whether the set is empty.
    pub fn is_empty(&self) -> (res: bool)
        requires
            self.wf(),
        ensures
            res == (self@.len() == 0),
    {
        self.len == 0
    }

    /// Removes every number.
    pub fn clear(&mut self)
        requires
            old(self).wf(),
        ensures
            final(self).wf(),
            final(self)@ == Set::<usize>::empty(),
            final(self).bits() == old(self).bits(),
            final(self).spec_capacity() == old(self).spec_capacity(),
            final(self).spec_max_key() == old(self).spec_max_key(),
    {
        let n = self.entries.len();
        let mut i: usize = 0;
        while i < n
            invariant
                n == self.entries@.len(),
                i <= n,
                forall|j: int| 0 <= j < i ==> #[trigger] self.entries@[j] == 0u8,
                self.cap == old(self).cap,
                self.max_key == old(self).max_key,
                self.len == old(self).len,
            decreases n - i,
        {
            self.entries.set(i, 0u8);
            i = i + 1;
        }
        self.len = 0;
        proof {
            assert forall|x: usize| !self.has(x) by {
                if x < self.bits() {
                    lemma_zero_byte(x % 8);
                }
            }
            assert(self@ =~= Set::<usize>::empty());
        }
    }

    /// Whether `val` is in the set.
    pub fn contains(&self, val: &usize) -> (res: bool)
        requires
            self.wf(),
            *val < self.bits(),
        ensures
            res == self@.contains(*val),
    {
        let pos = *val / 8;
        (self.entries[pos] & (1u8 << (*val % 8))) != 0
    }

    /// Adds `val` to the set.
    pub fn add(&mut self, val: usize)
        requires
            old(self).wf(),
            val < old(self).bits(),
        ensures
            final(self).wf(),
            final(self)@ == old(self)@.insert(val),
            final(self).bits() == old(self).bits(),
            final(self).spec_capacity() == old(self).spec_capacity(),
            final(self).spec_max_key() == if old(self)@.contains(val) && val <= old(self).spec_max_key() {
                old(self).spec_max_key()
            } else if val > old(self).spec_max_key() {
                val
            } else {
                old(self).spec_max_key()
            },
    {
        let pos = val / 8;
        let mask: u8 = 1u8 << (val % 8);
        let ghost old_view = self@;
        proof {
            self.lemma_wf();
            lemma_card_below(old_view.insert(val), self.bits());
        }
        if self.entries[pos] & mask == 0 {
            self.len = self.len + 1;
            if val > self.max_key {
                self.max_key = val;
            }
        }
        let nb = self.entries[pos] | mask;
        self.entries.set(pos, nb);
        proof {
            assert forall|i: usize| #[trigger] self.has(i) == (i == val || old(self).has(i)) by {
                if i < self.bits() {
                    lemma_set_bit(old(self).entries@[pos as int], val % 8, i % 8);
                    if i / 8 != pos {
                        assert(self.entries@[(i / 8) as int] == old(self).entries@[(i / 8) as int]);
                    }
                }
            }
            assert(self@ =~= old_view.insert(val));
            lemma_card_below(self@, self.bits());
        }
    }

    /// Adds every number of `val`.
    pub fn add_many(&mut self, val: &[usize])
        requires
            old(self).wf(),
            forall|j: int| 0 <= j < val@.len() ==> #[trigger] val@[j] < old(self).bits(),
        ensures
            final(self).wf(),
            final(self)@ == old(self)@.union(val@.to_set()),
            final(self).bits() == old(self).bits(),
            final(self).spec_capacity() == old(self).spec_capacity(),
    {
        let mut i: usize = 0;
        while i < val.len()
            invariant
                self.wf(),
                self.bits() == old(self).bits(),
                self.spec_capacity() == old(self).spec_capacity(),
                i <= val@.len(),
                forall|j: int| 0 <= j < val@.len() ==> #[trigger] val@[j] < old(self).bits(),
                forall|x: usize| #[trigger] self@.contains(x)
                    <==> (old(self)@.contains(x) || exists|j: int| 0 <= j < i && val@[j] == x),
            decreases val@.len() - i,
        {
            let ghost before = self@;
            self.add(val[i]);
            proof {
                assert forall|x: usize| #[trigger] self@.contains(x)
                    <==> (old(self)@.contains(x) || exists|j: int| 0 <= j < i + 1 && val@[j] == x) by {
                    if x == val@[i as int] {
                        assert(val@[i as int] == x);
                    }
                    if exists|j: int| 0 <= j < i + 1 && val@[j] == x {
                        let j = choose|j: int| 0 <= j < i + 1 && val@[j] == x;
                        if j < i {
                            assert(before.contains(x));
                        }
                    }
                }
            }
            i = i + 1;
        }
        proof {
            assert(self@ =~= old(self)@.union(val@.to_set()));
        }
    }

    /// Removes `val` from the set; gives whether it was there.
    pub fn remove(&mut self, val: usize) -> (res: bool)
        requires
            old(self).wf(),
            val < old(self).bits(),
        ensures
            final(self).wf(),
            res == old(self)@.contains(val),
            final(self)@ == old(self)@.remove(val),
            final(self).bits() == old(self).bits(),
            final(self).spec_capacity() == old(self).spec_capacity(),
            final(self).spec_max_key() == old(self).spec_max_key(),
    {
        let pos = val / 8;
        let mask: u8 = 1u8 << (val % 8);
        let ghost old_view = self@;
        proof {
            self.lemma_wf();
        }
        let mut success = false;
        if self.entries[pos] & mask != 0 {
            proof {
                assert(old_view.contains(val));
                assert(old_view.len() > 0) by {
                    vstd::set::axiom_set_remove_len(old_view, val);
                }
            }
            self.len = self.len - 1;
            success = true;
        }
        let nb = self.entries[pos] & (0xffu8 - mask);
        self.entries.set(pos, nb);
        proof {
            assert forall|i: usize| #[trigger] self.has(i) == (i != val && old(self).has(i)) by {
                if i < self.bits() {
                    lemma_set_bit(old(self).entries@[pos as int], val % 8, i % 8);
                    if i / 8 != pos {
                        assert(self.entries@[(i / 8) as int] == old(self).entries@[(i / 8) as int]);
                    }
                }
            }
            assert(self@ =~= old_view.remove(val));
            lemma_card_below(self@, self.bits());
        }
        success
    }

    /// Removes every number of `val`.
    pub fn remove_many(&mut self, val: &[usize])
        requires
            old(self).wf(),
            forall|j: int| 0 <= j < val@.len() ==> #[trigger] val@[j] < old(self).bits(),
        ensures
            final(self).wf(),
            final(self)@ == old(self)@.difference(val@.to_set()),
            final(self).bits() == old(self).bits(),
            final(self).spec_capacity() == old(self).spec_capacity(),
    {
        let mut i: usize = 0;
        while i < val.len()
            invariant
                self.wf(),
                self.bits() == old(self).bits(),
                self.spec_capacity() == old(self).spec_capacity(),
                i <= val@.len(),
                forall|j: int| 0 <= j < val@.len() ==> #[trigger] val@[j] < old(self).bits(),
                forall|x: usize| #[trigger] self@.contains(x)
                    <==> (old(self)@.contains(x) && !exists|j: int| 0 <= j < i && val@[j] == x),
            decreases val@.len() - i,
        {
            let ghost before = self@;
            self.remove(val[i]);
            proof {
                assert forall|x: usize| #[trigger] self@.contains(x)
                    <==> (old(self)@.contains(x) && !exists|j: int| 0 <= j < i + 1 && val@[j] == x) by {
                    if x == val@[i as int] {
                        assert(val@[i as int] == x);
                    }
                    if exists|j: int| 0 <= j < i + 1 && val@[j] == x {
                        let j = choose|j: int| 0 <= j < i + 1 && val@[j] == x;
                        if j < i {
                            assert(!before.contains(x));
                        }
                    }
                }
            }
            i = i + 1;
        }
        proof {
            assert(self@ =~= old(self)@.difference(val@.to_set()));
        }
    }

    /// Adds the numbers `start..=end`.
    pub fn add_range(&mut self, start: usize, end: usize)
        requires
            old(self).wf(),
            start <= end ==> end < old(self).bits(),
        ensures
            final(self).wf(),
            forall|x: usize| #[trigger] final(self)@.contains(x) <==> (old(self)@.contains(x) || start <= x <= end),
            final(self)@.len() == old(self)@.len() + fresh_in(old(self)@, start as int, end + 1).len(),
            final(self).bits() == old(self).bits(),
            final(self).spec_capacity() == old(self).spec_capacity(),
    {
        proof {
            old(self).lemma_wf();
        }
        if start > end {
            proof {
                assert(fresh_in(old(self)@, start as int, end + 1) =~= Set::<usize>::empty());
            }
            return;
        }
        let mut pos = start;
        proof {
            assert(fresh_in(old(self)@, start as int, start as int) =~= Set::<usize>::empty());
        }
        while pos < end
            invariant
                self.wf(),
                old(self)@.finite(),
                self.bits() == old(self).bits(),
                self.spec_capacity() == old(self).spec_capacity(),
                start <= pos <= end,
                end < self.bits(),
                forall|x: usize| #[trigger] self@.contains(x) <==> (old(self)@.contains(x) || start <= x < pos),
                fresh_in(old(self)@, start as int, pos as int).finite(),
                self@.len() == old(self)@.len() + fresh_in(old(self)@, start as int, pos as int).len(),
            decreases end - pos,
        {
            proof {
                self.lemma_wf();
                lemma_fresh_step(old(self)@, self@, start as int, pos);
            }
            self.add(pos);
            pos = pos + 1;
        }
        proof {
            self.lemma_wf();
            lemma_fresh_step(old(self)@, self@, start as int, pos);
        }
        self.add(end);
    }

    /// Removes the numbers `start..=end`.
    pub fn remove_range(&mut self, start: usize, end: usize)
        requires
            old(self).wf(),
            start <= end ==> end < old(self).bits(),
        ensures
            final(self).wf(),
            forall|x: usize| #[trigger] final(self)@.contains(x) <==> (old(self)@.contains(x) && !(start <= x <= end)),
            final(self).bits() == old(self).bits(),
            final(self).spec_capacity() == old(self).spec_capacity(),
    {
        if start > end {
            return;
        }
        let mut pos = start;
        while pos < end
            invariant
                self.wf(),
                self.bits() == old(self).bits(),
                self.spec_capacity() == old(self).spec_capacity(),
                start <= pos <= end,
                end < self.bits(),
                forall|x: usize| #[trigger] self@.contains(x) <==> (old(self)@.contains(x) && !(start <= x < pos)),
            decreases end - pos,
        {
            self.remove(pos);
            pos = pos + 1;
        }
        self.remove(end);
    }

    /// The text of the set: `len:<count>-val:{<numbers>}`, the numbers in
    /// ascending order, each after the first followed by a space.
    pub fn to_string(&self) -> (r: String)
        requires
            self.wf(),
        ensures
            exists|items: Seq<usize>| {
                &&& forall|a: int, b: int| 0 <= a < b < items.len() ==> items[a] < items[b]
                &&& forall|x: usize| #[trigger] items.contains(x) <==> self@.contains(x)
                &&& r@ == set_text(self@.len(), items, seq![' '])
            },
    {
        let items = self.iter();
        let n = self.len();
        proof {
            reveal_strlit(" ");
        }
        let r = render_set(n, &items, " ");
        proof {
            assert(" "@ == seq![' ']);
        }
        r
    }

    /// The numbers of the set, in increasing order.
    pub fn iter(&self) -> (res: Vec<usize>)
        requires
            self.wf(),
        ensures
            forall|a: int, b: int| 0 <= a < b < res@.len() ==> res@[a] < res@[b],
            forall|x: usize| #[trigger] res@.contains(x) <==> self@.contains(x),
            res@.len() == self@.len(),
    {
        proof {
            self.lemma_wf();
        }
        let mut res: Vec<usize> = Vec::new();
        let mut i: usize = 0;
        let ghost mut seen: Set<usize> = Set::empty();
        let n = if self.entries.len() == 0 { 0 } else { self.max_key + 1 };
        while i < n
            invariant
                self.wf(),
                n <= self.bits(),
                forall|x: usize| #[trigger] self@.contains(x) ==> x < n,
                i <= n,
                forall|a: int, b: int| 0 <= a < b < res@.len() ==> res@[a] < res@[b],
                forall|a: int| 0 <= a < res@.len() ==> #[trigger] res@[a] < i,
                forall|x: usize| #[trigger] res@.contains(x) <==> (self@.contains(x) && x < i),
                forall|x: usize| #[trigger] seen.contains(x) <==> (self@.contains(x) && x < i),
                seen.finite(),
                seen.len() == res@.len(),
            decreases n - i,
        {
            if self.contains(&i) {
                proof {
                    assert(!res@.contains(i));
                }
                let ghost old_res = res@;
                res.push(i);
                proof {
                    assert forall|x: usize| #[trigger] res@.contains(x) <==> (self@.contains(x) && x < i + 1) by {
                        if res@.contains(x) {
                            let k = choose|k: int| 0 <= k < res@.len() && res@[k] == x;
                            if k < old_res.len() {
                                assert(old_res[k] == x);
                                assert(old_res.contains(x));
                            } else {
                                assert(x == i);
                            }
                        }
                        if self@.contains(x) && x < i + 1 {
                            if x == i {
                                assert(res@[old_res.len() as int] == x);
                            } else {
                                assert(old_res.contains(x));
                                let k = choose|k: int| 0 <= k < old_res.len() && old_res[k] == x;
                                assert(res@[k] == x);
                            }
                        }
                    }
                    seen = seen.insert(i);
                }
            }
            i = i + 1;
        }
        proof {
            assert(seen =~= self@);
        }
        res
    }

    /// Keeps the numbers for which `f` answers `true`.
    pub fn retain<F>(&mut self, f: F)
        where
            F: Fn(&usize) -> bool,
        requires
            old(self).wf(),
            forall|x: &usize| #[trigger] f.requires((x,)),
        ensures
            final(self).wf(),
            final(self).bits() == old(self).bits(),
            final(self).spec_capacity() == old(self).spec_capacity(),
            forall|x: usize| #[trigger] final(self)@.contains(x) ==> old(self)@.contains(x) && f.ensures((&x,), true),
            forall|x: usize| old(self)@.contains(x) && !final(self)@.contains(x) ==> #[trigger] f.ensures((&x,), false),
    {
        let members = self.iter();
        proof {
            assert forall|k: int| 0 <= k < members@.len() implies self@.contains(#[trigger] members@[k]) by {
                assert(members@.contains(members@[k]));
            }
        }
        let mut i: usize = 0;
        while i < members.len()
            invariant
                self.wf(),
                self.bits() == old(self).bits(),
                self.spec_capacity() == old(self).spec_capacity(),
                forall|x: &usize| #[trigger] f.requires((x,)),
                i <= members@.len(),
                forall|a: int, b: int| 0 <= a < b < members@.len() ==> members@[a] < members@[b],
                forall|x: usize| #[trigger] members@.contains(x) <==> old(self)@.contains(x),
                forall|x: usize| #[trigger] self@.contains(x) ==> old(self)@.contains(x),
                forall|k: int| i <= k < members@.len() ==> self@.contains(#[trigger] members@[k]),
                forall|k: int| 0 <= k < i ==> {
                    &&& self@.contains(#[trigger] members@[k]) ==> f.ensures((&members@[k],), true)
                    &&& !self@.contains(members@[k]) ==> f.ensures((&members@[k],), false)
                },
            decreases members@.len() - i,
        {
            let x = members[i];
            proof {
                assert(members@.contains(x));
                self.lemma_wf();
            }
            let keep = f(&x);
            if !keep {
                self.remove(x);
            }
            proof {
                assert forall|k: int| i + 1 <= k < members@.len() implies self@.contains(#[trigger] members@[k]) by {
                    assert(members@[k] != x);
                }
                assert forall|k: int| 0 <= k < i implies {
                    &&& self@.contains(#[trigger] members@[k]) ==> f.ensures((&members@[k],), true)
                    &&& !self@.contains(members@[k]) ==> f.ensures((&members@[k],), false)
                } by {
                    assert(members@[k] != x);
                }
            }
            i = i + 1;
        }
        proof {
            assert forall|x: usize| #[trigger] self@.contains(x) implies old(self)@.contains(x) && f.ensures((&x,), true) by {
                assert(members@.contains(x));
                let k = choose|k: int| 0 <= k < members@.len() && members@[k] == x;
            }
            assert forall|x: usize| old(self)@.contains(x) && !self@.contains(x) implies #[trigger] f.ensures((&x,), false) by {
                assert(members@.contains(x));
                let k = choose|k: int| 0 <= k < members@.len() && members@[k] == x;
            }
        }
    }

    /// Whether every number of `other` is in `self`.
    pub fn contains_sub(&self, other: &BitMap) -> (res: bool)
        requires
            self.wf(),
            other.wf(),
            forall|x: usize| #[trigger] other@.contains(x) ==> x < self.bits(),
        ensures
            res == other@.subset_of(self@),
    {
        let members = other.iter();
        let mut i: usize = 0;
        while i < members.len()
            invariant
                self.wf(),
                forall|x: usize| #[trigger] other@.contains(x) ==> x < self.bits(),
                forall|x: usize| #[trigger] members@.contains(x) <==> other@.contains(x),
                i <= members@.len(),
                forall|k: int| 0 <= k < i ==> self@.contains(#[trigger] members@[k]),
            decreases members@.len() - i,
        {
            let x = members[i];
            proof {
                assert(members@.contains(x));
            }
            if !self.contains(&x) {
                proof {
                    assert(other@.contains(x));
                }
                return false;
            }
            i = i + 1;
        }
        proof {
            assert forall|x: usize| #[trigger] other@.contains(x) implies self@.contains(x) by {
                assert(members@.contains(x));
                let k = choose|k: int| 0 <= k < members@.len() && members@[k] == x;
            }
        }
        true
    }

    /// The numbers in both sets, in a map sized for the larger capacity.
    pub fn intersect(&self, other: &BitMap) -> (res: BitMap)
        requires
            self.wf(),
            other.wf(),
        ensures
            res.wf(),
            res@ == self@.intersect(other@),
            res.spec_capacity() == if self.spec_capacity() < other.spec_capacity() {
                other.spec_capacity()
            } else {
                self.spec_capacity()
            },
    {
        proof {
            self.lemma_wf();
            other.lemma_wf();
        }
        let cap = if other.cap < self.cap { self.cap } else { other.cap };
        let mut map = BitMap::new(cap);
        let max = if self.max_key < other.max_key { self.max_key } else { other.max_key };
        let mut i: usize = 0;
        while i <= max
            invariant
                self.wf(),
                other.wf(),
                map.wf(),
                map.spec_capacity() == cap,
                cap == if self.spec_capacity() < other.spec_capacity() {
                    other.spec_capacity()
                } else {
                    self.spec_capacity()
                },
                map.bits() >= self.bits(),
                map.bits() >= other.bits(),
                max < usize::MAX,
                forall|x: usize| #[trigger] self@.contains(x) && other@.contains(x) ==> x <= max,
                i <= max + 1,
                forall|x: usize| #[trigger] map@.contains(x) <==> (self@.contains(x) && other@.contains(x) && x < i),
            decreases max + 1 - i,
        {
            if i < self.entries.len() * 8 && i < other.entries.len() * 8 && self.contains(&i) && other.contains(&i) {
                map.add(i);
            }
            if i == max {
                proof {
                    assert(map@ =~= self@.intersect(other@));
                }
                return map;
            }
            i = i + 1;
        }
        proof {
            assert(map@ =~= self@.intersect(other@));
        }
        map
    }

    /// The numbers in either set, in a map sized for the larger capacity.
    pub fn union(&self, other: &BitMap) -> (res: BitMap)
        requires
            self.wf(),
            other.wf(),
        ensures
            res.wf(),
            res@ == self@.union(other@),
            res.spec_capacity() == if self.spec_capacity() < other.spec_capacity() {
                other.spec_capacity()
            } else {
                self.spec_capacity()
            },
    {
        proof {
            self.lemma_wf();
            other.lemma_wf();
        }
        let cap = if other.cap < self.cap { self.cap } else { other.cap };
        let mut map = BitMap::new(cap);
        let max = if self.max_key < other.max_key { other.max_key } else { self.max_key };
        let mut i: usize = 0;
        while i <= max
            invariant
                self.wf(),
                other.wf(),
                map.wf(),
                map.spec_capacity() == cap,
                cap == if self.spec_capacity() < other.spec_capacity() {
                    other.spec_capacity()
                } else {
                    self.spec_capacity()
                },
                map.bits() >= self.bits(),
                map.bits() >= other.bits(),
                max < usize::MAX,
                forall|x: usize| #[trigger] self@.contains(x) ==> x <= max,
                forall|x: usize| #[trigger] other@.contains(x) ==> x <= max,
                i <= max + 1,
                forall|x: usize| #[trigger] map@.contains(x) <==> ((self@.contains(x) || other@.contains(x)) && x < i),
            decreases max + 1 - i,
        {
            if (i < self.entries.len() * 8 && self.contains(&i)) || (i < other.entries.len() * 8 && other.contains(&i)) {
                map.add(i);
            }
            if i == max {
                proof {
                    assert(map@ =~= self@.union(other@));
                }
                return map;
            }
            i = i + 1;
        }
        proof {
            assert(map@ =~= self@.union(other@));
        }
        map
    }

    /// What a lookup gives back of a change: once `add(v)` has turned the
    /// set into `s.insert(v)`, `contains(&v)` answers `true`; once
    /// `remove(v)` has turned it into `s.remove(v)`, it answers `false`, and
    /// the other numbers keep their answers.
    pub proof fn law_contains_after_change(s: Set<usize>, v: usize, w: usize)
        ensures
            s.insert(v).contains(v),
            !s.remove(v).contains(v),
            w != v ==> (s.insert(v).contains(w) == s.contains(w) && s.remove(v).contains(w) == s.contains(w)),
    {
    }
}

} // verus!
