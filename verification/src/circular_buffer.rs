use vstd::prelude::*;

verus! {

/// A ring of at most `cap` elements.  Pushing onto a full ring drops the
/// element at the opposite end, so the ring always keeps the newest `cap`
/// values.
pub struct CircularBuffer<T> {
    arr: Vec<T>,
    head: usize,
    len: usize,
    cap: usize,
}

impl<T> View for CircularBuffer<T> {
    type V = Seq<T>;

    /// The elements from front to back.
    closed spec fn view(&self) -> Seq<T> {
        Seq::new(self.len as nat, |i: int| self.arr@[self.slot(i)])
    }
}

impl<T> CircularBuffer<T> {
    /// Physical slot of the logical position `i`.
    pub closed spec fn slot(&self, i: int) -> int {
        if self.head + i < self.cap {
            self.head + i
        } else {
            self.head + i - self.cap
        }
    }

    /// Internal consistency of the ring.
    pub closed spec fn wf(&self) -> bool {
        &&& 0 < self.cap
        &&& self.arr.len() <= self.cap
        &&& self.head < self.cap
        &&& self.len <= self.cap
        &&& (self.arr.len() < self.cap ==> self.head + self.len <= self.arr.len())
    }

    /// The maximal number of elements kept.
    pub closed spec fn spec_capacity(&self) -> nat {
        self.cap as nat
    }

    /// Whether every slot of the ring has been written at least once.
    pub closed spec fn spec_inited(&self) -> bool {
        self.arr.len() == self.cap
    }

    /// How many slots of the ring have been written at least once.
    pub closed spec fn spec_written(&self) -> nat {
        self.arr@.len()
    }

    /// Creates an empty ring that keeps at most `cap` elements.
    pub fn new(cap: usize) -> (res: Self)
        requires
            cap > 0,
        ensures
            res.wf(),
            res@ == Seq::<T>::empty(),
            res.spec_capacity() == cap,
            !res.spec_inited(),
            res.spec_written() == 0,
    {
        let res = CircularBuffer { arr: Vec::with_capacity(cap), head: 0, len: 0, cap };
        assert(res@ =~= Seq::<T>::empty());
        res
    }

    /// Whether all `cap` slots have been filled at some point.
    pub fn is_inited(&self) -> (res: bool)
        requires
            self.wf(),
        ensures
            res == self.spec_inited(),
            res == (self.spec_written() == self.spec_capacity()),
    {
        self.cap == self.arr.len()
    }

    /// Whether the ring holds `cap` elements.
    pub fn is_full(&self) -> (res: bool)
        requires
            self.wf(),
        ensures
            res == (self@.len() == self.spec_capacity()),
    {
        self.cap == self.len
    }

    /// Whether the ring holds no element.
    pub fn is_empty(&self) -> (res: bool)
        requires
            self.wf(),
        ensures
            res == (self@.len() == 0),
    {
        self.len == 0
    }

    /// Number of elements held.
    pub fn len(&self) -> (res: usize)
        requires
            self.wf(),
        ensures
            res == self@.len(),
    {
        self.len
    }

    /// The maximal number of elements kept.
    pub fn capacity(&self) -> (res: usize)
        ensures
            res == self.spec_capacity(),
    {
        self.cap
    }

    /// The slot after `val`, wrapping at `cap`.
    fn add_fix(&self, val: usize) -> (res: usize)
        requires
            self.wf(),
            val < self.cap,
        ensures
            res == (val + 1) % (self.cap as int),
            res == if val + 1 < self.cap { val + 1 } else { 0 },
    {
        proof {
            let m = self.cap as int;
            if val + 1 < m {
                vstd::arithmetic::div_mod::lemma_small_mod((val + 1) as nat, m as nat);
            } else {
                assert((val + 1) % m == 0) by (nonlinear_arith)
                    requires
                        val + 1 == m,
                        m > 0,
                ;
            }
        }
        if val + 1 == self.cap {
            0
        } else {
            val + 1
        }
    }

    /// The slot before `val`, wrapping at `cap`.
    fn sub_fix(&self, val: usize) -> (res: usize)
        requires
            self.wf(),
            val < self.cap,
        ensures
            res == (val + self.cap - 1) % (self.cap as int),
            res == if val == 0 { self.cap - 1 } else { val - 1 },
    {
        proof {
            let m = self.cap as int;
            if val == 0 {
                vstd::arithmetic::div_mod::lemma_small_mod((m - 1) as nat, m as nat);
            } else {
                assert((val + m - 1) % m == val - 1) by (nonlinear_arith)
                    requires
                        0 < val < m,
                ;
            }
        }
        if val == 0 {
            self.cap - 1
        } else {
            val - 1
        }
    }

    /// Appends `val` at the back; on a full ring the front element is dropped.
    pub fn push_back(&mut self, val: T)
        requires
            old(self).wf(),
        ensures
            final(self).wf(),
            final(self).spec_capacity() == old(self).spec_capacity(),
            final(self)@ == if old(self)@.len() == old(self).spec_capacity() {
                old(self)@.drop_first().push(val)
            } else {
                old(self)@.push(val)
            },
            old(self).spec_inited() ==> final(self).spec_inited(),
            final(self)@.len() == final(self).spec_capacity() ==> final(self).spec_inited(),
            !old(self).spec_inited() && old(self).spec_written() == old(self)@.len() ==> final(self).spec_written()
                == final(self)@.len(),
    {
        let ghost old_view = self@;
        if self.len == self.cap {
            let h = self.head;
            self.arr.set(h, val);
            self.head = self.add_fix(h);
            assert(self@ =~= old_view.drop_first().push(val));
        } else {
            let p = if self.len < self.cap - self.head {
                self.head + self.len
            } else {
                self.len - (self.cap - self.head)
            };
            if p < self.arr.len() {
                self.arr.set(p, val);
            } else {
                self.arr.push(val);
            }
            self.len = self.len + 1;
            assert(self@ =~= old_view.push(val));
        }
    }

    /// Inserts `val` at the front; on a full ring the back element is dropped.
    pub fn push_front(&mut self, val: T)
        requires
            old(self).wf(),
        ensures
            final(self).wf(),
            final(self).spec_capacity() == old(self).spec_capacity(),
            final(self)@ == if old(self)@.len() == old(self).spec_capacity() {
                seq![val] + old(self)@.drop_last()
            } else {
                seq![val] + old(self)@
            },
            old(self).spec_inited() ==> final(self).spec_inited(),
            final(self)@.len() == final(self).spec_capacity() ==> final(self).spec_inited(),
            !old(self).spec_inited() && old(self).spec_written() == old(self)@.len() ==> final(self).spec_written()
                == final(self)@.len(),
    {
        let ghost old_view = self@;
        if self.arr.len() == self.cap {
            let h = self.sub_fix(self.head);
            self.arr.set(h, val);
            self.head = h;
            if self.len < self.cap {
                self.len = self.len + 1;
                assert(self@ =~= seq![val] + old_view);
            } else {
                assert(self@ =~= seq![val] + old_view.drop_last());
            }
        } else if self.head > 0 {
            let h = self.head - 1;
            self.arr.set(h, val);
            self.head = h;
            self.len = self.len + 1;
            assert(self@ =~= seq![val] + old_view);
        } else {
            self.arr.insert(0, val);
            self.len = self.len + 1;
            assert(self@ =~= seq![val] + old_view);
        }
    }

    /// Drops the front element.
    pub fn pop_front(&mut self)
        requires
            old(self).wf(),
            old(self)@.len() > 0,
        ensures
            final(self).wf(),
            final(self).spec_capacity() == old(self).spec_capacity(),
            final(self).spec_inited() == old(self).spec_inited(),
            final(self)@ == old(self)@.drop_first(),
    {
        let ghost old_view = self@;
        self.head = self.add_fix(self.head);
        self.len = self.len - 1;
        assert(self@ =~= old_view.drop_first());
    }

    /// Drops the back element.
    pub fn pop_back(&mut self)
        requires
            old(self).wf(),
            old(self)@.len() > 0,
        ensures
            final(self).wf(),
            final(self).spec_capacity() == old(self).spec_capacity(),
            final(self).spec_inited() == old(self).spec_inited(),
            final(self)@ == old(self)@.drop_last(),
    {
        let ghost old_view = self@;
        self.len = self.len - 1;
        assert(self@ =~= old_view.drop_last());
    }

    /// The element at logical position `index`, counted from the front.
    pub fn get(&self, index: usize) -> (res: Option<&T>)
        requires
            self.wf(),
        ensures
            res == if index < self@.len() { Some(&self@[index as int]) } else { None },
    {
        if index < self.len {
            let p = if index < self.cap - self.head {
                self.head + index
            } else {
                index - (self.cap - self.head)
            };
            Some(&self.arr[p])
        } else {
            None
        }
    }

    /// References to the elements from front to back.
    pub fn iter(&self) -> (res: Vec<&T>)
        requires
            self.wf(),
        ensures
            res@.len() == self@.len(),
            forall|i: int| 0 <= i < res@.len() ==> *res@[i] == self@[i],
    {
        let mut res: Vec<&T> = Vec::new();
        let mut i: usize = 0;
        while i < self.len
            invariant
                self.wf(),
                i <= self.len,
                res@.len() == i,
                forall|j: int| 0 <= j < i ==> *res@[j] == self@[j],
            decreases self.len - i,
        {
            let p = if i < self.cap - self.head {
                self.head + i
            } else {
                i - (self.cap - self.head)
            };
            res.push(&self.arr[p]);
            i = i + 1;
        }
        res
    }

    /// A ring never holds more elements than its capacity.
    pub proof fn law_len_within_capacity(&self)
        requires
            self.wf(),
        ensures
            self@.len() <= self.spec_capacity(),
    {
    }

    /// Pushing at the back of a ring that is not full and then taking the
    /// back element off gives the ring back: when `b` is `a` after
    /// `push_back(v)` and `c` is `b` after `pop_back()`, `c` holds what `a`
    /// held.
    pub proof fn law_pop_back_undoes_push_back(a: &Self, b: &Self, c: &Self, v: T)
        requires
            a.wf(),
            a@.len() < a.spec_capacity(),
            b@ == a@.push(v),
            c@ == b@.drop_last(),
        ensures
            c@ == a@,
    {
        assert(c@ =~= a@);
    }

    /// On a full ring, pushing at the back drops the front element and
    /// keeps the length: when `b` is `a` after `push_back(v)`, `b` has as
    /// many elements as `a`, and `v` last.
    pub proof fn law_full_ring_keeps_len(a: &Self, b: &Self, v: T)
        requires
            a.wf(),
            a@.len() == a.spec_capacity(),
            b@ == a@.drop_first().push(v),
        ensures
            b@.len() == a@.len(),
            b@.last() == v,
    {
    }
}

} // verus!
