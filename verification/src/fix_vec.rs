use vstd::prelude::*;

verus! {

/// Marker for "no position" in the links of a `FixedVec`.
pub const NIL: usize = usize::MAX;

struct FixedVecNode<T> {
    prev: usize,
    next: usize,
    data: T,
}

/// A list of at most `capacity` elements kept in numbered slots.  Each element
/// stays in its slot while it lives, so its slot number can be used as a
/// handle; the slots are linked into a list from head to tail.
pub struct FixedVec<T> {
    capacity: usize,
    nodes: Vec<Option<FixedVecNode<T>>>,
    free: Vec<usize>,
    head: usize,
    tail: usize,
    order: Ghost<Seq<usize>>,
}

/// The position before the `k`-th entry of `o`, or `NIL` for the first one.
pub open spec fn prev_in(o: Seq<usize>, k: int) -> usize {
    if k == 0 {
        NIL
    } else {
        o[k - 1]
    }
}

/// The position after the `k`-th entry of `o`, or `NIL` for the last one.
pub open spec fn next_in(o: Seq<usize>, k: int) -> usize {
    if k + 1 == o.len() {
        NIL
    } else {
        o[k + 1]
    }
}

impl<T> View for FixedVec<T> {
    type V = Seq<(usize, T)>;

    /// The slots and their elements, from head to tail.
    open spec fn view(&self) -> Seq<(usize, T)> {
        Seq::new(self.order().len(), |k: int| (self.order()[k], self.data_at(self.order()[k])))
    }
}

impl<T> FixedVec<T> {
    /// The slots in use, from head to tail.
    pub closed spec fn order(&self) -> Seq<usize> {
        self.order@
    }

    /// The element held in slot `i` (meaningful when `i` is in use).
    pub closed spec fn data_at(&self, i: usize) -> T {
        self.nodes@[i as int]->0.data
    }

    /// The maximal number of elements.
    pub closed spec fn spec_capacity(&self) -> nat {
        self.capacity as nat
    }

    /// Number of slots ever handed out and not cut off by a shrinking resize.
    pub closed spec fn spec_slots(&self) -> nat {
        self.nodes@.len()
    }

    /// The slot the next inserted element will take: the most recently freed
    /// one, or a fresh one after all the others.
    pub closed spec fn next_slot(&self) -> usize {
        if self.free@.len() > 0 {
            self.free@.last()
        } else {
            self.nodes@.len() as usize
        }
    }

    /// The free slots are the ones from `next_slot()` up to the last slot,
    /// taken in increasing order: each insert takes the slot after the one
    /// before, as in a new or cleared list.
    pub closed spec fn slots_in_order(&self) -> bool {
        forall|a: int| 0 <= a < self.free@.len() ==> #[trigger] self.free@[a] == self.nodes@.len() - 1 - a
    }

    closed spec fn node(&self, i: usize) -> FixedVecNode<T> {
        self.nodes@[i as int]->0
    }

    closed spec fn linked_at(&self, k: int) -> bool {
        let o = self.order@;
        &&& self.nodes@[o[k] as int] is Some
        &&& self.node(o[k]).prev == prev_in(o, k)
        &&& self.node(o[k]).next == next_in(o, k)
    }

    /// Internal consistency: the links follow `order`, free slots are empty.
    pub closed spec fn wf(&self) -> bool {
        let o = self.order@;
        let n = self.nodes@;
        let f = self.free@;
        &&& n.len() <= self.capacity
        &&& n.len() < NIL
        &&& o.no_duplicates()
        &&& forall|k: int| 0 <= k < o.len() ==> #[trigger] o[k] < n.len()
        &&& forall|i: int| 0 <= i < n.len() ==> (#[trigger] n[i] is Some <==> o.contains(i as usize))
        &&& f.no_duplicates()
        &&& forall|j: int| 0 <= j < f.len() ==> #[trigger] f[j] < n.len() && n[f[j] as int] is None
        &&& f.len() + o.len() == n.len()
        &&& self.head == if o.len() == 0 { NIL } else { o[0] }
        &&& self.tail == if o.len() == 0 { NIL } else { o.last() }
        &&& forall|k: int| 0 <= k < o.len() ==> {
            &&& n[#[trigger] o[k] as int] is Some
            &&& n[o[k] as int]->0.prev == prev_in(o, k)
            &&& n[o[k] as int]->0.next == next_in(o, k)
        }
    }

    /// Whether slot `i` holds an element.
    pub open spec fn holds(&self, i: usize) -> bool {
        self.order().contains(i)
    }

    /// Everything but the element data stays as it was in `old`, and the
    /// element of every slot other than `i` is unchanged.
    pub open spec fn same_but_data_at(&self, old: &Self, i: usize) -> bool {
        &&& self.wf()
        &&& self.order() == old.order()
        &&& self.spec_capacity() == old.spec_capacity()
        &&& self.spec_slots() == old.spec_slots()
        &&& forall|j: usize| old.holds(j) && j != i ==> #[trigger] self.data_at(j) == old.data_at(j)
    }

    /// Nothing observable changed from `old`.
    pub open spec fn same_elements(&self, old: &Self) -> bool {
        &&& self.wf()
        &&& self.order() == old.order()
        &&& self.spec_capacity() == old.spec_capacity()
        &&& self.spec_slots() == old.spec_slots()
        &&& self@ == old@
        &&& forall|k: int| 0 <= k < old.order().len()
            ==> #[trigger] self.data_at(old.order()[k]) == old.data_at(old.order()[k])
    }

    /// Where the free slots are in order, the next insert takes the slot
    /// numbered by the length.
    pub proof fn lemma_next_slot_in_order(&self)
        requires
            self.wf(),
            self.slots_in_order(),
        ensures
            self.next_slot() == self@.len(),
    {
    }

    /// Facts that every well-formed list satisfies.
    pub proof fn lemma_wf(&self)
        requires
            self.wf(),
        ensures
            self.order().no_duplicates(),
            self.order().len() <= self.spec_slots() <= self.spec_capacity(),
            self.spec_slots() < NIL,
            forall|k: int| 0 <= k < self.order().len() ==> #[trigger] self.order()[k] < self.spec_slots(),
            !self.holds(NIL),
    {
        self.lemma_wf_facts();
    }

    proof fn lemma_wf_facts(&self)
        requires
            self.wf(),
        ensures
            forall|i: usize| #[trigger] self.holds(i) ==> i < self.nodes@.len() && i != NIL,
            forall|i: usize| i < self.nodes@.len() ==> (self.nodes@[i as int] is Some <==> #[trigger] self.holds(i)),
            !self.holds(NIL),
    {
        assert forall|i: usize| #[trigger] self.holds(i) implies i < self.nodes@.len() && i != NIL by {
            let k = choose|k: int| 0 <= k < self.order@.len() && self.order@[k] == i;
            assert(self.order@[k] < self.nodes@.len());
        }
        assert forall|i: usize| i < self.nodes@.len() implies (self.nodes@[i as int] is Some <==> #[trigger] self.holds(i)) by {
            assert(self.nodes@[i as int] is Some <==> self.order@.contains(i));
        }
    }

    /// An empty list for at most `capacity` elements.
    pub fn new(capacity: usize) -> (res: Self)
        ensures
            res.wf(),
            res@ == Seq::<(usize, T)>::empty(),
            res.order() == Seq::<usize>::empty(),
            res.spec_capacity() == capacity,
            res.spec_slots() == 0,
            res.slots_in_order(),
            res.next_slot() == 0,
    {
        let res = FixedVec {
            capacity,
            nodes: Vec::new(),
            free: Vec::new(),
            head: NIL,
            tail: NIL,
            order: Ghost(Seq::empty()),
        };
        assert(res@ =~= Seq::<(usize, T)>::empty());
        res
    }

    /// An empty list for at most `capacity` elements, with room reserved for
    /// `reserve` of them (never more than `capacity`).
    pub fn with_memory(capacity: usize, reserve: usize) -> (res: Self)
        ensures
            res.wf(),
            res@ == Seq::<(usize, T)>::empty(),
            res.order() == Seq::<usize>::empty(),
            res.spec_capacity() == capacity,
            res.spec_slots() == 0,
            res.slots_in_order(),
            res.next_slot() == 0,
    {
        let reserve = if reserve < capacity { reserve } else { capacity };
        let res = FixedVec {
            capacity,
            nodes: Vec::with_capacity(reserve),
            free: Vec::new(),
            head: NIL,
            tail: NIL,
            order: Ghost(Seq::empty()),
        };
        assert(res@ =~= Seq::<(usize, T)>::empty());
        res
    }

    /// The maximal number of elements.
    pub fn capacity(&self) -> (res: usize)
        ensures
            res == self.spec_capacity(),
    {
        self.capacity
    }

    /// Number of elements.
    pub fn len(&self) -> (res: usize)
        requires
            self.wf(),
        ensures
            res == self@.len(),
            res == self.order().len(),
    {
        self.nodes.len() - self.free.len()
    }

    /// Whether the list holds no element.
    pub fn is_empty(&self) -> (res: bool)
        requires
            self.wf(),
        ensures
            res == (self@.len() == 0),
    {
        self.len() == 0
    }

    /// Whether the list holds `capacity` elements.
    pub fn is_full(&self) -> (res: bool)
        requires
            self.wf(),
        ensures
            res == (self@.len() == self.spec_capacity()),
    {
        self.len() == self.capacity()
    }

    /// Removes every element; all slots are given up.
    pub fn clear(&mut self)
        requires
            old(self).wf(),
        ensures
            final(self).wf(),
            final(self)@ == Seq::<(usize, T)>::empty(),
            final(self).order() == Seq::<usize>::empty(),
            final(self).spec_capacity() == old(self).spec_capacity(),
            final(self).spec_slots() == 0,
            final(self).slots_in_order(),
            final(self).next_slot() == 0,
    {
        self.nodes.clear();
        self.free.clear();
        self.head = NIL;
        self.tail = NIL;
        self.order = Ghost(Seq::empty());
        assert(self@ =~= Seq::<(usize, T)>::empty());
    }

    /// Takes an empty slot for a new element: a freed one when there is one,
    /// else a fresh one at the end.  `None` when the list is full, or holds
    /// as many elements as a `usize` can number.
    fn next(&mut self) -> (res: Option<usize>)
        requires
            old(self).wf(),
        ensures
            final(self).capacity == old(self).capacity,
            final(self).head == old(self).head,
            final(self).tail == old(self).tail,
            final(self).order@ == old(self).order@,
            res is Some <==> (old(self).order@.len() < old(self).capacity && old(self).order@.len() < NIL - 1),
            res is None ==> *final(self) == *old(self),
            res matches Some(i) ==> {
                &&& i == old(self).next_slot()
                &&& i < final(self).nodes@.len()
                &&& final(self).nodes@.len() <= final(self).capacity
                &&& final(self).nodes@.len() < NIL
                &&& final(self).nodes@[i as int] is None
                &&& !old(self).order@.contains(i)
                &&& forall|j: int| 0 <= j < old(self).nodes@.len() ==> final(self).nodes@[j] == old(self).nodes@[j]
                &&& final(self).nodes@.len() == old(self).nodes@.len() || final(self).nodes@.len() == old(self).nodes@.len() + 1
                &&& final(self).free@.len() + old(self).order@.len() + 1 == final(self).nodes@.len()
                &&& final(self).free@.no_duplicates()
                &&& old(self).slots_in_order() ==> final(self).slots_in_order()
                &&& forall|j: int| 0 <= j < final(self).free@.len() ==> #[trigger] final(self).free@[j] < final(self).nodes@.len()
                    && final(self).nodes@[final(self).free@[j] as int] is None && final(self).free@[j] != i
                &&& forall|k: int| #![trigger final(self).nodes@[k]] 0 <= k < final(self).nodes@.len() && k != i ==> (final(self).nodes@[k] is Some <==> old(self).order@.contains(k as usize))
            },
    {
        let ghost old_self = *self;
        proof { self.lemma_wf_facts(); }
        let len = self.len();
        if len >= self.capacity || len >= NIL - 1 {
            None
        } else if self.free.len() == 0 {
            self.nodes.push(None);
            proof {
                assert(!old_self.order@.contains(len)) by {
                    if old_self.order@.contains(len) {
                        old_self.lemma_wf_facts();
                        assert(old_self.holds(len));
                    }
                }
                assert forall|k: int| #![trigger self.nodes@[k]] 0 <= k < self.nodes@.len() && k != len implies (self.nodes@[k] is Some <==> old_self.order@.contains(k as usize)) by {
                    assert(self.nodes@[k] == old_self.nodes@[k]);
                }
            }
            Some(len)
        } else {
            let i = self.free.pop().unwrap();
            proof {
                let f = old_self.free@;
                assert(f[f.len() - 1] == i);
                assert(self.free@ =~= f.drop_last());
                assert forall|j: int| 0 <= j < self.free@.len() implies #[trigger] self.free@[j] < self.nodes@.len()
                    && self.nodes@[self.free@[j] as int] is None && self.free@[j] != i by {
                    assert(self.free@[j] == f[j]);
                }
                assert(!old_self.order@.contains(i)) by {
                    assert(old_self.nodes@[i as int] is None);
                }
            }
            Some(i)
        }
    }

    fn node_ref(&self, idx: usize) -> (res: Option<&FixedVecNode<T>>)
        requires
            self.wf(),
        ensures
            res is Some <==> self.holds(idx),
            res matches Some(n) ==> *n == self.node(idx),
    {
        proof { self.lemma_wf_facts(); }
        if idx < self.nodes.len() {
            match &self.nodes[idx] {
                Some(n) => Some(n),
                None => None,
            }
        } else {
            None
        }
    }

    /// The element in slot `idx`, if that slot holds one.
    pub fn get(&self, idx: usize) -> (res: Option<&T>)
        requires
            self.wf(),
        ensures
            res == if self.holds(idx) { Some(&self.data_at(idx)) } else { None },
    {
        match self.node_ref(idx) {
            Some(n) => Some(&n.data),
            None => None,
        }
    }

    fn node_mut(&mut self, idx: usize) -> (res: Option<&mut FixedVecNode<T>>)
        ensures
            res is Some <==> idx < old(self).nodes@.len() && old(self).nodes@[idx as int] is Some,
            res matches Some(n) ==> *n == old(self).nodes@[idx as int]->0
                && final(self).nodes@ == old(self).nodes@.update(idx as int, Some(*final(n))),
            res is None ==> final(self).nodes@ == old(self).nodes@,
            final(self).capacity == old(self).capacity,
            final(self).free == old(self).free,
            final(self).head == old(self).head,
            final(self).tail == old(self).tail,
            final(self).order == old(self).order,
    {
        if idx < self.nodes.len() {
            match &mut self.nodes[idx] {
                Some(n) => Some(n),
                None => None,
            }
        } else {
            None
        }
    }

    /// The `m`-th element from the head, with its slot, to change in place;
    /// `None` past the tail.
    pub fn iter_mut_at(&mut self, m: usize) -> (res: Option<(usize, &mut T)>)
        requires
            old(self).wf(),
        ensures
            res is Some <==> m < old(self)@.len(),
            res matches Some(r) ==> {
                &&& r.0 == old(self)@[m as int].0
                &&& *r.1 == old(self)@[m as int].1
                &&& final(self)@ == old(self)@.update(m as int, (r.0, *final(r.1)))
                &&& final(self).order() == old(self).order()
                &&& final(self).wf()
                &&& final(self).slots_in_order() == old(self).slots_in_order()
            },
            res is None ==> *final(self) == *old(self),
    {
        proof {
            self.lemma_wf();
        }
        if m >= self.len() {
            return None;
        }
        let items = self.iter();
        let idx = items[m].0;
        proof {
            assert(self.order()[m as int] == idx);
            assert(self.order().index_of(idx) == m);
            assert(self.holds(idx));
        }
        match self.get_mut(idx) {
            Some(r) => Some((idx, r)),
            None => None,
        }
    }

    /// The element in slot `idx`, for change, if that slot holds one.
    pub fn get_mut(&mut self, idx: usize) -> (res: Option<&mut T>)
        requires
            old(self).wf(),
        ensures
            res is Some <==> old(self).holds(idx),
            res matches Some(r) ==> *r == old(self).data_at(idx),
            res matches Some(r) ==> final(self).data_at(idx) == *final(r),
            res matches Some(r) ==> final(self)@ == old(self)@.update(old(self).order().index_of(idx), (idx, *final(r))),
            res matches Some(r) ==> forall|j: usize| #[trigger] final(self).holds(j) <==> old(self).holds(j),
            res matches Some(r) ==> final(self).order() == old(self).order(),
            res matches Some(r) ==> final(self).wf(),
            res is Some ==> final(self).same_but_data_at(old(self), idx),
            res is Some ==> final(self).slots_in_order() == old(self).slots_in_order(),
            res is None ==> final(self).same_elements(old(self)),
    {
        proof { self.lemma_wf_facts(); }
        if idx >= self.nodes.len() || self.nodes[idx].is_none() {
            proof {
                assert(self@ =~= old(self)@);
            }
            return None;
        }
        match self.node_mut(idx) {
            Some(n) => Some(&mut n.data),
            None => None,
        }
    }

    /// Slot of the head, or `NIL` when the list is empty.
    pub fn head_idx(&self) -> (res: usize)
        requires
            self.wf(),
        ensures
            res == if self.order().len() == 0 { NIL } else { self.order()[0] },
    {
        self.head
    }

    /// The element at the head.
    pub fn head(&self) -> (res: Option<&T>)
        requires
            self.wf(),
        ensures
            res == if self@.len() == 0 { None } else { Some(&self@[0].1) },
    {
        proof { self.lemma_wf_facts(); }
        match self.node_ref(self.head) {
            Some(n) => Some(&n.data),
            None => None,
        }
    }

    /// Slot of the tail, or `NIL` when the list is empty.
    pub fn tail_idx(&self) -> (res: usize)
        requires
            self.wf(),
        ensures
            res == if self.order().len() == 0 { NIL } else { self.order().last() },
    {
        self.tail
    }

    /// The element at the tail.
    pub fn tail(&self) -> (res: Option<&T>)
        requires
            self.wf(),
        ensures
            res == if self@.len() == 0 { None } else { Some(&self@.last().1) },
    {
        proof { self.lemma_wf_facts(); }
        match self.node_ref(self.tail) {
            Some(n) => Some(&n.data),
            None => None,
        }
    }

    /// The element at the head, for change.
    pub fn head_mut(&mut self) -> (res: Option<&mut T>)
        requires
            old(self).wf(),
        ensures
            res is Some <==> old(self)@.len() > 0,
            res matches Some(r) ==> *r == old(self)@[0].1
                && final(self).same_but_data_at(old(self), old(self).order()[0])
                && final(self).data_at(old(self).order()[0]) == *final(r),
            res is None ==> final(self).same_elements(old(self)),
    {
        proof { self.lemma_wf_facts(); }
        let h = self.head;
        self.get_mut(h)
    }

    /// The element at the tail, for change.
    pub fn tail_mut(&mut self) -> (res: Option<&mut T>)
        requires
            old(self).wf(),
        ensures
            res is Some <==> old(self)@.len() > 0,
            res matches Some(r) ==> *r == old(self)@.last().1
                && final(self).same_but_data_at(old(self), old(self).order().last())
                && final(self).data_at(old(self).order().last()) == *final(r),
            res is None ==> final(self).same_elements(old(self)),
    {
        proof { self.lemma_wf_facts(); }
        let t = self.tail;
        self.get_mut(t)
    }

    /// Links the empty slot `idx`, taken by `next`, in front of the head.
    fn link_head(&mut self, idx: usize, data: T)
        requires
            old(self).nodes@.len() <= old(self).capacity,
            old(self).nodes@.len() < NIL,
            idx < old(self).nodes@.len(),
            old(self).nodes@[idx as int] is None,
            !old(self).order@.contains(idx),
            old(self).order@.no_duplicates(),
            forall|k: int| 0 <= k < old(self).order@.len() ==> #[trigger] old(self).order@[k] < old(self).nodes@.len(),
            forall|i: int| 0 <= i < old(self).nodes@.len() && i != idx ==> (#[trigger] old(self).nodes@[i] is Some <==> old(self).order@.contains(i as usize)),
            old(self).free@.no_duplicates(),
            forall|j: int| 0 <= j < old(self).free@.len() ==> #[trigger] old(self).free@[j] < old(self).nodes@.len()
                && old(self).nodes@[old(self).free@[j] as int] is None && old(self).free@[j] != idx,
            old(self).free@.len() + old(self).order@.len() + 1 == old(self).nodes@.len(),
            old(self).head == if old(self).order@.len() == 0 { NIL } else { old(self).order@[0] },
            old(self).tail == if old(self).order@.len() == 0 { NIL } else { old(self).order@.last() },
            forall|k: int| 0 <= k < old(self).order@.len() ==> {
                &&& old(self).nodes@[#[trigger] old(self).order@[k] as int] is Some
                &&& old(self).nodes@[old(self).order@[k] as int]->0.prev == prev_in(old(self).order@, k)
                &&& old(self).nodes@[old(self).order@[k] as int]->0.next == next_in(old(self).order@, k)
            },
        ensures
            final(self).wf(),
            final(self).order() == seq![idx] + old(self).order(),
            final(self).data_at(idx) == data,
            forall|k: int| 0 <= k < old(self).order().len()
                ==> #[trigger] final(self).data_at(old(self).order()[k]) == old(self).data_at(old(self).order()[k]),
            forall|j: usize| #[trigger] final(self).holds(j) <==> j == idx || old(self).holds(j),
            forall|j: usize| old(self).holds(j) ==> #[trigger] final(self).data_at(j) == old(self).data_at(j),
            final(self).capacity == old(self).capacity,
            final(self).nodes@.len() == old(self).nodes@.len(),
            final(self).free == old(self).free,
    {
        let ghost o = self.order@;
        let ghost n0 = self.nodes@;
        let h = self.head;
        if h != NIL {
            let nd = self.nodes[h].take();
            match nd {
                Some(mut x) => {
                    x.prev = idx;
                    self.nodes.set(h, Some(x));
                },
                None => {},
            }
        }
        let ghost n1 = self.nodes@;
        if self.tail == NIL {
            self.tail = idx;
        }
        self.nodes.set(idx, Some(FixedVecNode { prev: NIL, next: h, data }));
        self.head = idx;
        self.order = Ghost(seq![idx] + o);
        proof {
            let o2 = self.order@;
            let n = self.nodes@;
            assert(o.len() > 0 ==> o[0] != idx);
            assert forall|k: int| 0 <= k < o2.len() implies #[trigger] o2[k] < n.len() by {
                if k > 0 {
                    assert(o2[k] == o[k - 1]);
                }
            }
            assert forall|k: int| 0 <= k < o2.len() implies {
                &&& n[#[trigger] o2[k] as int] is Some
                &&& n[o2[k] as int]->0.prev == prev_in(o2, k)
                &&& n[o2[k] as int]->0.next == next_in(o2, k)
            } by {
                if k > 0 {
                    assert(o2[k] == o[k - 1]);
                    assert(o[k - 1] != idx);
                    if k == 1 {
                        assert(o[0] == h);
                    } else {
                        assert(o[k - 1] != h) by {
                            assert(o[0] == h);
                        }
                    }
                }
            }
            assert forall|i: int| 0 <= i < n.len() implies (#[trigger] n[i] is Some <==> o2.contains(i as usize)) by {
                if i != idx {
                    if o2.contains(i as usize) {
                        let k = choose|k: int| 0 <= k < o2.len() && o2[k] == i as usize;
                        assert(o[k - 1] == i as usize);
                    }
                    if o.contains(i as usize) {
                        let k = choose|k: int| 0 <= k < o.len() && o[k] == i as usize;
                        assert(o2[k + 1] == i as usize);
                    }
                } else {
                    assert(o2[0] == idx);
                }
            }
            assert forall|j: int| 0 <= j < self.free@.len() implies #[trigger] self.free@[j] < n.len()
                && n[self.free@[j] as int] is None by {
                assert(n0[self.free@[j] as int] is None);
            }
            assert forall|k: int| 0 <= k < o.len() implies #[trigger] self.data_at(o[k]) == old(self).data_at(o[k]) by {
                assert(o[k] != idx);
            }
            assert forall|j: usize| #[trigger] self.holds(j) <==> j == idx || old(self).holds(j) by {
                if self.holds(j) {
                    let k = choose|k: int| 0 <= k < o2.len() && o2[k] == j;
                    if k > 0 {
                        assert(o[k - 1] == j);
                    }
                }
                if j == idx {
                    assert(o2[0] == idx);
                }
                if old(self).holds(j) {
                    let k = choose|k: int| 0 <= k < o.len() && o[k] == j;
                    assert(o2[k + 1] == j);
                }
            }
            assert forall|j: usize| old(self).holds(j) implies #[trigger] self.data_at(j) == old(self).data_at(j) by {
                let k = choose|k: int| 0 <= k < o.len() && o[k] == j;
                assert(self.data_at(o[k]) == old(self).data_at(o[k]));
            }
            assert(o2.no_duplicates());
            assert(o2.len() > 0);
            if o.len() > 0 {
                assert(o2.last() == o.last());
            }
        }
    }

    /// Links the empty slot `idx`, taken by `next`, behind the tail.
    fn link_tail(&mut self, idx: usize, data: T)
        requires
            old(self).nodes@.len() <= old(self).capacity,
            old(self).nodes@.len() < NIL,
            idx < old(self).nodes@.len(),
            old(self).nodes@[idx as int] is None,
            !old(self).order@.contains(idx),
            old(self).order@.no_duplicates(),
            forall|k: int| 0 <= k < old(self).order@.len() ==> #[trigger] old(self).order@[k] < old(self).nodes@.len(),
            forall|i: int| 0 <= i < old(self).nodes@.len() && i != idx ==> (#[trigger] old(self).nodes@[i] is Some <==> old(self).order@.contains(i as usize)),
            old(self).free@.no_duplicates(),
            forall|j: int| 0 <= j < old(self).free@.len() ==> #[trigger] old(self).free@[j] < old(self).nodes@.len()
                && old(self).nodes@[old(self).free@[j] as int] is None && old(self).free@[j] != idx,
            old(self).free@.len() + old(self).order@.len() + 1 == old(self).nodes@.len(),
            old(self).head == if old(self).order@.len() == 0 { NIL } else { old(self).order@[0] },
            old(self).tail == if old(self).order@.len() == 0 { NIL } else { old(self).order@.last() },
            forall|k: int| 0 <= k < old(self).order@.len() ==> {
                &&& old(self).nodes@[#[trigger] old(self).order@[k] as int] is Some
                &&& old(self).nodes@[old(self).order@[k] as int]->0.prev == prev_in(old(self).order@, k)
                &&& old(self).nodes@[old(self).order@[k] as int]->0.next == next_in(old(self).order@, k)
            },
        ensures
            final(self).wf(),
            final(self).order() == old(self).order().push(idx),
            final(self).data_at(idx) == data,
            forall|k: int| 0 <= k < old(self).order().len()
                ==> #[trigger] final(self).data_at(old(self).order()[k]) == old(self).data_at(old(self).order()[k]),
            forall|j: usize| #[trigger] final(self).holds(j) <==> j == idx || old(self).holds(j),
            forall|j: usize| old(self).holds(j) ==> #[trigger] final(self).data_at(j) == old(self).data_at(j),
            final(self).capacity == old(self).capacity,
            final(self).nodes@.len() == old(self).nodes@.len(),
            final(self).free == old(self).free,
    {
        let ghost o = self.order@;
        let ghost n0 = self.nodes@;
        let t = self.tail;
        if t != NIL {
            let nd = self.nodes[t].take();
            match nd {
                Some(mut x) => {
                    x.next = idx;
                    self.nodes.set(t, Some(x));
                },
                None => {},
            }
        }
        if self.head == NIL {
            self.head = idx;
        }
        self.nodes.set(idx, Some(FixedVecNode { prev: t, next: NIL, data }));
        self.tail = idx;
        self.order = Ghost(o.push(idx));
        proof {
            let o2 = self.order@;
            let n = self.nodes@;
            let last = o.len() - 1;
            assert(o.len() > 0 ==> o[last] != idx);
            assert forall|k: int| 0 <= k < o2.len() implies #[trigger] o2[k] < n.len() by {
                if k < o.len() {
                    assert(o2[k] == o[k]);
                }
            }
            assert forall|k: int| 0 <= k < o2.len() implies {
                &&& n[#[trigger] o2[k] as int] is Some
                &&& n[o2[k] as int]->0.prev == prev_in(o2, k)
                &&& n[o2[k] as int]->0.next == next_in(o2, k)
            } by {
                if k < o.len() {
                    assert(o2[k] == o[k]);
                    assert(o[k] != idx);
                    if k == last {
                        assert(o[last] == t);
                    } else {
                        assert(o[k] != t) by {
                            assert(o[last] == t);
                        }
                    }
                }
            }
            assert forall|i: int| 0 <= i < n.len() implies (#[trigger] n[i] is Some <==> o2.contains(i as usize)) by {
                if i != idx {
                    if o2.contains(i as usize) {
                        let k = choose|k: int| 0 <= k < o2.len() && o2[k] == i as usize;
                        assert(o[k] == i as usize);
                    }
                    if o.contains(i as usize) {
                        let k = choose|k: int| 0 <= k < o.len() && o[k] == i as usize;
                        assert(o2[k] == i as usize);
                    }
                } else {
                    assert(o2[o.len() as int] == idx);
                }
            }
            assert forall|j: int| 0 <= j < self.free@.len() implies #[trigger] self.free@[j] < n.len()
                && n[self.free@[j] as int] is None by {
                assert(n0[self.free@[j] as int] is None);
            }
            assert forall|k: int| 0 <= k < o.len() implies #[trigger] self.data_at(o[k]) == old(self).data_at(o[k]) by {
                assert(o[k] != idx);
            }
            assert forall|j: usize| #[trigger] self.holds(j) <==> j == idx || old(self).holds(j) by {
                if self.holds(j) {
                    let k = choose|k: int| 0 <= k < o2.len() && o2[k] == j;
                    if k < o.len() {
                        assert(o[k] == j);
                    }
                }
                if j == idx {
                    assert(o2[o.len() as int] == idx);
                }
                if old(self).holds(j) {
                    let k = choose|k: int| 0 <= k < o.len() && o[k] == j;
                    assert(o2[k] == j);
                }
            }
            assert forall|j: usize| old(self).holds(j) implies #[trigger] self.data_at(j) == old(self).data_at(j) by {
                let k = choose|k: int| 0 <= k < o.len() && o[k] == j;
                assert(self.data_at(o[k]) == old(self).data_at(o[k]));
            }
            assert(o2.no_duplicates());
            if o.len() > 0 {
                assert(o2[0] == o[0]);
            }
        }
    }

    /// Puts `data` in front of the head.  Gives its slot and the element, or
    /// `None` when the list is full.
    #[verifier::spinoff_prover]
    #[verifier::rlimit(100)]
    pub fn insert_head(&mut self, data: T) -> (res: Option<(usize, &mut T)>)
        requires
            old(self).wf(),
        ensures
            res is Some <==> (old(self)@.len() < old(self).spec_capacity() && old(self)@.len() < NIL - 1),
            res is None ==> final(self).same_elements(old(self)),
            res matches Some((i, r)) ==> {
                &&& i == old(self).next_slot()
                &&& old(self).slots_in_order() ==> i == old(self)@.len() && final(self).slots_in_order()
                &&& !old(self).holds(i)
                &&& *r == data
                &&& final(self).wf()
                &&& final(self).order() == seq![i] + old(self).order()
                &&& final(self)@ == seq![(i, *final(r))] + old(self)@
                &&& final(self).data_at(i) == *final(r)
                &&& final(self).spec_capacity() == old(self).spec_capacity()
                &&& forall|j: usize| #[trigger] final(self).holds(j) <==> j == i || old(self).holds(j)
                &&& forall|j: usize| old(self).holds(j) ==> #[trigger] final(self).data_at(j) == old(self).data_at(j)
            },
    {
        let idx = match self.next() {
            Some(i) => i,
            None => return None,
        };
        self.link_head(idx, data);
        proof {
            assert(self.order()[0] == idx);
            assert(self.holds(idx));
        }
        match self.get_mut(idx) {
            Some(r) => Some((idx, r)),
            None => None,
        }
    }

    /// Puts `data` behind the tail.  Gives its slot and the element, or `None`
    /// when the list is full.
    pub fn insert_tail(&mut self, data: T) -> (res: Option<(usize, &mut T)>)
        requires
            old(self).wf(),
        ensures
            res is Some <==> (old(self)@.len() < old(self).spec_capacity() && old(self)@.len() < NIL - 1),
            res is None ==> final(self).same_elements(old(self)),
            res matches Some((i, r)) ==> {
                &&& i == old(self).next_slot()
                &&& old(self).slots_in_order() ==> i == old(self)@.len() && final(self).slots_in_order()
                &&& !old(self).holds(i)
                &&& *r == data
                &&& final(self).wf()
                &&& final(self).order() == old(self).order().push(i)
                &&& final(self)@ == old(self)@.push((i, *final(r)))
                &&& final(self).data_at(i) == *final(r)
                &&& final(self).spec_capacity() == old(self).spec_capacity()
                &&& forall|j: usize| #[trigger] final(self).holds(j) <==> j == i || old(self).holds(j)
                &&& forall|j: usize| old(self).holds(j) ==> #[trigger] final(self).data_at(j) == old(self).data_at(j)
            },
    {
        let idx = match self.next() {
            Some(i) => i,
            None => return None,
        };
        self.link_tail(idx, data);
        proof {
            assert(self.order().last() == idx);
            assert(self.holds(idx));
        }
        match self.get_mut(idx) {
            Some(r) => Some((idx, r)),
            None => None,
        }
    }

    /// Removes the element in slot `idx` and gives it back; `None` when that
    /// slot holds nothing.
    pub fn remove(&mut self, idx: usize) -> (res: Option<T>)
        requires
            old(self).wf(),
        ensures
            res is Some <==> old(self).holds(idx),
            res is None ==> final(self).same_elements(old(self)),
            res matches Some(v) ==> {
                &&& v == old(self).data_at(idx)
                &&& final(self).wf()
                &&& final(self).order() == old(self).order().remove(old(self).order().index_of(idx))
                &&& final(self).next_slot() == idx
                &&& final(self).spec_capacity() == old(self).spec_capacity()
                &&& final(self).spec_slots() == old(self).spec_slots()
                &&& forall|j: usize| #[trigger] final(self).holds(j) <==> old(self).holds(j) && j != idx
                &&& forall|j: usize| final(self).holds(j) ==> #[trigger] final(self).data_at(j) == old(self).data_at(j)
                &&& final(self)@ == old(self)@.remove(old(self).order().index_of(idx))
            },
    {
        proof { self.lemma_wf_facts(); }
        if idx >= self.nodes.len() || self.nodes[idx].is_none() {
            return None;
        }
        let ghost o = self.order@;
        let ghost n0 = self.nodes@;
        let taken = self.nodes[idx].take();
        let node = match taken {
            Some(x) => x,
            None => {
                proof {
                    assert(false);
                }
                return None;
            },
        };
        let ghost n1 = self.nodes@;
        proof {
            assert(n1 == n0.update(idx as int, None));
        }
        let ghost k = o.index_of(idx);
        proof {
            assert(o.contains(idx));
            assert(0 <= k < o.len() && o[k] == idx);
        }
        let p = node.prev;
        let nx = node.next;
        proof {
            assert(o[k] == idx);
            assert(p == prev_in(o, k) && nx == next_in(o, k));
            assert(k > 0 ==> o[k - 1] != idx && o[k - 1] < n0.len());
            assert(k + 1 < o.len() ==> o[k + 1] != idx && o[k + 1] != p && o[k + 1] < n0.len());
        }
        if p != NIL {
            let pn = self.nodes[p].take();
            match pn {
                Some(mut x) => {
                    x.next = nx;
                    self.nodes.set(p, Some(x));
                },
                None => {},
            }
        } else {
            self.head = nx;
        }
        let ghost n2 = self.nodes@;
        if nx != NIL {
            let nn = self.nodes[nx].take();
            match nn {
                Some(mut x) => {
                    x.prev = p;
                    self.nodes.set(nx, Some(x));
                },
                None => {},
            }
        } else {
            self.tail = p;
        }
        self.free.push(idx);
        self.order = Ghost(o.remove(k));
        proof {
            let o2 = self.order@;
            let n = self.nodes@;
            assert forall|i: int| #![trigger n[i]] 0 <= i < n.len() && i != o[k] && i != prev_in(o, k) && i != next_in(o, k) implies n[i] == n0[i] by {
                assert(n2[i] == n1[i]);
            }
            Self::lemma_remove_post(&*old(self), &*self, idx, k);
        }
        Some(node.data)
    }

    proof fn lemma_remove_post(a: &Self, b: &Self, idx: usize, k: int)
        requires
            a.wf(),
            0 <= k < a.order@.len(),
            a.order@[k] == idx,
            k == a.order@.index_of(idx),
            b.order@ == a.order@.remove(k),
            b.capacity == a.capacity,
            b.free@ == a.free@.push(idx),
            b.nodes@.len() == a.nodes@.len(),
            b.nodes@[idx as int] is None,
            forall|i: int| #![trigger b.nodes@[i]] 0 <= i < b.nodes@.len() && i != idx
                && i != prev_in(a.order@, k) && i != next_in(a.order@, k) ==> b.nodes@[i] == a.nodes@[i],
            prev_in(a.order@, k) != NIL ==> {
                let pp = prev_in(a.order@, k) as int;
                &&& b.nodes@[pp] is Some
                &&& b.nodes@[pp]->0.prev == a.nodes@[pp]->0.prev
                &&& b.nodes@[pp]->0.next == next_in(a.order@, k)
                &&& b.nodes@[pp]->0.data == a.nodes@[pp]->0.data
            },
            next_in(a.order@, k) != NIL ==> {
                let q = next_in(a.order@, k) as int;
                &&& b.nodes@[q] is Some
                &&& b.nodes@[q]->0.next == a.nodes@[q]->0.next
                &&& b.nodes@[q]->0.prev == prev_in(a.order@, k)
                &&& b.nodes@[q]->0.data == a.nodes@[q]->0.data
            },
            b.head == if prev_in(a.order@, k) == NIL { next_in(a.order@, k) } else { a.head },
            b.tail == if next_in(a.order@, k) == NIL { prev_in(a.order@, k) } else { a.tail },
        ensures
            b.wf(),
            b.next_slot() == idx,
            forall|j: usize| #[trigger] b.holds(j) <==> a.holds(j) && j != idx,
            forall|j: usize| b.holds(j) ==> #[trigger] b.data_at(j) == a.data_at(j),
            b@ == a@.remove(k),
    {
        let o = a.order@;
        let o2 = b.order@;
        let n0 = a.nodes@;
        let n = b.nodes@;
        let p = prev_in(o, k);
        let nx = next_in(o, k);
        a.lemma_wf_facts();
        assert(k > 0 ==> o[k - 1] != idx && o[k - 1] < n0.len());
        assert(k + 1 < o.len() ==> o[k + 1] != idx && o[k + 1] != p && o[k + 1] < n0.len());
        Self::lemma_unlink(o, n0, n, k);
        assert forall|j: int| 0 <= j < b.free@.len() implies #[trigger] b.free@[j] < n.len()
            && n[b.free@[j] as int] is None by {
            if j < a.free@.len() {
                assert(b.free@[j] == a.free@[j]);
                assert(n0[b.free@[j] as int] is None);
                assert(b.free@[j] != p && b.free@[j] != nx && b.free@[j] != idx);
            }
        }
        assert(b.free@.no_duplicates()) by {
            assert forall|x: int, y: int| 0 <= x < y < b.free@.len() implies b.free@[x] != b.free@[y] by {
                if y == b.free@.len() - 1 {
                    assert(n0[b.free@[x] as int] is None);
                }
            }
        }
        assert forall|j: usize| #[trigger] b.holds(j) <==> a.holds(j) && j != idx by {
            assert(o2.contains(j) <==> o.contains(j) && j != o[k]);
        }
        Self::lemma_view_remove(a, b, k);
        assert forall|j: usize| b.holds(j) implies #[trigger] b.data_at(j) == a.data_at(j) by {
            assert(o2.contains(j));
        }
    }

    proof fn lemma_view_remove(a: &Self, b: &Self, k: int)
        requires
            0 <= k < a.order().len(),
            b.order() == a.order().remove(k),
            forall|j: usize| b.order().contains(j) ==> #[trigger] b.nodes@[j as int]->0.data == a.nodes@[j as int]->0.data,
        ensures
            b@ == a@.remove(k),
    {
        let o = a.order();
        let o2 = b.order();
        o.remove_ensures(k);
        assert forall|kk: int| 0 <= kk < o2.len() implies #[trigger] b@[kk] == a@.remove(k)[kk] by {
            assert(o2.contains(o2[kk]));
            if kk < k {
                assert(o2[kk] == o[kk]);
            } else {
                assert(o2[kk] == o[kk + 1]);
            }
        }
        assert(b@ =~= a@.remove(k));
    }

    /// The situation after unlinking the `k`-th slot of `o` from the nodes
    /// `n0`, giving the nodes `n`.
    spec fn unlink_pre(o: Seq<usize>, n0: Seq<Option<FixedVecNode<T>>>, n: Seq<Option<FixedVecNode<T>>>, k: int) -> bool {
        &&& o.no_duplicates()
        &&& 0 <= k < o.len()
        &&& n0.len() < NIL
        &&& forall|kk: int| 0 <= kk < o.len() ==> #[trigger] o[kk] < n0.len()
        &&& forall|i: int| 0 <= i < n0.len() ==> (#[trigger] n0[i] is Some <==> o.contains(i as usize))
        &&& forall|kk: int| 0 <= kk < o.len() ==> {
            &&& n0[#[trigger] o[kk] as int] is Some
            &&& n0[o[kk] as int]->0.prev == prev_in(o, kk)
            &&& n0[o[kk] as int]->0.next == next_in(o, kk)
        }
        &&& n.len() == n0.len()
        &&& n[o[k] as int] is None
        &&& forall|i: int| #![trigger n[i]] 0 <= i < n.len() && i != o[k] && i != prev_in(o, k) && i != next_in(o, k) ==> n[i] == n0[i]
        &&& prev_in(o, k) != NIL ==> {
            let pp = prev_in(o, k) as int;
            &&& n[pp] is Some
            &&& n[pp]->0.prev == n0[pp]->0.prev
            &&& n[pp]->0.next == next_in(o, k)
            &&& n[pp]->0.data == n0[pp]->0.data
        }
        &&& next_in(o, k) != NIL ==> {
            let q = next_in(o, k) as int;
            &&& n[q] is Some
            &&& n[q]->0.next == n0[q]->0.next
            &&& n[q]->0.prev == prev_in(o, k)
            &&& n[q]->0.data == n0[q]->0.data
        }
    }

    proof fn lemma_unlink_seq(o: Seq<usize>, k: int)
        requires
            o.no_duplicates(),
            0 <= k < o.len(),
        ensures
            ({
                let o2 = o.remove(k);
                &&& o2.no_duplicates()
                &&& forall|j: usize| #[trigger] o2.contains(j) <==> o.contains(j) && j != o[k]
                &&& o2.len() == o.len() - 1
                &&& o2.len() > 0 ==> o2[0] == (if k == 0 { o[1] } else { o[0] })
                &&& o2.len() > 0 ==> o2.last() == (if k == o.len() - 1 { o[k - 1] } else { o.last() })
                &&& forall|kk: int| 0 <= kk < k ==> #[trigger] o2[kk] == o[kk]
                &&& forall|kk: int| k <= kk < o2.len() ==> #[trigger] o2[kk] == o[kk + 1]
            }),
    {
        let o2 = o.remove(k);
        let idx = o[k];
        o.remove_ensures(k);
        assert forall|j: usize| #[trigger] o2.contains(j) <==> o.contains(j) && j != idx by {
            if o2.contains(j) {
                let kk = choose|kk: int| 0 <= kk < o2.len() && o2[kk] == j;
                if kk < k {
                    assert(o[kk] == j);
                } else {
                    assert(o[kk + 1] == j);
                }
            }
            if o.contains(j) && j != idx {
                let kk = choose|kk: int| 0 <= kk < o.len() && o[kk] == j;
                if kk < k {
                    assert(o2[kk] == j);
                } else {
                    assert(o2[kk - 1] == j);
                }
            }
        }
        assert(o2.no_duplicates()) by {
            assert forall|a: int, b: int| 0 <= a < b < o2.len() implies o2[a] != o2[b] by {
                let a2 = if a < k { a } else { a + 1 };
                let b2 = if b < k { b } else { b + 1 };
                assert(o2[a] == o[a2]);
                assert(o2[b] == o[b2]);
            }
        }
        if o2.len() > 0 {
            if k == 0 {
                assert(o2[0] == o[1]);
            } else {
                assert(o2[0] == o[0]);
            }
            if k == o.len() - 1 {
                assert(o2.last() == o[k - 1]);
            } else {
                assert(o2.last() == o.last());
            }
        }
    }

    proof fn lemma_unlink_links(o: Seq<usize>, n0: Seq<Option<FixedVecNode<T>>>, n: Seq<Option<FixedVecNode<T>>>, k: int)
        requires
            Self::unlink_pre(o, n0, n, k),
        ensures
            ({
                let o2 = o.remove(k);
                &&& forall|kk: int| 0 <= kk < o2.len() ==> #[trigger] o2[kk] < n.len()
                &&& forall|kk: int| 0 <= kk < o2.len() ==> {
                    &&& n[#[trigger] o2[kk] as int] is Some
                    &&& n[o2[kk] as int]->0.prev == prev_in(o2, kk)
                    &&& n[o2[kk] as int]->0.next == next_in(o2, kk)
                }
            }),
    {
        let o2 = o.remove(k);
        let idx = o[k];
        let p = prev_in(o, k);
        let nx = next_in(o, k);
        Self::lemma_unlink_seq(o, k);
        assert forall|kk: int| 0 <= kk < o2.len() implies #[trigger] o2[kk] < n.len() by {
            if kk < k {
                assert(o2[kk] == o[kk]);
            } else {
                assert(o2[kk] == o[kk + 1]);
            }
        }
        assert forall|kk: int| 0 <= kk < o2.len() implies {
            &&& n[#[trigger] o2[kk] as int] is Some
            &&& n[o2[kk] as int]->0.prev == prev_in(o2, kk)
            &&& n[o2[kk] as int]->0.next == next_in(o2, kk)
        } by {
            if kk < k {
                assert(o2[kk] == o[kk]);
                assert(o[kk] != idx);
                if kk + 1 < k {
                    assert(o[kk] != p);
                }
                if k + 1 < o.len() {
                    assert(o[kk] != nx);
                }
                if kk > 0 {
                    assert(o2[kk - 1] == o[kk - 1]);
                }
                if kk + 1 < k {
                    assert(o2[kk + 1] == o[kk + 1]);
                }
            } else {
                assert(o2[kk] == o[kk + 1]);
                assert(o[kk + 1] != idx);
                if kk > k {
                    assert(o[kk + 1] != nx);
                    assert(o2[kk - 1] == o[kk]);
                }
                if k > 0 {
                    assert(o[kk + 1] != p);
                }
                if kk + 1 < o2.len() {
                    assert(o2[kk + 1] == o[kk + 2]);
                }
            }
        }
    }

    proof fn lemma_unlink_occ(o: Seq<usize>, n0: Seq<Option<FixedVecNode<T>>>, n: Seq<Option<FixedVecNode<T>>>, k: int)
        requires
            Self::unlink_pre(o, n0, n, k),
        ensures
            ({
                let o2 = o.remove(k);
                &&& forall|i: int| 0 <= i < n.len() ==> (#[trigger] n[i] is Some <==> o2.contains(i as usize))
                &&& forall|j: usize| o2.contains(j) ==> #[trigger] n[j as int]->0.data == n0[j as int]->0.data
            }),
    {
        let o2 = o.remove(k);
        let idx = o[k];
        let p = prev_in(o, k);
        let nx = next_in(o, k);
        Self::lemma_unlink_seq(o, k);
        assert forall|i: int| 0 <= i < n.len() implies (#[trigger] n[i] is Some <==> o2.contains(i as usize)) by {
            assert(n0[i] is Some <==> o.contains(i as usize));
            if i != idx && i != p && i != nx {
                assert(n[i] == n0[i]);
            }
            if i == p && p != NIL {
                assert(o.contains(p)) by {
                    assert(o[k - 1] == p);
                }
            }
            if i == nx && nx != NIL {
                assert(o.contains(nx)) by {
                    assert(o[k + 1] == nx);
                }
            }
        }
        assert forall|j: usize| o2.contains(j) implies #[trigger] n[j as int]->0.data == n0[j as int]->0.data by {
            let kk = choose|kk: int| 0 <= kk < o.len() && o[kk] == j;
            assert(j < n0.len());
            if j != p && j != nx {
                assert(n[j as int] == n0[j as int]);
            }
        }
    }

    proof fn lemma_unlink(
        o: Seq<usize>,
        n0: Seq<Option<FixedVecNode<T>>>,
        n: Seq<Option<FixedVecNode<T>>>,
        k: int,
    )
        requires
            Self::unlink_pre(o, n0, n, k),
        ensures
            ({
                let o2 = o.remove(k);
                &&& o2.no_duplicates()
                &&& forall|kk: int| 0 <= kk < o2.len() ==> #[trigger] o2[kk] < n.len()
                &&& forall|i: int| 0 <= i < n.len() ==> (#[trigger] n[i] is Some <==> o2.contains(i as usize))
                &&& forall|kk: int| 0 <= kk < o2.len() ==> {
                    &&& n[#[trigger] o2[kk] as int] is Some
                    &&& n[o2[kk] as int]->0.prev == prev_in(o2, kk)
                    &&& n[o2[kk] as int]->0.next == next_in(o2, kk)
                }
                &&& forall|j: usize| #[trigger] o2.contains(j) <==> o.contains(j) && j != o[k]
                &&& forall|j: usize| o2.contains(j) ==> #[trigger] n[j as int]->0.data == n0[j as int]->0.data
                &&& o2.len() == o.len() - 1
                &&& o2.len() > 0 ==> o2[0] == (if k == 0 { o[1] } else { o[0] })
                &&& o2.len() > 0 ==> o2.last() == (if k == o.len() - 1 { o[k - 1] } else { o.last() })
            }),
    {
        Self::lemma_unlink_seq(o, k);
        Self::lemma_unlink_links(o, n0, n, k);
        Self::lemma_unlink_occ(o, n0, n, k);
    }

    /// Removes the head element and gives it back.
    pub fn pop_head(&mut self) -> (res: Option<T>)
        requires
            old(self).wf(),
        ensures
            res is Some <==> old(self)@.len() > 0,
            res is None ==> final(self).same_elements(old(self)),
            res matches Some(v) ==> {
                &&& v == old(self)@[0].1
                &&& final(self).wf()
                &&& final(self).order() == old(self).order().drop_first()
                &&& final(self)@ == old(self)@.drop_first()
                &&& final(self).next_slot() == old(self).order()[0]
                &&& forall|j: usize| #[trigger] final(self).holds(j) <==> old(self).holds(j) && j != old(self).order()[0]
                &&& forall|j: usize| final(self).holds(j) ==> #[trigger] final(self).data_at(j) == old(self).data_at(j)
                &&& final(self).spec_capacity() == old(self).spec_capacity()
                &&& final(self).spec_slots() == old(self).spec_slots()
            },
    {
        proof { self.lemma_wf_facts(); }
        let ghost o = self.order@;
        let h = self.head;
        let res = self.remove(h);
        proof {
            if o.len() > 0 {
                assert(o.index_of(h) == 0) by {
                    assert(o[0] == h);
                }
                assert(o.remove(0) =~= o.drop_first());
                assert(old(self)@.remove(0) =~= old(self)@.drop_first());
            }
        }
        res
    }

    /// Removes the tail element and gives it back.
    pub fn pop_tail(&mut self) -> (res: Option<T>)
        requires
            old(self).wf(),
        ensures
            res is Some <==> old(self)@.len() > 0,
            res is None ==> final(self).same_elements(old(self)),
            res matches Some(v) ==> {
                &&& v == old(self)@.last().1
                &&& final(self).wf()
                &&& final(self).order() == old(self).order().drop_last()
                &&& final(self)@ == old(self)@.drop_last()
                &&& final(self).next_slot() == old(self).order().last()
                &&& forall|j: usize| #[trigger] final(self).holds(j) <==> old(self).holds(j) && j != old(self).order().last()
                &&& forall|j: usize| final(self).holds(j) ==> #[trigger] final(self).data_at(j) == old(self).data_at(j)
                &&& final(self).spec_capacity() == old(self).spec_capacity()
                &&& final(self).spec_slots() == old(self).spec_slots()
            },
    {
        proof { self.lemma_wf_facts(); }
        let ghost o = self.order@;
        let t = self.tail;
        let res = self.remove(t);
        proof {
            if o.len() > 0 {
                let l = o.len() - 1;
                assert(o.index_of(t) == l) by {
                    assert(o[l] == t);
                }
                assert(o.remove(l) =~= o.drop_last());
                assert(old(self)@.remove(l) =~= old(self)@.drop_last());
            }
        }
        res
    }

    /// Slots and elements from head to tail.
    pub fn iter(&self) -> (res: Vec<(usize, &T)>)
        requires
            self.wf(),
        ensures
            res@.len() == self@.len(),
            forall|k: int| 0 <= k < res@.len() ==> (#[trigger] res@[k]).0 == self@[k].0 && *res@[k].1 == self@[k].1,
    {
        let mut res: Vec<(usize, &T)> = Vec::new();
        let len = self.len();
        let mut cur = self.head;
        let mut k: usize = 0;
        while k < len
            invariant
                self.wf(),
                len == self.order().len(),
                k <= len,
                res@.len() == k,
                k < len ==> cur == self.order()[k as int],
                forall|j: int| 0 <= j < k ==> (#[trigger] res@[j]).0 == self@[j].0 && *res@[j].1 == self@[j].1,
            decreases len - k,
        {
            proof {
                assert(self.order@[k as int] < self.nodes@.len());
            }
            let n = match &self.nodes[cur] {
                Some(n) => n,
                None => {
                    proof {
                        assert(false);
                    }
                    return res;
                },
            };
            res.push((cur, &n.data));
            cur = n.next;
            k = k + 1;
        }
        res
    }

    /// Moves the element of slot `idx` to the head, in the same slot, and
    /// gives it for change; `None` when the slot holds nothing.
    pub fn move_head(&mut self, idx: usize) -> (res: Option<&mut T>)
        requires
            old(self).wf(),
        ensures
            res is Some <==> old(self).holds(idx),
            res is None ==> final(self).same_elements(old(self)),
            res matches Some(r) ==> {
                &&& *r == old(self).data_at(idx)
                &&& final(self).wf()
                &&& final(self).order() == seq![idx] + old(self).order().remove(old(self).order().index_of(idx))
                &&& final(self)@ == seq![(idx, *final(r))] + old(self)@.remove(old(self).order().index_of(idx))
                &&& final(self).data_at(idx) == *final(r)
                &&& final(self).spec_capacity() == old(self).spec_capacity()
                &&& forall|j: usize| #[trigger] final(self).holds(j) <==> old(self).holds(j)
                &&& forall|j: usize| old(self).holds(j) && j != idx ==> #[trigger] final(self).data_at(j) == old(self).data_at(j)
            },
    {
        let data = match self.remove(idx) {
            Some(d) => d,
            None => return None,
        };
        proof { self.lemma_wf_facts(); }
        let res = self.insert_head(data);
        match res {
            Some((_, r)) => Some(r),
            None => None,
        }
    }

    /// Moves the element of slot `idx` to the tail, in the same slot, and
    /// gives it for change; `None` when the slot holds nothing.
    pub fn move_tail(&mut self, idx: usize) -> (res: Option<&mut T>)
        requires
            old(self).wf(),
        ensures
            res is Some <==> old(self).holds(idx),
            res is None ==> final(self).same_elements(old(self)),
            res matches Some(r) ==> {
                &&& *r == old(self).data_at(idx)
                &&& final(self).wf()
                &&& final(self).order() == old(self).order().remove(old(self).order().index_of(idx)).push(idx)
                &&& final(self)@ == old(self)@.remove(old(self).order().index_of(idx)).push((idx, *final(r)))
                &&& final(self).data_at(idx) == *final(r)
                &&& final(self).spec_capacity() == old(self).spec_capacity()
                &&& forall|j: usize| #[trigger] final(self).holds(j) <==> old(self).holds(j)
                &&& forall|j: usize| old(self).holds(j) && j != idx ==> #[trigger] final(self).data_at(j) == old(self).data_at(j)
            },
    {
        let data = match self.remove(idx) {
            Some(d) => d,
            None => return None,
        };
        proof { self.lemma_wf_facts(); }
        let res = self.insert_tail(data);
        match res {
            Some((_, r)) => Some(r),
            None => None,
        }
    }

    /// Moves the elements into slots `0..len`, in list order, keeping the
    /// number of slots; the freed slots come back from the lowest one up.
    #[verifier::rlimit(60)]
    #[verifier::spinoff_prover]
    fn reorder(&mut self)
        requires
            old(self).wf(),
        ensures
            final(self).wf(),
            final(self).spec_capacity() == old(self).spec_capacity(),
            final(self).spec_slots() == old(self).spec_slots(),
            old(self).order().len() > 0 ==> final(self).order() == Seq::new(old(self).order().len(), |k: int| k as usize),
            old(self).order().len() == 0 ==> final(self).same_elements(old(self)),
            final(self).order().len() == old(self).order().len(),
            forall|k: int| 0 <= k < old(self).order().len() ==> #[trigger] final(self)@[k].1 == old(self)@[k].1,
            forall|i: int| old(self).order().len() <= i < final(self).nodes@.len() ==> #[trigger] final(self).nodes@[i] is None,
            old(self).order().len() > 0 ==> final(self).slots_in_order(),
            old(self).order().len() > 0 ==> final(self).next_slot() == old(self).order().len(),
    {
        let len = self.len();
        if len == 0 {
            return;
        }
        let ghost o = self.order@;
        let ghost n0 = self.nodes@;
        let n = self.nodes.len();
        let mut new_nodes: Vec<Option<FixedVecNode<T>>> = Vec::with_capacity(n);
        let mut cur = self.head;
        let mut i: usize = 0;
        while i < len
            invariant
                len == o.len(),
                n == n0.len(),
                n < NIL,
                n <= self.capacity,
                self.capacity == old(self).capacity,
                len <= n,
                o.no_duplicates(),
                forall|k: int| 0 <= k < o.len() ==> #[trigger] o[k] < n0.len(),
                forall|k: int| 0 <= k < o.len() ==> {
                    &&& n0[#[trigger] o[k] as int] is Some
                    &&& n0[o[k] as int]->0.prev == prev_in(o, k)
                    &&& n0[o[k] as int]->0.next == next_in(o, k)
                },
                self.nodes@.len() == n,
                i <= len,
                i < len ==> cur == o[i as int],
                forall|k: int| i <= k < len ==> #[trigger] self.nodes@[o[k] as int] == n0[o[k] as int],
                new_nodes@.len() == i,
                forall|j: int| 0 <= j < i ==> {
                    &&& #[trigger] new_nodes@[j] is Some
                    &&& new_nodes@[j]->0.prev == (if j == 0 { NIL } else { (j - 1) as usize })
                    &&& new_nodes@[j]->0.next == (if j + 1 == len { NIL } else { (j + 1) as usize })
                    &&& new_nodes@[j]->0.data == n0[o[j] as int]->0.data
                },
            decreases len - i,
        {
            let ghost before = self.nodes@;
            let taken = self.nodes[cur].take();
            let node = match taken {
                Some(x) => x,
                None => {
                    proof {
                        assert(self.nodes@[o[i as int] as int] == n0[o[i as int] as int]);
                    }
                    return;
                },
            };
            let prev = if i == 0 { NIL } else { i - 1 };
            let next = if i + 1 == len { NIL } else { i + 1 };
            new_nodes.push(Some(FixedVecNode { prev, next, data: node.data }));
            cur = node.next;
            proof {
                assert forall|k: int| i + 1 <= k < len implies #[trigger] self.nodes@[o[k] as int] == n0[o[k] as int] by {
                    assert(o[k] != o[i as int]);
                    assert(self.nodes@[o[k] as int] == before[o[k] as int]);
                }
            }
            i = i + 1;
        }
        while new_nodes.len() < n
            invariant
                len <= new_nodes@.len() <= n,
                forall|j: int| 0 <= j < len ==> {
                    &&& #[trigger] new_nodes@[j] is Some
                    &&& new_nodes@[j]->0.prev == (if j == 0 { NIL } else { (j - 1) as usize })
                    &&& new_nodes@[j]->0.next == (if j + 1 == len { NIL } else { (j + 1) as usize })
                    &&& new_nodes@[j]->0.data == n0[o[j] as int]->0.data
                },
                forall|j: int| len <= j < new_nodes@.len() ==> #[trigger] new_nodes@[j] is None,
            decreases n - new_nodes@.len(),
        {
            new_nodes.push(None);
        }
        self.nodes = new_nodes;
        let mut free: Vec<usize> = Vec::new();
        let mut j: usize = n;
        while j > len
            invariant
                len <= j <= n,
                free@.len() == n - j,
                forall|a: int| 0 <= a < free@.len() ==> #[trigger] free@[a] == n - 1 - a,
            decreases j,
        {
            free.push(j - 1);
            j = j - 1;
        }
        self.free = free;
        self.head = 0;
        self.tail = len - 1;
        let ghost o2 = Seq::new(len as nat, |k: int| k as usize);
        self.order = Ghost(o2);
        proof {
            let nn = self.nodes@;
            assert forall|k: int| 0 <= k < o2.len() implies {
                &&& nn[#[trigger] o2[k] as int] is Some
                &&& nn[o2[k] as int]->0.prev == prev_in(o2, k)
                &&& nn[o2[k] as int]->0.next == next_in(o2, k)
            } by {
                assert(o2[k] == k as usize);
            }
            assert forall|ii: int| 0 <= ii < nn.len() implies (#[trigger] nn[ii] is Some <==> o2.contains(ii as usize)) by {
                if ii < len {
                    assert(o2[ii] == ii as usize);
                } else {
                    assert(!o2.contains(ii as usize));
                }
            }
            assert(self.free@.no_duplicates());
            assert forall|a: int| 0 <= a < self.free@.len() implies #[trigger] self.free@[a] < nn.len() && nn[self.free@[a] as int] is None by {
                assert(self.free@[a] == n - 1 - a);
            }
            assert forall|k: int| 0 <= k < len implies #[trigger] self@[k].1 == old(self)@[k].1 by {
                assert(o2[k] == k as usize);
            }
        }
    }

    /// Changes the capacity.  A capacity below the current length is
    /// ignored; shrinking the capacity first moves the elements into slots
    /// `0..len`.
    pub fn resize(&mut self, capacity: usize)
        requires
            old(self).wf(),
        ensures
            final(self).wf(),
            final(self).order().len() == old(self).order().len(),
            forall|k: int| 0 <= k < old(self).order().len() ==> #[trigger] final(self)@[k].1 == old(self)@[k].1,
            capacity < old(self)@.len() ==> final(self).same_elements(old(self)),
            capacity >= old(self)@.len() ==> final(self).spec_capacity() == capacity,
            capacity >= old(self).spec_capacity() ==> final(self).order() == old(self).order()
                && final(self).spec_slots() == old(self).spec_slots(),
            old(self)@.len() <= capacity < old(self).spec_capacity() ==> final(self).order()
                == Seq::new(old(self).order().len(), |k: int| k as usize),
    {
        let len = self.len();
        let cap = self.capacity;
        if capacity < len {
            return;
        }
        if capacity < cap {
            self.reorder();
            let ghost mid = *self;
            self.nodes.truncate(capacity);
            let nl = self.nodes.len();
            let mut free: Vec<usize> = Vec::new();
            let mut j: usize = len;
            while j < nl
                invariant
                    len <= j <= nl,
                    free@.len() == j - len,
                    forall|a: int| 0 <= a < free@.len() ==> #[trigger] free@[a] == len + a,
                decreases nl - j,
            {
                free.push(j);
                j = j + 1;
            }
            self.free = free;
            self.capacity = capacity;
            proof {
                let o = self.order@;
                let nn = self.nodes@;
                assert(o =~= mid.order@);
                assert forall|k: int| 0 <= k < o.len() implies #[trigger] o[k] < nn.len() by {
                    assert(o[k] == k as usize);
                }
                assert forall|k: int| 0 <= k < o.len() implies {
                    &&& nn[#[trigger] o[k] as int] is Some
                    &&& nn[o[k] as int]->0.prev == prev_in(o, k)
                    &&& nn[o[k] as int]->0.next == next_in(o, k)
                } by {
                    assert(o[k] == k as usize);
                    assert(nn[k] == mid.nodes@[k]);
                    assert(mid.order@[k] == k as usize);
                }
                assert forall|ii: int| 0 <= ii < nn.len() implies (#[trigger] nn[ii] is Some <==> o.contains(ii as usize)) by {
                    assert(nn[ii] == mid.nodes@[ii]);
                    assert(mid.nodes@[ii] is Some <==> mid.order@.contains(ii as usize));
                }
                assert forall|a: int| 0 <= a < self.free@.len() implies #[trigger] self.free@[a] < nn.len() && nn[self.free@[a] as int] is None by {
                    assert(self.free@[a] == len + a);
                    assert(nn[len + a] == mid.nodes@[len + a]);
                    if len == 0 {
                        assert(mid.nodes@[len + a] is Some <==> mid.order@.contains((len + a) as usize));
                    }
                }
                assert forall|k: int| 0 <= k < len implies #[trigger] self@[k].1 == old(self)@[k].1 by {
                    assert(self@[k].1 == mid@[k].1);
                }
            }
        } else if capacity > cap {
            self.capacity = capacity;
        }
    }

    /// `self` holds a subset of the elements of `old`, in the same relative
    /// order, each with its element unchanged.
    pub open spec fn kept_from(&self, old: &Self) -> bool {
        &&& self.wf()
        &&& self.spec_capacity() == old.spec_capacity()
        &&& forall|j: usize| #[trigger] self.holds(j) ==> old.holds(j) && self.data_at(j) == old.data_at(j)
        &&& forall|a: int, b: int| 0 <= a < b < self.order().len()
            ==> old.order().index_of(#[trigger] self.order()[a]) < old.order().index_of(#[trigger] self.order()[b])
    }

    /// Removes the slot `idx`, which stands right after the prefix `kept`
    /// of the order.
    fn retain_drop(&mut self, idx: usize, Ghost(kept): Ghost<Seq<usize>>, Ghost(rest): Ghost<Seq<usize>>)
        requires
            old(self).wf(),
            old(self).order() == kept + rest,
            rest.len() > 0,
            rest[0] == idx,
        ensures
            final(self).wf(),
            final(self).spec_capacity() == old(self).spec_capacity(),
            final(self).order() == kept + rest.drop_first(),
            forall|j: usize| #[trigger] final(self).holds(j) ==> old(self).holds(j) && final(self).data_at(j) == old(self).data_at(j),
    {
        proof {
            self.lemma_wf_facts();
            let o = self.order();
            assert(o[kept.len() as int] == idx);
            assert(self.holds(idx));
            assert(o.index_of(idx) == kept.len()) by {
                assert(o[kept.len() as int] == idx);
            }
            assert(o.remove(kept.len() as int) =~= kept + rest.drop_first());
        }
        let _ = self.remove(idx);
    }

    /// Keeps the elements for which `f` answers `true`, in their order and
    /// slots, and removes the others.
    #[verifier::rlimit(100)]
    #[verifier::spinoff_prover]
    pub fn retain<F>(&mut self, f: F)
        where
            F: Fn(&T) -> bool,
        requires
            old(self).wf(),
            forall|x: &T| #[trigger] f.requires((x,)),
        ensures
            final(self).kept_from(old(self)),
            forall|j: usize| #[trigger] old(self).holds(j) ==> {
                &&& final(self).holds(j) ==> f.ensures((&old(self).data_at(j),), true)
                &&& !final(self).holds(j) ==> f.ensures((&old(self).data_at(j),), false)
            },
    {
        let ghost o = self.order();
        let ghost n = o.len();
        let ghost mut kept: Seq<usize> = Seq::empty();
        let ghost mut pos: Seq<int> = Seq::empty();
        let ghost mut keepd: Seq<bool> = Seq::empty();
        let ghost mut idx: Seq<int> = Seq::empty();
        let ghost mut i: int = 0;
        let mut head = self.head;
        proof {
            self.lemma_wf_facts();
            assert(kept + o.subrange(0, n as int) =~= o);
        }
        while head != NIL
            invariant
                self.wf(),
                self.spec_capacity() == old(self).spec_capacity(),
                o == old(self).order(),
                n == o.len(),
                o.no_duplicates(),
                0 <= i <= n,
                head == if i < n { o[i] } else { NIL },
                self.order() == kept + o.subrange(i, n as int),
                pos.len() == kept.len(),
                keepd.len() == i,
                idx.len() == i,
                forall|m: int| 0 <= m < kept.len() ==> 0 <= #[trigger] pos[m] < i && kept[m] == o[pos[m]] && keepd[pos[m]],
                forall|a: int, b: int| 0 <= a < b < kept.len() ==> #[trigger] pos[a] < #[trigger] pos[b],
                forall|k: int| 0 <= k < i ==> (#[trigger] keepd[k] ==> 0 <= idx[k] < kept.len() && pos[idx[k]] == k),
                forall|k: int| 0 <= k < i ==> (#[trigger] keepd[k] ==> f.ensures((&old(self).data_at(o[k]),), true)),
                forall|k: int| 0 <= k < i ==> (!#[trigger] keepd[k] ==> f.ensures((&old(self).data_at(o[k]),), false)),
                forall|j: usize| #[trigger] self.holds(j) ==> self.data_at(j) == old(self).data_at(j),
                forall|x: &T| #[trigger] f.requires((x,)),
            decreases n - i,
        {
            let ghost kk = kept.len() as int;
            proof {
                assert(self.order()[kk] == head);
                assert(self.holds(head));
            }
            let node = match self.node_ref(head) {
                Some(nd) => nd,
                None => return,
            };
            let next = node.next;
            let keep = f(&node.data);
            proof {
                let ko = self.order();
                assert(next == next_in(ko, kk));
                assert(i + 1 < n ==> ko[kk + 1] == o[i + 1]);
                assert(self.data_at(head) == old(self).data_at(o[i]));
            }
            if !keep {
                proof {
                    assert(self.order() =~= kept + o.subrange(i, n as int));
                }
                self.retain_drop(head, Ghost(kept), Ghost(o.subrange(i, n as int)));
                proof {
                    assert(o.subrange(i, n as int).drop_first() =~= o.subrange(i + 1, n as int));
                    keepd = keepd.push(false);
                    idx = idx.push(-1);
                }
            } else {
                proof {
                    assert(self.order() =~= kept.push(head) + o.subrange(i + 1, n as int));
                    keepd = keepd.push(true);
                    idx = idx.push(kk);
                    kept = kept.push(head);
                    pos = pos.push(i);
                }
            }
            head = next;
            proof {
                i = i + 1;
            }
        }
        proof {
            assert(self.order() =~= kept);
            assert forall|j: usize| #[trigger] self.holds(j) implies old(self).holds(j) && self.data_at(j) == old(self).data_at(j) by {
                let m = choose|m: int| 0 <= m < kept.len() && kept[m] == j;
                assert(o[pos[m]] == j);
            }
            assert forall|a: int, b: int| 0 <= a < b < self.order().len() implies
                old(self).order().index_of(#[trigger] self.order()[a]) < old(self).order().index_of(#[trigger] self.order()[b]) by {
                assert(o.index_of(kept[a]) == pos[a]);
                assert(o.index_of(kept[b]) == pos[b]);
            }
            assert forall|j: usize| #[trigger] old(self).holds(j) implies {
                &&& self.holds(j) ==> f.ensures((&old(self).data_at(j),), true)
                &&& !self.holds(j) ==> f.ensures((&old(self).data_at(j),), false)
            } by {
                let k = choose|k: int| 0 <= k < n && o[k] == j;
                if self.holds(j) {
                    let m = choose|m: int| 0 <= m < kept.len() && kept[m] == j;
                    assert(o[pos[m]] == j);
                    assert(pos[m] == k);
                    assert(keepd[k]);
                } else {
                    if keepd[k] {
                        assert(kept[idx[k]] == j);
                        assert(self.order()[idx[k]] == j);
                    }
                }
            }
        }
    }

    /// Removing the slot that `insert_head` just filled gives the list back:
    /// if `b@ == seq![(i, d)] + a@` and `b.order() == seq![i] + a.order()`,
    /// then taking out slot `i` of `b` leaves `a@`.
    pub proof fn law_remove_undoes_insert_head(a: &Self, b: &Self, i: usize, d: T)
        requires
            a.wf(),
            b.wf(),
            b.order() == seq![i] + a.order(),
            b@ == seq![(i, d)] + a@,
        ensures
            b.order().index_of(i) == 0,
            b@.remove(b.order().index_of(i)) == a@,
    {
        b.lemma_wf();
        let o = b.order();
        assert(o[0] == i);
        assert(o.index_of(i) == 0) by {
            let q = o.index_of(i);
            assert(o.contains(i));
            if q != 0 {
                assert(o[q] == o[0]);
            }
        }
        assert(b@.remove(0) =~= a@);
    }

    /// A list never holds more elements than its capacity.
    pub proof fn law_len_within_capacity(&self)
        requires
            self.wf(),
        ensures
            self@.len() <= self.spec_capacity(),
    {
        self.lemma_wf();
    }
}

} // verus!
