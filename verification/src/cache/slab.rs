use vstd::prelude::*;

verus! {

/// Marks the slot of an entry that is in use: a free slot holds, in the same
/// field, the key of the next free slot.
pub const OCCUPIED: usize = usize::MAX;

/// Values that can be put back into a blank state before they are reused.
pub trait Reinit {
    /// Whether the value is in its blank state.
    spec fn is_blank(&self) -> bool;

    /// Puts the value back into its blank state.
    fn reinit(&mut self)
        ensures
            final(self).is_blank(),
    ;
}

impl Reinit for u8 {
    open spec fn is_blank(&self) -> bool {
        *self == 0
    }

    fn reinit(&mut self) {
        *self = 0;
    }
}

impl Reinit for u16 {
    open spec fn is_blank(&self) -> bool {
        *self == 0
    }

    fn reinit(&mut self) {
        *self = 0;
    }
}

impl Reinit for u32 {
    open spec fn is_blank(&self) -> bool {
        *self == 0
    }

    fn reinit(&mut self) {
        *self = 0;
    }
}

impl Reinit for u64 {
    open spec fn is_blank(&self) -> bool {
        *self == 0
    }

    fn reinit(&mut self) {
        *self = 0;
    }
}

impl Reinit for u128 {
    open spec fn is_blank(&self) -> bool {
        *self == 0
    }

    fn reinit(&mut self) {
        *self = 0;
    }
}

impl Reinit for i8 {
    open spec fn is_blank(&self) -> bool {
        *self == 0
    }

    fn reinit(&mut self) {
        *self = 0;
    }
}

impl Reinit for i16 {
    open spec fn is_blank(&self) -> bool {
        *self == 0
    }

    fn reinit(&mut self) {
        *self = 0;
    }
}

impl Reinit for i32 {
    open spec fn is_blank(&self) -> bool {
        *self == 0
    }

    fn reinit(&mut self) {
        *self = 0;
    }
}

impl Reinit for i64 {
    open spec fn is_blank(&self) -> bool {
        *self == 0
    }

    fn reinit(&mut self) {
        *self = 0;
    }
}

impl Reinit for i128 {
    open spec fn is_blank(&self) -> bool {
        *self == 0
    }

    fn reinit(&mut self) {
        *self = 0;
    }
}

impl Reinit for bool {
    open spec fn is_blank(&self) -> bool {
        *self == false
    }

    fn reinit(&mut self) {
        *self = false;
    }
}

impl Reinit for String {
    open spec fn is_blank(&self) -> bool {
        self@ == Seq::<char>::empty()
    }

    fn reinit(&mut self) {
        *self = String::new();
    }
}

impl<'a> Reinit for &'a str {
    open spec fn is_blank(&self) -> bool {
        self@ == Seq::<char>::empty()
    }

    fn reinit(&mut self) {
        *self = "";
        proof {
            reveal_strlit("");
            assert((*self)@ =~= Seq::<char>::empty());
        }
    }
}

impl<T> Reinit for Vec<T> {
    open spec fn is_blank(&self) -> bool {
        self@ == Seq::<T>::empty()
    }

    fn reinit(&mut self) {
        self.clear();
    }
}

/// A list of distinct numbers below `n`, `n` long, holds every number below `n`.
proof fn lemma_full_cover(f: Seq<usize>, n: nat, key: usize)
    requires
        f.no_duplicates(),
        f.len() == n,
        n <= usize::MAX + 1,
        forall|i: int| 0 <= i < f.len() ==> #[trigger] f[i] < n,
        key < n,
    ensures
        f.contains(key),
{
    f.unique_seq_to_set();
    let s = f.to_set();
    if !f.contains(key) {
        assert(!s.contains(key));
        assert forall|x: usize| #[trigger] s.insert(key).contains(x) implies x < n by {
            if x != key {
                assert(f.contains(x));
            }
        }
        crate::map::bitmap::lemma_card_below(s.insert(key), n);
        assert(s.finite());
        assert(s.insert(key).len() == s.len() + 1);
    }
}

/// One slot of a [`Slab`]: its value, and the link of the free list when the
/// slot is not in use.
pub struct Entry<T: Default> {
    t: T,
    next: usize,
}

impl<T: Default> Entry<T> {
    /// A slot in use, holding the default value.
    pub fn new() -> (e: Self)
        ensures
            e.is_used(),
    {
        Entry { t: T::default(), next: OCCUPIED }
    }

    pub closed spec fn is_used(&self) -> bool {
        self.next == OCCUPIED
    }

    /// Whether the slot is in use.
    pub fn is_occupied(&self) -> (r: bool)
        ensures
            r == self.is_used(),
    {
        self.next == OCCUPIED
    }
}

/// A store of reusable slots, each named by a key. A removed slot keeps its
/// value and goes on a free list; the next slot handed out is the one freed
/// last, with the value it had, or a new slot holding the default value.
pub struct Slab<T: Default> {
    entries: Vec<Entry<T>>,
    len: usize,
    next: usize,
    free: Ghost<Seq<usize>>,
}

impl<T: Default> View for Slab<T> {
    type V = Map<usize, T>;

    /// The slots in use, each with its value.
    closed spec fn view(&self) -> Map<usize, T> {
        Map::new(|k: usize| self.occupied(k), |k: usize| self.value_at(k))
    }
}

impl<T: Default> Slab<T> {
    /// The number of slots, in use or free.
    pub closed spec fn slots(&self) -> nat {
        self.entries@.len()
    }

    /// Whether slot `k` exists and is in use.
    pub closed spec fn occupied(&self, k: usize) -> bool {
        k < self.entries@.len() && self.entries@[k as int].next == OCCUPIED
    }

    /// The value held in slot `k`, in use or free.
    pub closed spec fn value_at(&self, k: usize) -> T {
        self.entries@[k as int].t
    }

    /// The free slots, the one handed out next first.
    pub closed spec fn free_list(&self) -> Seq<usize> {
        self.free@
    }

    pub closed spec fn spec_len(&self) -> nat {
        self.len as nat
    }

    pub closed spec fn wf(&self) -> bool {
        let f = self.free@;
        let e = self.entries@;
        &&& self.len <= e.len()
        &&& e.len() <= usize::MAX
        &&& f.len() + self.len == e.len()
        &&& f.no_duplicates()
        &&& forall|i: int| 0 <= i < f.len() ==> #[trigger] f[i] < e.len() && e[f[i] as int].next != OCCUPIED
        &&& forall|k: int| 0 <= k < e.len() && #[trigger] e[k].next != OCCUPIED ==> f.contains(k as usize)
        &&& f.len() > 0 ==> self.next == f[0]
        &&& forall|i: int| 0 <= i < f.len() - 1 ==> #[trigger] e[f[i] as int].next == f[i + 1]
    }

    /// What a well-formed slab keeps: the free list holds exactly the slots
    /// not in use, each once, and the count of slots in use is the number of
    /// slots less the number of free ones.
    pub proof fn lemma_wf(&self)
        requires
            self.wf(),
        ensures
            self.spec_len() + self.free_list().len() == self.slots(),
            self.free_list().no_duplicates(),
            forall|i: int| 0 <= i < self.free_list().len() ==> #[trigger] self.free_list()[i] < self.slots(),
            forall|k: usize| k < self.slots() ==> (!#[trigger] self.occupied(k) <==> self.free_list().contains(k)),
            forall|k: usize| #[trigger] self@.contains_key(k) <==> self.occupied(k),
            forall|k: usize| self.occupied(k) ==> #[trigger] self@[k] == self.value_at(k),
            forall|k: usize| #[trigger] self.occupied(k) ==> k < self.slots(),
    {
        let f = self.free@;
        let e = self.entries@;
        assert forall|k: usize| k < self.slots() implies (!#[trigger] self.occupied(k) <==> self.free_list().contains(k)) by {
            if f.contains(k) {
                let i = choose|i: int| 0 <= i < f.len() && f[i] == k;
                assert(e[f[i] as int].next != OCCUPIED);
            }
            if !self.occupied(k) {
                assert(e[k as int].next != OCCUPIED);
            }
        }
    }

    /// An empty slab.
    pub fn new() -> (s: Self)
        ensures
            s.wf(),
            s.slots() == 0,
            s.spec_len() == 0,
            s.free_list() == Seq::<usize>::empty(),
            s@ == Map::<usize, T>::empty(),
    {
        let s = Slab { entries: Vec::new(), len: 0, next: 0, free: Ghost(Seq::empty()) };
        assert(s@ =~= Map::<usize, T>::empty());
        s
    }

    /// The number of slots in use.
    pub fn len(&self) -> (r: usize)
        ensures
            r == self.spec_len(),
    {
        self.len
    }

    /// The value in slot `key`, which must be in use.
    pub fn get(&self, key: usize) -> (r: &T)
        requires
            self.wf(),
            self.occupied(key),
        ensures
            *r == self.value_at(key),
            *r == self@[key],
    {
        &self.entries[key].t
    }

    /// The value in slot `key`, in use or free.
    pub fn index(&self, key: &usize) -> (r: &T)
        requires
            *key < self.slots(),
        ensures
            *r == self.value_at(*key),
    {
        &self.entries[*key].t
    }

    /// The value in slot `key`, in use or free, for change.
    pub fn index_mut(&mut self, key: &usize) -> (r: &mut T)
        requires
            *key < old(self).slots(),
        ensures
            *r == old(self).value_at(*key),
            old(self).wf() ==> final(self).wf(),
            final(self).slots() == old(self).slots(),
            final(self).spec_len() == old(self).spec_len(),
            final(self).free_list() == old(self).free_list(),
            final(self).value_at(*key) == *final(r),
            forall|k: usize| #[trigger] final(self).occupied(k) == old(self).occupied(k),
            forall|k: usize| k != *key && k < old(self).slots() ==> #[trigger] final(self).value_at(k) == old(self).value_at(k),
            old(self).occupied(*key) ==> final(self)@ == old(self)@.insert(*key, *final(r)),
            !old(self).occupied(*key) ==> final(self)@ == old(self)@,
    {
        &mut self.entries[*key].t
    }

    /// Sets the link field of slot `key`, keeping its value.
    fn set_link(entries: &mut Vec<Entry<T>>, key: usize, v: usize)
        requires
            key < old(entries)@.len(),
        ensures
            final(entries)@.len() == old(entries)@.len(),
            final(entries)@[key as int].next == v,
            final(entries)@[key as int].t == old(entries)@[key as int].t,
            forall|k: int| 0 <= k < old(entries)@.len() && k != key ==> #[trigger] final(entries)@[k] == old(entries)@[k],
    {
        let e = &mut entries[key];
        e.next = v;
    }

    /// Takes a slot into use: the last one freed, or else a new one.
    fn take_slot(&mut self) -> (key: usize)
        requires
            old(self).wf(),
            old(self).slots() < usize::MAX,
        ensures
            final(self).wf(),
            old(self).free_list().len() == 0 ==> {
                &&& key == old(self).slots()
                &&& final(self).slots() == old(self).slots() + 1
                &&& final(self).free_list() == old(self).free_list()
            },
            old(self).free_list().len() > 0 ==> {
                &&& key == old(self).free_list()[0]
                &&& final(self).slots() == old(self).slots()
                &&& final(self).free_list() == old(self).free_list().drop_first()
                &&& final(self).value_at(key) == old(self).value_at(key)
            },
            final(self).spec_len() == old(self).spec_len() + 1,
            final(self).occupied(key),
            forall|k: usize| k != key ==> #[trigger] final(self).occupied(k) == old(self).occupied(k),
            forall|k: usize| k != key && k < old(self).slots() ==> #[trigger] final(self).value_at(k) == old(self).value_at(k),
    {
        proof { self.lemma_wf(); }
        if self.entries.len() == self.len {
            let entry = Entry::new();
            self.entries.push(entry);
            self.len = self.len + 1;
            let key = self.entries.len() - 1;
            proof {
                let f = self.free@;
                let e = self.entries@;
                assert forall|k: int| 0 <= k < e.len() && #[trigger] e[k].next != OCCUPIED implies f.contains(k as usize) by {
                    assert(k < e.len() - 1);
                }
            }
            key
        } else {
            let key = self.next;
            let ghost f = self.free@;
            proof {
                assert(f.len() > 0);
                assert(f[0] < self.entries@.len());
            }
            let nxt = self.entries[key].next;
            Self::set_link(&mut self.entries, key, OCCUPIED);
            self.len = self.len + 1;
            self.next = nxt;
            proof {
                self.free = Ghost(f.drop_first());
                let f2 = self.free@;
                let e2 = self.entries@;
                assert forall|i: int| 0 <= i < f2.len() implies #[trigger] f2[i] < e2.len() && e2[f2[i] as int].next != OCCUPIED by {
                    assert(f2[i] == f[i + 1]);
                    assert(f[i + 1] != f[0]);
                }
                assert forall|k: int| 0 <= k < e2.len() && #[trigger] e2[k].next != OCCUPIED implies f2.contains(k as usize) by {
                    assert(f.contains(k as usize));
                    let i = choose|i: int| 0 <= i < f.len() && f[i] == k as usize;
                    assert(i != 0);
                    assert(f2[i - 1] == k as usize);
                }
                assert forall|i: int| 0 <= i < f2.len() - 1 implies #[trigger] e2[f2[i] as int].next == f2[i + 1] by {
                    assert(f2[i] == f[i + 1]);
                    assert(f[i + 1] != f[0]);
                }
                if f2.len() > 0 {
                    assert(e2[f[0] as int].next == OCCUPIED);
                }
            }
            key
        }
    }

    /// Takes a slot into use and gives its key with its value for change:
    /// the value that slot last held, or the default value in a new slot.
    pub fn get_next_val(&mut self) -> (res: (usize, &mut T))
        requires
            old(self).wf(),
            old(self).slots() < usize::MAX,
        ensures
            final(self).wf(),
            old(self).free_list().len() == 0 ==> {
                &&& res.0 == old(self).slots()
                &&& final(self).slots() == old(self).slots() + 1
                &&& final(self).free_list() == old(self).free_list()
            },
            old(self).free_list().len() > 0 ==> {
                &&& res.0 == old(self).free_list()[0]
                &&& final(self).slots() == old(self).slots()
                &&& final(self).free_list() == old(self).free_list().drop_first()
                &&& *res.1 == old(self).value_at(res.0)
            },
            final(self).spec_len() == old(self).spec_len() + 1,
            final(self)@ == old(self)@.insert(res.0, *final(res.1)),
            final(self).value_at(res.0) == *final(res.1),
            forall|k: usize| k != res.0 ==> #[trigger] final(self).occupied(k) == old(self).occupied(k),
            forall|k: usize| k != res.0 && k < old(self).slots() ==> #[trigger] final(self).value_at(k) == old(self).value_at(k),
    {
        let key = self.take_slot();
        let r = self.index_mut(&key);
        (key, r)
    }

    /// Takes a slot into use and gives its key: the last slot freed, with the
    /// value it had, or else a new slot holding the default value.
    pub fn get_next(&mut self) -> (key: usize)
        requires
            old(self).wf(),
            old(self).slots() < usize::MAX,
        ensures
            final(self).wf(),
            old(self).free_list().len() == 0 ==> {
                &&& key == old(self).slots()
                &&& final(self).slots() == old(self).slots() + 1
                &&& final(self).free_list() == old(self).free_list()
            },
            old(self).free_list().len() > 0 ==> {
                &&& key == old(self).free_list()[0]
                &&& final(self).slots() == old(self).slots()
                &&& final(self).free_list() == old(self).free_list().drop_first()
                &&& final(self)@ == old(self)@.insert(key, old(self).value_at(key))
            },
            final(self).spec_len() == old(self).spec_len() + 1,
            final(self).occupied(key),
            final(self)@ == old(self)@.insert(key, final(self).value_at(key)),
    {
        let key = self.take_slot();
        proof {
            assert(final(self)@ =~= old(self)@.insert(key, final(self).value_at(key)));
        }
        key
    }

    /// Stores `val` in a slot taken into use, and gives that slot's key.
    pub fn insert(&mut self, val: T) -> (key: usize)
        requires
            old(self).wf(),
            old(self).slots() < usize::MAX,
        ensures
            final(self).wf(),
            old(self).free_list().len() == 0 ==> key == old(self).slots() && final(self).free_list() == old(self).free_list(),
            old(self).free_list().len() > 0 ==> key == old(self).free_list()[0] && final(self).free_list() == old(self).free_list().drop_first(),
            final(self).spec_len() == old(self).spec_len() + 1,
            !old(self)@.contains_key(key),
            final(self)@ == old(self)@.insert(key, val),
    {
        proof {
            old(self).lemma_wf();
            if old(self).free_list().len() > 0 {
                assert(old(self).free_list().contains(old(self).free_list()[0]));
            }
        }
        let mut val = val;
        let (key, value) = self.get_next_val();
        std::mem::swap(value, &mut val);
        key
    }

    /// Frees slot `key`, which must be in use; its value stays for reuse.
    pub fn remove(&mut self, key: usize)
        requires
            old(self).wf(),
            old(self).occupied(key),
        ensures
            final(self).wf(),
            final(self).slots() == old(self).slots(),
            final(self).free_list() == seq![key] + old(self).free_list(),
            final(self).spec_len() == old(self).spec_len() - 1,
            final(self)@ == old(self)@.remove(key),
            forall|k: usize| #[trigger] final(self).occupied(k) == (old(self).occupied(k) && k != key),
            forall|k: usize| k < old(self).slots() ==> #[trigger] final(self).value_at(k) == old(self).value_at(k),
    {
        let ok = self.try_remove(key);
    }

    /// Putting the slot `key`, in use in `a`, at the front of the free list
    /// gives the well-formed `b`.
    proof fn lemma_push_free(a: &Self, b: &Self, key: usize)
        requires
            a.wf(),
            a.occupied(key),
            b.entries@.len() == a.entries@.len(),
            b.free@ == seq![key] + a.free@,
            b.len == a.len - 1,
            b.next == key,
            b.entries@[key as int].t == a.entries@[key as int].t,
            b.entries@[key as int].next != OCCUPIED,
            a.free@.len() > 0 ==> b.entries@[key as int].next == a.free@[0],
            forall|k: int| 0 <= k < a.entries@.len() && k != key ==> #[trigger] b.entries@[k] == a.entries@[k],
        ensures
            b.wf(),
            b@ == a@.remove(key),
            forall|k: usize| #[trigger] b.occupied(k) == (a.occupied(k) && k != key),
            forall|k: usize| k < a.slots() ==> #[trigger] b.value_at(k) == a.value_at(k),
    {
        a.lemma_wf();
        let f = a.free@;
        let f2 = b.free@;
        let e2 = b.entries@;
        assert(!f.contains(key));
        assert forall|i: int| 0 <= i < f2.len() implies #[trigger] f2[i] < e2.len() && e2[f2[i] as int].next != OCCUPIED by {
            if i > 0 {
                assert(f2[i] == f[i - 1]);
            }
        }
        assert(f2.no_duplicates()) by {
            assert forall|x: int, y: int| 0 <= x < y < f2.len() implies f2[x] != f2[y] by {
                if x > 0 {
                    assert(f2[x] == f[x - 1]);
                }
                assert(f2[y] == f[y - 1]);
            }
        }
        assert forall|k: int| 0 <= k < e2.len() && #[trigger] e2[k].next != OCCUPIED implies f2.contains(k as usize) by {
            if k != key {
                assert(f.contains(k as usize));
                let i = choose|i: int| 0 <= i < f.len() && f[i] == k as usize;
                assert(f2[i + 1] == k as usize);
            } else {
                assert(f2[0] == key);
            }
        }
        assert forall|i: int| 0 <= i < f2.len() - 1 implies #[trigger] e2[f2[i] as int].next == f2[i + 1] by {
            if i > 0 {
                assert(f2[i] == f[i - 1]);
                assert(f[i - 1] != key);
            }
        }
        assert(b@ =~= a@.remove(key));
    }

    /// Frees slot `key` if it is in use, and says whether it was.
    #[verifier::spinoff_prover]
    pub fn try_remove(&mut self, key: usize) -> (r: bool)
        requires
            old(self).wf(),
            key < old(self).slots(),
        ensures
            final(self).wf(),
            r == old(self).occupied(key),
            !r ==> *final(self) == *old(self),
            r ==> {
                &&& final(self).slots() == old(self).slots()
                &&& final(self).free_list() == seq![key] + old(self).free_list()
                &&& final(self).spec_len() == old(self).spec_len() - 1
                &&& final(self)@ == old(self)@.remove(key)
                &&& forall|k: usize| #[trigger] final(self).occupied(k) == (old(self).occupied(k) && k != key)
                &&& forall|k: usize| k < old(self).slots() ==> #[trigger] final(self).value_at(k) == old(self).value_at(k)
            },
    {
        if self.entries[key].next != OCCUPIED {
            return false;
        }
        let ghost f = self.free@;
        proof {
            if self.len == 0 {
                lemma_full_cover(f, self.entries@.len(), key);
                let i = choose|i: int| 0 <= i < f.len() && f[i] == key;
                assert(self.entries@[f[i] as int].next != OCCUPIED);
            }
        }
        let ghost before = *self;
        let nxt = self.next;
        let lnk = if nxt == OCCUPIED { 0 } else { nxt };
        proof {
            if f.len() > 0 {
                assert(f[0] < self.entries@.len());
            }
        }
        Self::set_link(&mut self.entries, key, lnk);
        self.len = self.len - 1;
        self.next = key;
        proof {
            self.free = Ghost(seq![key] + f);
            Self::lemma_push_free(&before, self, key);
        }
        true
    }

    /// Whether slot `k` exists and is in use.
    pub fn contains_key(&self, k: usize) -> (r: bool)
        requires
            self.wf(),
        ensures
            r == self@.contains_key(k),
    {
        proof { self.lemma_wf(); }
        if k >= self.entries.len() {
            return false;
        }
        self.entries[k].is_occupied()
    }

    /// The slots in use with their values, by ascending key.
    pub fn iter(&self) -> (res: Vec<(usize, &T)>)
        requires
            self.wf(),
        ensures
            forall|i: int| 0 <= i < res@.len() ==> self.occupied(#[trigger] res@[i].0) && *res@[i].1 == self.value_at(res@[i].0),
            forall|i: int, j: int| 0 <= i < j < res@.len() ==> #[trigger] res@[i].0 < #[trigger] res@[j].0,
            forall|k: usize| #[trigger] self.occupied(k) ==> exists|i: int| 0 <= i < res@.len() && res@[i].0 == k,
    {
        let mut res: Vec<(usize, &T)> = Vec::new();
        let mut i: usize = 0;
        while i < self.entries.len()
            invariant
                i <= self.entries@.len(),
                forall|m: int| 0 <= m < res@.len() ==> self.occupied(#[trigger] res@[m].0) && *res@[m].1 == self.value_at(res@[m].0) && res@[m].0 < i,
                forall|a: int, b: int| 0 <= a < b < res@.len() ==> #[trigger] res@[a].0 < #[trigger] res@[b].0,
                forall|k: usize| k < i && #[trigger] self.occupied(k) ==> exists|m: int| 0 <= m < res@.len() && res@[m].0 == k,
            decreases self.entries@.len() - i,
        {
            let e = &self.entries[i];
            let ghost before = res@;
            if e.is_occupied() {
                res.push((i, &e.t));
                proof {
                    assert(self.occupied(i));
                    assert(res@[res@.len() - 1].0 == i);
                    assert(*res@[res@.len() - 1].1 == self.value_at(i));
                }
            }
            proof {
                assert forall|k: usize| k < i + 1 && #[trigger] self.occupied(k) implies exists|m: int| 0 <= m < res@.len() && res@[m].0 == k by {
                    if k == i {
                        assert(res@[res@.len() - 1].0 == k);
                    } else {
                        let m = choose|m: int| 0 <= m < before.len() && before[m].0 == k;
                        assert(res@[m] == before[m]);
                    }
                }
            }
            i = i + 1;
        }
        res
    }

    /// The values of the slots in use among the first `n`, by ascending key.
    pub closed spec fn used_prefix(&self, n: int) -> Seq<T>
        decreases n,
    {
        if n <= 0 {
            Seq::empty()
        } else if self.entries@[n - 1].next == OCCUPIED {
            self.used_prefix(n - 1).push(self.entries@[n - 1].t)
        } else {
            self.used_prefix(n - 1)
        }
    }

    /// The values of the slots in use, by ascending key.
    pub open spec fn used_values(&self) -> Seq<T> {
        self.used_prefix(self.slots() as int)
    }

    /// Takes out the values of all slots in use, by ascending key, and leaves
    /// the slab empty.
    pub fn drain(&mut self) -> (res: Vec<T>)
        requires
            old(self).wf(),
        ensures
            final(self).wf(),
            final(self).slots() == 0,
            final(self).spec_len() == 0,
            final(self)@ == Map::<usize, T>::empty(),
            res@ == old(self).used_values(),
    {
        let ghost before = *self;
        let mut entries: Vec<Entry<T>> = Vec::new();
        std::mem::swap(&mut entries, &mut self.entries);
        let ghost e0 = entries@;
        self.len = 0;
        self.next = 0;
        self.free = Ghost(Seq::empty());
        let mut res: Vec<T> = Vec::new();
        let mut i: usize = 0;
        while i < entries.len()
            invariant
                i <= entries@.len(),
                entries@.len() == e0.len(),
                e0 == before.entries@,
                forall|k: int| i <= k < e0.len() ==> #[trigger] entries@[k] == e0[k],
                res@ == before.used_prefix(i as int),
            decreases e0.len() - i,
        {
            if entries[i].is_occupied() {
                let mut d = Entry { t: T::default(), next: OCCUPIED };
                std::mem::swap(&mut d, &mut entries[i]);
                res.push(d.t);
            }
            i = i + 1;
        }
        proof {
            assert(self@ =~= Map::<usize, T>::empty());
        }
        res
    }

    /// Keeps the slots in use whose key and value `f` answers `true` for,
    /// and frees the others.
    pub fn retain<F>(&mut self, f: F)
        where
            F: Fn(usize, &T) -> bool,
        requires
            old(self).wf(),
            forall|k: usize, v: &T| #[trigger] f.requires((k, v)),
        ensures
            final(self).wf(),
            final(self).slots() == old(self).slots(),
            forall|k: usize| k < old(self).slots() ==> #[trigger] final(self).value_at(k) == old(self).value_at(k),
            forall|k: usize| #[trigger] final(self).occupied(k) ==> old(self).occupied(k),
            forall|k: usize| #[trigger] old(self).occupied(k) ==> {
                &&& final(self).occupied(k) ==> f.ensures((k, &old(self).value_at(k)), true)
                &&& !final(self).occupied(k) ==> f.ensures((k, &old(self).value_at(k)), false)
            },
    {
        let mut i: usize = 0;
        while i < self.entries.len()
            invariant
                self.wf(),
                i <= self.slots(),
                self.slots() == old(self).slots(),
                forall|k: usize, v: &T| #[trigger] f.requires((k, v)),
                forall|k: usize| k < old(self).slots() ==> #[trigger] self.value_at(k) == old(self).value_at(k),
                forall|k: usize| #[trigger] self.occupied(k) ==> old(self).occupied(k),
                forall|k: usize| k >= i ==> #[trigger] self.occupied(k) == old(self).occupied(k),
                forall|k: usize| k < i && #[trigger] old(self).occupied(k) ==> {
                    &&& self.occupied(k) ==> f.ensures((k, &old(self).value_at(k)), true)
                    &&& !self.occupied(k) ==> f.ensures((k, &old(self).value_at(k)), false)
                },
            decreases old(self).slots() - i,
        {
            if self.entries[i].is_occupied() {
                let keep = f(i, &self.entries[i].t);
                proof {
                    assert(self.occupied(i));
                    assert(old(self).occupied(i));
                    assert(self.value_at(i) == old(self).value_at(i));
                }
                if !keep {
                    self.remove(i);
                }
                proof {
                    assert(self.occupied(i) == keep);
                }
            }
            i = i + 1;
        }
    }

    /// The slot freed last is the next one handed out: once `remove(k)` has
    /// put `k` in front of the free list, `get_next()` gives `k`.
    pub proof fn law_get_next_reuses_removed(&self, k: usize)
        requires
            self.wf(),
            self.free_list().len() > 0,
            self.free_list()[0] == k,
        ensures
            !self.occupied(k),
            k < self.slots(),
    {
        self.lemma_wf();
        assert(self.free_list().contains(k));
    }
}

impl<T: Default + Reinit> Slab<T> {
    /// Takes a slot into use as `get_next` does, and puts its value back
    /// into a blank state.
    pub fn get_reinit_next(&mut self) -> (key: usize)
        requires
            old(self).wf(),
            old(self).slots() < usize::MAX,
        ensures
            final(self).wf(),
            old(self).free_list().len() == 0 ==> key == old(self).slots() && final(self).free_list() == old(self).free_list(),
            old(self).free_list().len() > 0 ==> key == old(self).free_list()[0] && final(self).free_list() == old(self).free_list().drop_first(),
            final(self).spec_len() == old(self).spec_len() + 1,
            final(self).occupied(key),
            final(self)@ == old(self)@.insert(key, final(self).value_at(key)),
            final(self).value_at(key).is_blank(),
    {
        let (key, v) = self.get_next_val();
        v.reinit();
        key
    }

    /// Takes a slot into use as `get_next` does, puts its value back into a
    /// blank state, and gives it for change.
    pub fn get_reinit_next_val(&mut self) -> (res: (usize, &mut T))
        requires
            old(self).wf(),
            old(self).slots() < usize::MAX,
        ensures
            final(self).wf(),
            old(self).free_list().len() == 0 ==> res.0 == old(self).slots() && final(self).free_list() == old(self).free_list(),
            old(self).free_list().len() > 0 ==> res.0 == old(self).free_list()[0] && final(self).free_list() == old(self).free_list().drop_first(),
            final(self).spec_len() == old(self).spec_len() + 1,
            final(self)@ == old(self)@.insert(res.0, *final(res.1)),
            (*res.1).is_blank(),
    {
        let key = self.get_reinit_next();
        proof {
            assert forall|v: T| #[trigger] self@.insert(key, v) == old(self)@.insert(key, v) by {
                assert(self@.insert(key, v) =~= old(self)@.insert(key, self.value_at(key)).insert(key, v));
                assert(old(self)@.insert(key, v) =~= old(self)@.insert(key, self.value_at(key)).insert(key, v));
            }
        }
        let r = self.index_mut(&key);
        (key, r)
    }
}

} // verus!
