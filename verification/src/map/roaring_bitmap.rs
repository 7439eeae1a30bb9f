use std::collections::{HashMap, HashSet};
use vstd::prelude::*;

use crate::map::text::{render_set, set_text};

use super::bitmap::lemma_card_below;

verus! {

broadcast use vstd::std_specs::hash::group_hash_axioms;

/// Numbers per container: a container holds the low 16 bits of the numbers
/// that share their high bits.
pub const TAIL_NUM: usize = 0x10000;

/// Size from which a sorted-array container becomes a hash container.
pub const ARRAY_LIMIT: usize = 4096;

/// Whether `v` is strictly increasing.
pub open spec fn strictly_sorted(v: Seq<u16>) -> bool {
    forall|a: int, b: int| 0 <= a < b < v.len() ==> v[a] < v[b]
}

/// Finds `val` in the strictly increasing `v`: `Ok` with its position, or
/// `Err` with the position where it would be inserted.
fn search(v: &Vec<u16>, val: u16) -> (res: Result<usize, usize>)
    requires
        strictly_sorted(v@),
    ensures
        res matches Ok(i) ==> i < v@.len() && v@[i as int] == val,
        res matches Err(i) ==> i <= v@.len() && (forall|a: int| 0 <= a < i ==> v@[a] < val) && (forall|
            a: int,
        | i <= a < v@.len() ==> v@[a] > val),
{
    let mut lo: usize = 0;
    let mut hi: usize = v.len();
    while lo < hi
        invariant
            lo <= hi <= v@.len(),
            strictly_sorted(v@),
            forall|a: int| 0 <= a < lo ==> v@[a] < val,
            forall|a: int| hi <= a < v@.len() ==> v@[a] > val,
        decreases hi - lo,
    {
        let mid = lo + (hi - lo) / 2;
        if v[mid] == val {
            return Ok(mid);
        } else if v[mid] < val {
            lo = mid + 1;
        } else {
            hi = mid;
        }
    }
    Err(lo)
}

/// The low 16 bits of the numbers of one high part: a sorted array while
/// small, a hash set once large.
pub enum TailContainer {
    Array(Vec<u16>),
    Hash(HashSet<u16>),
}

impl View for TailContainer {
    type V = Set<u16>;

    /// The low parts held.
    open spec fn view(&self) -> Set<u16> {
        match self {
            TailContainer::Array(v) => v@.to_set(),
            TailContainer::Hash(h) => h@,
        }
    }
}

impl TailContainer {
    /// Internal consistency: an array is strictly increasing.
    pub open spec fn wf(&self) -> bool {
        match self {
            TailContainer::Array(v) => strictly_sorted(v@),
            TailContainer::Hash(_) => true,
        }
    }

    /// Whether this is a sorted array of at least `ARRAY_LIMIT` elements,
    /// which `try_move` turns into a hash set.
    pub open spec fn is_large_array(&self) -> bool {
        match self {
            TailContainer::Array(v) => v@.len() >= ARRAY_LIMIT,
            TailContainer::Hash(_) => false,
        }
    }

    /// An empty container: an empty sorted array.
    pub fn new() -> (res: Self)
        ensures
            res.wf(),
            res@ == Set::<u16>::empty(),
            res matches TailContainer::Array(v) && v@.len() == 0,
    {
        let res = TailContainer::Array(Vec::new());
        proof {
            assert(res@ =~= Set::<u16>::empty());
        }
        res
    }

    /// Turns a large array into a hash set with the same elements; leaves
    /// any other container as it is.
    pub fn try_move(&mut self)
        requires
            old(self).wf(),
        ensures
            final(self).wf(),
            final(self)@ == old(self)@,
            old(self).is_large_array() ==> *final(self) is Hash,
            !old(self).is_large_array() ==> *final(self) == *old(self),
    {
        let vals = match self {
            TailContainer::Array(v) => {
                if v.len() < ARRAY_LIMIT {
                    return;
                }
                let mut h: HashSet<u16> = HashSet::new();
                let mut i: usize = 0;
                while i < v.len()
                    invariant
                        i <= v@.len(),
                        forall|x: u16| #[trigger] h@.contains(x) <==> exists|j: int| 0 <= j < i && v@[j] == x,
                    decreases v@.len() - i,
                {
                    let ghost before = h@;
                    h.insert(v[i]);
                    proof {
                        assert forall|x: u16| #[trigger] h@.contains(x) <==> exists|j: int| 0 <= j < i + 1 && v@[j] == x by {
                            if x == v@[i as int] {
                                assert(v@[i as int] == x);
                            }
                            if exists|j: int| 0 <= j < i + 1 && v@[j] == x {
                                let j = choose|j: int| 0 <= j < i + 1 && v@[j] == x;
                                if j < i {
                                    assert(before.contains(x));
                                }
                            }
                        }
                    }
                    i = i + 1;
                }
                proof {
                    assert(h@ =~= v@.to_set());
                }
                h
            },
            TailContainer::Hash(_) => {
                return;
            },
        };
        *self = TailContainer::Hash(vals);
    }

    /// Adds `val`; gives whether it was new.
    pub fn add(&mut self, val: u16) -> (res: bool)
        requires
            old(self).wf(),
        ensures
            final(self).wf(),
            final(self)@ == old(self)@.insert(val),
            res == !old(self)@.contains(val),
            (*final(self) is Hash) == (*old(self) is Hash || old(self).is_large_array()),
    {
        self.try_move();
        match self {
            TailContainer::Array(v) => {
                match search(v, val) {
                    Err(s) => {
                        let ghost old_v = v@;
                        v.insert(s, val);
                        proof {
                            assert(!old_v.contains(val));
                            assert forall|a: int, b: int| 0 <= a < b < v@.len() implies v@[a] < v@[b] by {
                                if b < s {
                                } else if a < s {
                                    assert(v@[a] == old_v[a]);
                                    if b > s {
                                        assert(v@[b] == old_v[b - 1]);
                                    }
                                } else if a == s {
                                    assert(v@[b] == old_v[b - 1]);
                                } else {
                                    assert(v@[a] == old_v[a - 1]);
                                    assert(v@[b] == old_v[b - 1]);
                                }
                            }
                            assert forall|x: u16| #[trigger] v@.contains(x) <==> (old_v.contains(x) || x == val) by {
                                if v@.contains(x) {
                                    let k = choose|k: int| 0 <= k < v@.len() && v@[k] == x;
                                    if k < s {
                                        assert(old_v[k] == x);
                                    } else if k > s {
                                        assert(old_v[k - 1] == x);
                                    }
                                }
                                if old_v.contains(x) {
                                    let k = choose|k: int| 0 <= k < old_v.len() && old_v[k] == x;
                                    if k < s {
                                        assert(v@[k] == x);
                                    } else {
                                        assert(v@[k + 1] == x);
                                    }
                                }
                                if x == val {
                                    assert(v@[s as int] == x);
                                }
                            }
                            assert(v@.to_set() =~= old_v.to_set().insert(val));
                        }
                        true
                    },
                    Ok(i) => {
                        proof {
                            assert(v@.to_set().contains(val));
                            assert(v@.to_set().insert(val) =~= v@.to_set());
                        }
                        false
                    },
                }
            },
            TailContainer::Hash(h) => h.insert(val),
        }
    }

    /// Removes `val`; gives whether it was there.
    pub fn remove(&mut self, val: u16) -> (res: bool)
        requires
            old(self).wf(),
        ensures
            final(self).wf(),
            final(self)@ == old(self)@.remove(val),
            res == old(self)@.contains(val),
    {
        match self {
            TailContainer::Array(v) => {
                match search(v, val) {
                    Ok(s) => {
                        let ghost old_v = v@;
                        v.remove(s);
                        proof {
                            assert forall|a: int, b: int| 0 <= a < b < v@.len() implies v@[a] < v@[b] by {
                                let a2 = if a < s { a } else { a + 1 };
                                let b2 = if b < s { b } else { b + 1 };
                                assert(v@[a] == old_v[a2]);
                                assert(v@[b] == old_v[b2]);
                            }
                            assert forall|x: u16| #[trigger] v@.contains(x) <==> (old_v.contains(x) && x != val) by {
                                if v@.contains(x) {
                                    let k = choose|k: int| 0 <= k < v@.len() && v@[k] == x;
                                    if k < s {
                                        assert(old_v[k] == x);
                                        assert(x < val);
                                    } else {
                                        assert(old_v[k + 1] == x);
                                        assert(x > val);
                                    }
                                }
                                if old_v.contains(x) && x != val {
                                    let k = choose|k: int| 0 <= k < old_v.len() && old_v[k] == x;
                                    if k < s {
                                        assert(v@[k] == x);
                                    } else {
                                        assert(k != s);
                                        assert(v@[k - 1] == x);
                                    }
                                }
                            }
                            assert(old_v[s as int] == val);
                            assert(v@.to_set() =~= old_v.to_set().remove(val));
                        }
                        true
                    },
                    Err(_) => {
                        proof {
                            assert(!v@.contains(val));
                            assert(v@.to_set().remove(val) =~= v@.to_set());
                        }
                        false
                    },
                }
            },
            TailContainer::Hash(h) => h.remove(&val),
        }
    }

    /// Whether `val` is held.
    pub fn contains(&self, val: u16) -> (res: bool)
        requires
            self.wf(),
        ensures
            res == self@.contains(val),
    {
        match self {
            TailContainer::Array(v) => {
                match search(v, val) {
                    Ok(_) => true,
                    Err(_) => false,
                }
            },
            TailContainer::Hash(h) => h.contains(&val),
        }
    }

    /// The smallest element at least `val`.
    pub fn next(&self, val: u16) -> (res: Option<u16>)
        requires
            self.wf(),
        ensures
            res matches Some(x) ==> self@.contains(x) && x >= val && forall|y: u16| #[trigger] self@.contains(y) && y >= val ==> y >= x,
            res is None ==> forall|y: u16| #[trigger] self@.contains(y) ==> y < val,
    {
        match self {
            TailContainer::Array(v) => {
                match search(v, val) {
                    Ok(s) => {
                        proof {
                            assert(v@.contains(v@[s as int]));
                        }
                        Some(v[s])
                    },
                    Err(s) => {
                        if s == v.len() {
                            return None;
                        }
                        proof {
                            assert(v@.contains(v@[s as int]));
                            assert forall|y: u16| #[trigger] self@.contains(y) && y >= val implies y >= v@[s as int] by {
                                let k = choose|k: int| 0 <= k < v@.len() && v@[k] == y;
                                if k < s {
                                    assert(v@[k] < val);
                                } else if k > s {
                                    assert(v@[s as int] < v@[k]);
                                }
                            }
                        }
                        Some(v[s])
                    },
                }
            },
            TailContainer::Hash(h) => {
                let mut i: u32 = val as u32;
                while i <= 65535
                    invariant
                        val <= i <= 65536,
                        self@ == h@,
                        forall|y: u16| #[trigger] h@.contains(y) && val <= y ==> y >= i,
                    decreases 65536 - i,
                {
                    let x = i as u16;
                    proof {
                        assert(x == i);
                    }
                    if h.contains(&x) {
                        return Some(x);
                    }
                    i = i + 1;
                }
                None
            },
        }
    }

    /// The largest element at most `val`.
    pub fn next_back(&self, val: u16) -> (res: Option<u16>)
        requires
            self.wf(),
        ensures
            res matches Some(x) ==> self@.contains(x) && x <= val && forall|y: u16| #[trigger] self@.contains(y) && y <= val ==> y <= x,
            res is None ==> forall|y: u16| #[trigger] self@.contains(y) ==> y > val,
    {
        match self {
            TailContainer::Array(v) => {
                match search(v, val) {
                    Ok(s) => {
                        proof {
                            assert(v@.contains(v@[s as int]));
                        }
                        Some(v[s])
                    },
                    Err(s) => {
                        if s == 0 {
                            return None;
                        }
                        proof {
                            assert(v@.contains(v@[s - 1]));
                            assert forall|y: u16| #[trigger] self@.contains(y) && y <= val implies y <= v@[s - 1] by {
                                let k = choose|k: int| 0 <= k < v@.len() && v@[k] == y;
                                if k >= s {
                                    assert(v@[k] > val);
                                } else if k < s - 1 {
                                    assert(v@[k] < v@[s - 1]);
                                }
                            }
                        }
                        Some(v[s - 1])
                    },
                }
            },
            TailContainer::Hash(h) => {
                let mut i: u32 = val as u32 + 1;
                while i > 0
                    invariant
                        0 <= i <= val + 1,
                        self@ == h@,
                        forall|y: u16| #[trigger] h@.contains(y) && y <= val ==> y < i,
                    decreases i,
                {
                    let x = (i - 1) as u16;
                    proof {
                        assert(x == i - 1);
                    }
                    if h.contains(&x) {
                        return Some(x);
                    }
                    i = i - 1;
                }
                None
            },
        }
    }

    /// The elements in increasing order.
    pub fn sorted(&self) -> (res: Vec<u16>)
        requires
            self.wf(),
        ensures
            strictly_sorted(res@),
            forall|x: u16| #[trigger] res@.contains(x) <==> self@.contains(x),
    {
        match self {
            TailContainer::Array(v) => {
                let mut res: Vec<u16> = Vec::new();
                let mut i: usize = 0;
                while i < v.len()
                    invariant
                        i <= v@.len(),
                        res@ == v@.subrange(0, i as int),
                    decreases v@.len() - i,
                {
                    res.push(v[i]);
                    i = i + 1;
                    proof {
                        assert(res@ =~= v@.subrange(0, i as int));
                    }
                }
                proof {
                    assert(res@ =~= v@);
                }
                res
            },
            TailContainer::Hash(h) => {
                let mut res: Vec<u16> = Vec::new();
                let mut i: u32 = 0;
                while i <= 65535
                    invariant
                        i <= 65536,
                        self@ == h@,
                        strictly_sorted(res@),
                        forall|a: int| 0 <= a < res@.len() ==> (#[trigger] res@[a]) < i,
                        forall|x: u16| #[trigger] res@.contains(x) <==> (h@.contains(x) && x < i),
                    decreases 65536 - i,
                {
                    let x = i as u16;
                    if h.contains(&x) {
                        let ghost old_res = res@;
                        res.push(x);
                        proof {
                            assert forall|y: u16| #[trigger] res@.contains(y) <==> (h@.contains(y) && y < i + 1) by {
                                if res@.contains(y) {
                                    let k = choose|k: int| 0 <= k < res@.len() && res@[k] == y;
                                    if k < old_res.len() {
                                        assert(old_res[k] == y);
                                        assert(old_res.contains(y));
                                    }
                                }
                                if h@.contains(y) && y < i + 1 {
                                    if y == x {
                                        assert(res@[old_res.len() as int] == y);
                                    } else {
                                        assert(old_res.contains(y));
                                        let k = choose|k: int| 0 <= k < old_res.len() && old_res[k] == y;
                                        assert(res@[k] == y);
                                    }
                                }
                            }
                        }
                    }
                    i = i + 1;
                }
                res
            },
        }
    }
}

/// The high part of `v`: which container holds it.
pub open spec fn head_of(v: usize) -> usize {
    v / TAIL_NUM
}

/// The low 16 bits of `v`, kept in its container.
pub open spec fn tail_of(v: usize) -> u16 {
    (v % TAIL_NUM) as u16
}

proof fn lemma_join(h: usize, t: u16)
    requires
        h * TAIL_NUM + t <= usize::MAX,
    ensures
        head_of((h * TAIL_NUM + t) as usize) == h,
        tail_of((h * TAIL_NUM + t) as usize) == t,
{
    let v = h * 0x10000 + t;
    assert(v / 0x10000 == h && v % 0x10000 == t) by (nonlinear_arith)
        requires
            v == h * 0x10000 + t,
            0 <= t < 0x10000,
            h >= 0,
    ;
}

proof fn lemma_split(a: usize, b: usize)
    ensures
        (head_of(a) == head_of(b) && tail_of(a) == tail_of(b)) <==> a == b,
        head_of(a) * TAIL_NUM + tail_of(a) == a,
{
    assert(a % 0x10000 < 0x10000 && b % 0x10000 < 0x10000);
    assert(tail_of(a) == a % 0x10000);
    assert(tail_of(b) == b % 0x10000);
    assert(a == (a / 0x10000) * 0x10000 + a % 0x10000) by (nonlinear_arith);
    assert(b == (b / 0x10000) * 0x10000 + b % 0x10000) by (nonlinear_arith);
}

/// A set of numbers kept as containers of their low 16 bits, one per high
/// part, so that sparse sets stay small.
pub struct RoaringBitMap {
    map: HashMap<usize, TailContainer>,
    len: usize,
    max_key: usize,
}

impl View for RoaringBitMap {
    type V = Set<usize>;

    /// The numbers in the set.
    closed spec fn view(&self) -> Set<usize> {
        Set::new(|v: usize| self.has(v))
    }
}

impl RoaringBitMap {
    closed spec fn has(&self, v: usize) -> bool {
        &&& self.map@.contains_key(head_of(v))
        &&& self.map@[head_of(v)]@.contains(tail_of(v))
    }

    /// Largest number ever added (0 at first); no number in the set is
    /// larger.
    pub closed spec fn spec_max_key(&self) -> usize {
        self.max_key
    }

    /// Internal consistency.
    pub closed spec fn wf(&self) -> bool {
        &&& forall|h: usize| #[trigger] self.map@.contains_key(h) ==> self.map@[h].wf()
        &&& self.len == self@.len()
        &&& forall|v: usize| #[trigger] self.has(v) ==> v <= self.max_key
        &&& forall|h: usize, t: u16| #[trigger] self.map@.contains_key(h) && #[trigger] self.map@[h]@.contains(t)
            ==> h * TAIL_NUM + t <= self.max_key
    }

    /// Facts of every well-formed map.
    pub proof fn lemma_wf(&self)
        requires
            self.wf(),
        ensures
            self@.finite(),
            forall|v: usize| #[trigger] self@.contains(v) ==> v <= self.spec_max_key(),
    {
        lemma_card_below(self@, (usize::MAX + 1) as nat);
    }

    /// An empty set.
    pub fn new() -> (res: Self)
        ensures
            res.wf(),
            res@ == Set::<usize>::empty(),
            res.spec_max_key() == 0,
    {
        let res = RoaringBitMap { map: HashMap::new(), len: 0, max_key: 0 };
        proof {
            assert(res@ =~= Set::<usize>::empty());
        }
        res
    }

    /// Number of numbers in the set.
    pub fn len(&self) -> (res: usize)
        requires
            self.wf(),
        ensures
            res == self@.len(),
    {
        self.len
    }

    /// Whether the set is empty.
    pub fn is_empty(&self) -> (res: bool)
        requires
            self.wf(),
        ensures
            res == (self@.len() == 0),
    {
        self.len == 0
    }

    /// Removes every number.
    pub fn clear(&mut self)
        requires
            old(self).wf(),
        ensures
            final(self).wf(),
            final(self)@ == Set::<usize>::empty(),
            final(self).spec_max_key() == old(self).spec_max_key(),
    {
        self.map.clear();
        self.len = 0;
        proof {
            assert(self@ =~= Set::<usize>::empty());
        }
    }

    /// Whether `val` is in the set.
    pub fn contains(&self, val: &usize) -> (res: bool)
        requires
            self.wf(),
        ensures
            res == self@.contains(*val),
    {
        let head = *val / TAIL_NUM;
        let tail = (*val % TAIL_NUM) as u16;
        match self.map.get(&head) {
            Some(c) => c.contains(tail),
            None => false,
        }
    }

    /// Adds `val` to the set.
    pub fn add(&mut self, val: usize)
        requires
            old(self).wf(),
            old(self)@.len() < usize::MAX,
        ensures
            final(self).wf(),
            final(self)@ == old(self)@.insert(val),
            final(self)@.len() == old(self)@.len() + if old(self)@.contains(val) { 0int } else { 1int },
            final(self).spec_max_key() == if !old(self)@.contains(val) && val > old(self).spec_max_key() {
                val
            } else {
                old(self).spec_max_key()
            },
    {
        proof {
            self.lemma_wf();
        }
        let head = val / TAIL_NUM;
        let tail = (val % TAIL_NUM) as u16;
        let ghost old_view = self@;
        let mut c = match self.map.remove(&head) {
            Some(c) => c,
            None => TailContainer::new(),
        };
        let added = c.add(tail);
        if added {
            proof {
                lemma_card_below(old_view.insert(val), (usize::MAX + 1) as nat);
                vstd::set::axiom_set_insert_len(old_view, val);
            }
            self.len = self.len + 1;
            if val > self.max_key {
                self.max_key = val;
            }
        }
        self.map.insert(head, c);
        proof {
            assert(head == head_of(val) && tail == tail_of(val));
            assert forall|v: usize| #[trigger] self.has(v) == (v == val || old(self).has(v)) by {
                lemma_split(v, val);
            }
            assert(self@ =~= old_view.insert(val));
            assert(added == !old_view.contains(val));
            assert forall|v: usize| #[trigger] self.has(v) implies v <= self.max_key by {
                if v != val {
                    assert(old(self).has(v));
                } else if !added {
                    assert(old(self).has(v));
                }
            }
            assert forall|h: usize| #[trigger] self.map@.contains_key(h) implies self.map@[h].wf() by {
                if h != head {
                    assert(old(self).map@.contains_key(h));
                }
            }
            assert forall|h: usize, t: u16| #[trigger] self.map@.contains_key(h) && #[trigger] self.map@[h]@.contains(t)
                implies h * TAIL_NUM + t <= self.max_key by {
                lemma_split(val, val);
                if h == head && t == tail {
                } else if h == head {
                    assert(old(self).map@.contains_key(h) && old(self).map@[h]@.contains(t));
                } else {
                    assert(old(self).map@.contains_key(h));
                }
            }
        }
    }

    /// Removes `val` from the set; gives whether it was there.
    pub fn remove(&mut self, val: usize) -> (res: bool)
        requires
            old(self).wf(),
        ensures
            final(self).wf(),
            res == old(self)@.contains(val),
            final(self)@ == old(self)@.remove(val),
            final(self).spec_max_key() == old(self).spec_max_key(),
    {
        proof {
            self.lemma_wf();
        }
        let head = val / TAIL_NUM;
        let tail = (val % TAIL_NUM) as u16;
        let ghost old_view = self@;
        proof {
            assert(head == head_of(val) && tail == tail_of(val));
        }
        match self.map.remove(&head) {
            Some(c) => {
                let mut c = c;
                let removed = c.remove(tail);
                proof {
                    assert(removed == old_view.contains(val));
                }
                if removed {
                    proof {
                        vstd::set::axiom_set_remove_len(old_view, val);
                    }
                    self.len = self.len - 1;
                }
                self.map.insert(head, c);
                proof {
                    assert forall|v: usize| #[trigger] self.has(v) == (v != val && old(self).has(v)) by {
                        lemma_split(v, val);
                    }
                    assert(self@ =~= old_view.remove(val));
                    if !removed {
                        assert(old_view.remove(val) =~= old_view);
                    }
                    assert(self.len == self@.len());
                    assert forall|v: usize| #[trigger] self.has(v) implies v <= self.max_key by {
                        assert(old(self).has(v));
                    }
                    assert forall|h: usize| #[trigger] self.map@.contains_key(h) implies self.map@[h].wf() by {
                        if h != head {
                            assert(old(self).map@.contains_key(h));
                        }
                    }
                }
                removed
            },
            None => {
                proof {
                    assert(self.map@ =~= old(self).map@);
                    assert(!old_view.contains(val));
                    assert(self@ =~= old_view);
                    assert(old_view.remove(val) =~= old_view);
                    assert(self.len == self@.len());
                    assert forall|v: usize| #[trigger] self.has(v) implies v <= self.max_key by {
                        assert(old(self).has(v));
                    }
                    assert forall|h: usize| #[trigger] self.map@.contains_key(h) implies self.map@[h].wf() by {
                        assert(old(self).map@.contains_key(h));
                    }
                }
                false
            },
        }
    }

    /// Adds every number of `val`.
    pub fn add_many(&mut self, val: &[usize])
        requires
            old(self).wf(),
            old(self)@.len() + val@.len() < usize::MAX,
        ensures
            final(self).wf(),
            final(self)@ == old(self)@.union(val@.to_set()),
    {
        proof {
            self.lemma_wf();
        }
        let mut i: usize = 0;
        while i < val.len()
            invariant
                self.wf(),
                i <= val@.len(),
                old(self)@.finite(),
                self@.len() <= old(self)@.len() + i,
                old(self)@.len() + val@.len() < usize::MAX,
                forall|x: usize| #[trigger] self@.contains(x)
                    <==> (old(self)@.contains(x) || exists|j: int| 0 <= j < i && val@[j] == x),
            decreases val@.len() - i,
        {
            let ghost before = self@;
            proof {
                self.lemma_wf();
            }
            self.add(val[i]);
            proof {
                self.lemma_wf();
                if before.contains(val@[i as int]) {
                    assert(before.insert(val@[i as int]) =~= before);
                } else {
                    vstd::set::axiom_set_insert_len(before, val@[i as int]);
                }
                assert forall|x: usize| #[trigger] self@.contains(x)
                    <==> (old(self)@.contains(x) || exists|j: int| 0 <= j < i + 1 && val@[j] == x) by {
                    if x == val@[i as int] {
                        assert(val@[i as int] == x);
                    }
                    if exists|j: int| 0 <= j < i + 1 && val@[j] == x {
                        let j = choose|j: int| 0 <= j < i + 1 && val@[j] == x;
                        if j < i {
                            assert(before.contains(x));
                        }
                    }
                }
            }
            i = i + 1;
        }
        proof {
            assert(self@ =~= old(self)@.union(val@.to_set()));
        }
    }

    /// Removes every number of `val`.
    pub fn remove_many(&mut self, val: &[usize])
        requires
            old(self).wf(),
        ensures
            final(self).wf(),
            final(self)@ == old(self)@.difference(val@.to_set()),
    {
        let mut i: usize = 0;
        while i < val.len()
            invariant
                self.wf(),
                i <= val@.len(),
                forall|x: usize| #[trigger] self@.contains(x)
                    <==> (old(self)@.contains(x) && !exists|j: int| 0 <= j < i && val@[j] == x),
            decreases val@.len() - i,
        {
            let ghost before = self@;
            self.remove(val[i]);
            proof {
                assert forall|x: usize| #[trigger] self@.contains(x)
                    <==> (old(self)@.contains(x) && !exists|j: int| 0 <= j < i + 1 && val@[j] == x) by {
                    if x == val@[i as int] {
                        assert(val@[i as int] == x);
                    }
                    if exists|j: int| 0 <= j < i + 1 && val@[j] == x {
                        let j = choose|j: int| 0 <= j < i + 1 && val@[j] == x;
                        if j < i {
                            assert(!before.contains(x));
                        }
                    }
                }
            }
            i = i + 1;
        }
        proof {
            assert(self@ =~= old(self)@.difference(val@.to_set()));
        }
    }

    /// Adds the numbers `start..=end`.
    pub fn add_range(&mut self, start: usize, end: usize)
        requires
            old(self).wf(),
            start <= end ==> old(self)@.len() + (end - start) + 1 < usize::MAX,
        ensures
            final(self).wf(),
            forall|x: usize| #[trigger] final(self)@.contains(x) <==> (old(self)@.contains(x) || start <= x <= end),
    {
        if start > end {
            return;
        }
        proof {
            self.lemma_wf();
        }
        let mut pos = start;
        while pos < end
            invariant
                self.wf(),
                start <= pos <= end,
                old(self)@.finite(),
                self@.len() <= old(self)@.len() + (pos - start),
                old(self)@.len() + (end - start) + 1 < usize::MAX,
                forall|x: usize| #[trigger] self@.contains(x) <==> (old(self)@.contains(x) || start <= x < pos),
            decreases end - pos,
        {
            let ghost before = self@;
            proof {
                self.lemma_wf();
            }
            self.add(pos);
            proof {
                if before.contains(pos) {
                    assert(before.insert(pos) =~= before);
                } else {
                    vstd::set::axiom_set_insert_len(before, pos);
                }
            }
            pos = pos + 1;
        }
        self.add(end);
    }

    /// Removes the numbers `start..=end`.
    pub fn remove_range(&mut self, start: usize, end: usize)
        requires
            old(self).wf(),
        ensures
            final(self).wf(),
            forall|x: usize| #[trigger] final(self)@.contains(x) <==> (old(self)@.contains(x) && !(start <= x <= end)),
    {
        if start > end {
            return;
        }
        let mut pos = start;
        while pos < end
            invariant
                self.wf(),
                start <= pos <= end,
                forall|x: usize| #[trigger] self@.contains(x) <==> (old(self)@.contains(x) && !(start <= x < pos)),
            decreases end - pos,
        {
            self.remove(pos);
            pos = pos + 1;
        }
        self.remove(end);
    }

    /// The text of the set: `len:<count>-val:{<numbers>}`, the numbers in
    /// ascending order, separated by commas.
    pub fn to_string(&self) -> (r: String)
        requires
            self.wf(),
        ensures
            exists|items: Seq<usize>| {
                &&& forall|a: int, b: int| 0 <= a < b < items.len() ==> items[a] < items[b]
                &&& forall|x: usize| #[trigger] items.contains(x) <==> self@.contains(x)
                &&& r@ == set_text(self@.len(), items, Seq::<char>::empty())
            },
    {
        let items = self.iter();
        let n = self.len();
        proof {
            reveal_strlit("");
        }
        let r = render_set(n, &items, "");
        proof {
            assert(""@ == Seq::<char>::empty());
        }
        r
    }

    /// The numbers of the set, in increasing order.
    pub fn iter(&self) -> (res: Vec<usize>)
        requires
            self.wf(),
        ensures
            forall|a: int, b: int| 0 <= a < b < res@.len() ==> res@[a] < res@[b],
            forall|x: usize| #[trigger] res@.contains(x) <==> self@.contains(x),
    {
        let mut res: Vec<usize> = Vec::new();
        let last = self.max_key / TAIL_NUM;
        let mut h: usize = 0;
        loop
            invariant
                self.wf(),
                last == self.spec_max_key() / TAIL_NUM,
                h <= last,
                forall|a: int, b: int| 0 <= a < b < res@.len() ==> res@[a] < res@[b],
                forall|a: int| 0 <= a < res@.len() ==> #[trigger] res@[a] < h * TAIL_NUM,
                forall|x: usize| #[trigger] res@.contains(x) <==> (self@.contains(x) && head_of(x) < h),
            decreases last - h,
        {
            proof {
                assert(h * TAIL_NUM <= self.max_key) by (nonlinear_arith)
                    requires
                        h <= last,
                        last == self.max_key / 0x10000,
                ;
            }
            match self.map.get(&h) {
                Some(c) => {
                    let ts = c.sorted();
                    let mut j: usize = 0;
                    while j < ts.len()
                        invariant
                            self.wf(),
                            self.map@.contains_key(h),
                            self.map@[h] == *c,
                            strictly_sorted(ts@),
                            forall|t: u16| #[trigger] ts@.contains(t) <==> c@.contains(t),
                            j <= ts@.len(),
                            h * TAIL_NUM <= self.max_key,
                            forall|a: int, b: int| 0 <= a < b < res@.len() ==> res@[a] < res@[b],
                            forall|a: int| 0 <= a < res@.len() ==> #[trigger] res@[a] < h * TAIL_NUM + (if j < ts@.len() {
                                ts@[j as int] as int
                            } else {
                                TAIL_NUM as int
                            }),
                            forall|x: usize| #[trigger] res@.contains(x) <==> (self@.contains(x) && (head_of(x) < h
                                || (head_of(x) == h && exists|k: int| 0 <= k < j && ts@[k] == tail_of(x)))),
                        decreases ts@.len() - j,
                    {
                        let t = ts[j];
                        proof {
                            assert(ts@.contains(t));
                            assert(h * TAIL_NUM + t <= self.max_key);
                            lemma_join(h, t);
                        }
                        let v = h * TAIL_NUM + t as usize;
                        let ghost old_res = res@;
                        res.push(v);
                        proof {
                            assert(self.has(v));
                            assert forall|x: usize| #[trigger] res@.contains(x) <==> (self@.contains(x) && (head_of(x) < h
                                || (head_of(x) == h && exists|k: int| 0 <= k < j + 1 && ts@[k] == tail_of(x)))) by {
                                lemma_split(x, v);
                                if res@.contains(x) {
                                    let m = choose|m: int| 0 <= m < res@.len() && res@[m] == x;
                                    if m < old_res.len() {
                                        assert(old_res[m] == x);
                                        assert(old_res.contains(x));
                                    } else {
                                        assert(ts@[j as int] == tail_of(x));
                                    }
                                }
                                if self@.contains(x) && head_of(x) == h && exists|k: int| 0 <= k < j + 1 && ts@[k] == tail_of(x) {
                                    let k = choose|k: int| 0 <= k < j + 1 && ts@[k] == tail_of(x);
                                    if k == j {
                                        assert(res@[old_res.len() as int] == x);
                                    } else {
                                        assert(old_res.contains(x));
                                        let m = choose|m: int| 0 <= m < old_res.len() && old_res[m] == x;
                                        assert(res@[m] == x);
                                    }
                                }
                                if self@.contains(x) && head_of(x) < h {
                                    assert(old_res.contains(x));
                                    let m = choose|m: int| 0 <= m < old_res.len() && old_res[m] == x;
                                    assert(res@[m] == x);
                                }
                            }
                            if j + 1 < ts@.len() {
                                assert(ts@[j as int] < ts@[j + 1]);
                            }
                        }
                        j = j + 1;
                    }
                    proof {
                        assert forall|x: usize| #[trigger] res@.contains(x) <==> (self@.contains(x) && head_of(x) < h + 1) by {
                            lemma_split(x, x);
                            if self@.contains(x) && head_of(x) == h {
                                assert(ts@.contains(tail_of(x)));
                                let k = choose|k: int| 0 <= k < ts@.len() && ts@[k] == tail_of(x);
                            }
                        }
                    }
                },
                None => {
                    proof {
                        assert forall|x: usize| #[trigger] res@.contains(x) <==> (self@.contains(x) && head_of(x) < h + 1) by {
                        }
                    }
                },
            }
            if h == last {
                proof {
                    assert forall|x: usize| #[trigger] res@.contains(x) <==> self@.contains(x) by {
                        if self@.contains(x) {
                            assert(x <= self.max_key);
                            assert(head_of(x) <= last) by (nonlinear_arith)
                                requires
                                    x <= self.max_key,
                                    last == self.max_key / 0x10000,
                            ;
                        }
                    }
                }
                return res;
            }
            proof {
                assert forall|a: int| 0 <= a < res@.len() implies #[trigger] res@[a] < (h + 1) * TAIL_NUM by {
                    assert(res@.contains(res@[a]));
                    lemma_split(res@[a], res@[a]);
                    assert(head_of(res@[a]) < h + 1);
                    assert(res@[a] < (h + 1) * TAIL_NUM) by (nonlinear_arith)
                        requires
                            res@[a] / 0x10000 < h + 1,
                    ;
                }
            }
            h = h + 1;
        }
    }

    /// Keeps the numbers for which `f` answers `true`.
    pub fn retain<F>(&mut self, f: F)
        where
            F: Fn(&usize) -> bool,
        requires
            old(self).wf(),
            forall|x: &usize| #[trigger] f.requires((x,)),
        ensures
            final(self).wf(),
            forall|x: usize| #[trigger] final(self)@.contains(x) ==> old(self)@.contains(x) && f.ensures((&x,), true),
            forall|x: usize| old(self)@.contains(x) && !final(self)@.contains(x) ==> #[trigger] f.ensures((&x,), false),
    {
        let members = self.iter();
        proof {
            assert forall|k: int| 0 <= k < members@.len() implies self@.contains(#[trigger] members@[k]) by {
                assert(members@.contains(members@[k]));
            }
        }
        let mut i: usize = 0;
        while i < members.len()
            invariant
                self.wf(),
                forall|x: &usize| #[trigger] f.requires((x,)),
                i <= members@.len(),
                forall|a: int, b: int| 0 <= a < b < members@.len() ==> members@[a] < members@[b],
                forall|x: usize| #[trigger] members@.contains(x) <==> old(self)@.contains(x),
                forall|x: usize| #[trigger] self@.contains(x) ==> old(self)@.contains(x),
                forall|k: int| i <= k < members@.len() ==> self@.contains(#[trigger] members@[k]),
                forall|k: int| 0 <= k < i ==> {
                    &&& self@.contains(#[trigger] members@[k]) ==> f.ensures((&members@[k],), true)
                    &&& !self@.contains(members@[k]) ==> f.ensures((&members@[k],), false)
                },
            decreases members@.len() - i,
        {
            let x = members[i];
            let keep = f(&x);
            if !keep {
                self.remove(x);
            }
            proof {
                assert forall|k: int| i + 1 <= k < members@.len() implies self@.contains(#[trigger] members@[k]) by {
                    assert(members@[k] != x);
                }
                assert forall|k: int| 0 <= k < i implies {
                    &&& self@.contains(#[trigger] members@[k]) ==> f.ensures((&members@[k],), true)
                    &&& !self@.contains(members@[k]) ==> f.ensures((&members@[k],), false)
                } by {
                    assert(members@[k] != x);
                }
            }
            i = i + 1;
        }
        proof {
            assert forall|x: usize| #[trigger] self@.contains(x) implies old(self)@.contains(x) && f.ensures((&x,), true) by {
                assert(members@.contains(x));
                let k = choose|k: int| 0 <= k < members@.len() && members@[k] == x;
            }
            assert forall|x: usize| old(self)@.contains(x) && !self@.contains(x) implies #[trigger] f.ensures((&x,), false) by {
                assert(members@.contains(x));
                let k = choose|k: int| 0 <= k < members@.len() && members@[k] == x;
            }
        }
    }

    /// Whether every number of `other` is in `self`.
    pub fn contains_sub(&self, other: &RoaringBitMap) -> (res: bool)
        requires
            self.wf(),
            other.wf(),
        ensures
            res == other@.subset_of(self@),
    {
        let members = other.iter();
        let mut i: usize = 0;
        while i < members.len()
            invariant
                self.wf(),
                forall|x: usize| #[trigger] members@.contains(x) <==> other@.contains(x),
                i <= members@.len(),
                forall|k: int| 0 <= k < i ==> self@.contains(#[trigger] members@[k]),
            decreases members@.len() - i,
        {
            let x = members[i];
            proof {
                assert(members@.contains(x));
            }
            if !self.contains(&x) {
                return false;
            }
            i = i + 1;
        }
        proof {
            assert forall|x: usize| #[trigger] other@.contains(x) implies self@.contains(x) by {
                assert(members@.contains(x));
                let k = choose|k: int| 0 <= k < members@.len() && members@[k] == x;
            }
        }
        true
    }

    /// Adds to `map` every number of `members` that `keep` selects.
    fn add_selected(map: &mut RoaringBitMap, members: &Vec<usize>, other: &RoaringBitMap, both: bool)
        requires
            old(map).wf(),
            other.wf(),
            old(map)@.len() + members@.len() < usize::MAX,
        ensures
            final(map).wf(),
            forall|x: usize| #[trigger] final(map)@.contains(x) <==> (old(map)@.contains(x) || (members@.contains(x)
                && (!both || other@.contains(x)))),
    {
        proof {
            map.lemma_wf();
        }
        let mut i: usize = 0;
        while i < members.len()
            invariant
                map.wf(),
                other.wf(),
                i <= members@.len(),
                old(map)@.finite(),
                map@.len() <= old(map)@.len() + i,
                old(map)@.len() + members@.len() < usize::MAX,
                forall|x: usize| #[trigger] map@.contains(x) <==> (old(map)@.contains(x) || exists|j: int|
                    0 <= j < i && members@[j] == x && (!both || other@.contains(x))),
            decreases members@.len() - i,
        {
            let x = members[i];
            let ghost before = map@;
            if !both || other.contains(&x) {
                proof {
                    map.lemma_wf();
                }
                map.add(x);
                proof {
                    if before.contains(x) {
                        assert(before.insert(x) =~= before);
                    } else {
                        vstd::set::axiom_set_insert_len(before, x);
                    }
                }
            }
            proof {
                assert forall|y: usize| #[trigger] map@.contains(y) <==> (old(map)@.contains(y) || exists|j: int|
                    0 <= j < i + 1 && members@[j] == y && (!both || other@.contains(y))) by {
                    if y == x {
                        assert(members@[i as int] == y);
                    }
                    if exists|j: int| 0 <= j < i + 1 && members@[j] == y && (!both || other@.contains(y)) {
                        let j = choose|j: int| 0 <= j < i + 1 && members@[j] == y && (!both || other@.contains(y));
                        if j < i {
                            assert(before.contains(y));
                        }
                    }
                }
            }
            i = i + 1;
        }
        proof {
            assert forall|x: usize| #[trigger] map@.contains(x) <==> (old(map)@.contains(x) || (members@.contains(x)
                && (!both || other@.contains(x)))) by {
                if members@.contains(x) && (!both || other@.contains(x)) {
                    let j = choose|j: int| 0 <= j < members@.len() && members@[j] == x;
                }
            }
        }
    }

    /// The numbers in both sets.
    pub fn intersect(&self, other: &RoaringBitMap) -> (res: RoaringBitMap)
        requires
            self.wf(),
            other.wf(),
            self@.len() < usize::MAX,
        ensures
            res.wf(),
            res@ == self@.intersect(other@),
    {
        let members = self.iter();
        let mut map = RoaringBitMap::new();
        proof {
            self.lemma_wf();
            assert(members@.no_duplicates());
            assert(members@.to_set() =~= self@);
            members@.unique_seq_to_set();
        }
        RoaringBitMap::add_selected(&mut map, &members, other, true);
        proof {
            assert(map@ =~= self@.intersect(other@));
        }
        map
    }

    /// The numbers in either set.
    pub fn union(&self, other: &RoaringBitMap) -> (res: RoaringBitMap)
        requires
            self.wf(),
            other.wf(),
            self@.len() + other@.len() < usize::MAX,
        ensures
            res.wf(),
            res@ == self@.union(other@),
    {
        let mine = self.iter();
        let theirs = other.iter();
        let mut map = RoaringBitMap::new();
        proof {
            self.lemma_wf();
            other.lemma_wf();
            assert(mine@.no_duplicates());
            assert(mine@.to_set() =~= self@);
            mine@.unique_seq_to_set();
            assert(theirs@.no_duplicates());
            assert(theirs@.to_set() =~= other@);
            theirs@.unique_seq_to_set();
        }
        RoaringBitMap::add_selected(&mut map, &mine, other, false);
        proof {
            map.lemma_wf();
            assert(map@ =~= self@);
        }
        RoaringBitMap::add_selected(&mut map, &theirs, other, false);
        proof {
            assert(map@ =~= self@.union(other@));
        }
        map
    }

    /// What a lookup gives back of a change: once `add(v)` has turned the
    /// set into `s.insert(v)`, `contains(&v)` answers `true`; once
    /// `remove(v)` has turned it into `s.remove(v)`, it answers `false`, and
    /// the other numbers keep their answers.
    pub proof fn law_contains_after_change(s: Set<usize>, v: usize, w: usize)
        ensures
            s.insert(v).contains(v),
            !s.remove(v).contains(v),
            w != v ==> (s.insert(v).contains(w) == s.contains(w) && s.remove(v).contains(w) == s.contains(w)),
    {
    }
}

} // verus!
