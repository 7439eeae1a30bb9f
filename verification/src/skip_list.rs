use vstd::prelude::*;

verus! {

/// The most levels a node of a [`SkipList`] can have.
pub const MAX_LEVEL: usize = 16;

/// How likely, in percent, a node is to reach one level more.
pub const PERCENT: u16 = 50;

/// The link that leads nowhere.
pub const NIL: usize = usize::MAX;

/// The slot of the header node, which holds no value.
pub const HEAD: usize = 0;

/// Values kept in order by a [`SkipList`]: each has a key, and values are
/// ordered by their keys.
pub trait SkipOrd: Sized {
    spec fn key(&self) -> int;

    fn lt(&self, other: &Self) -> (r: bool)
        ensures
            r == (self.key() < other.key()),
    ;

    fn le(&self, other: &Self) -> (r: bool)
        ensures
            r == (self.key() <= other.key()),
    ;
}

impl SkipOrd for i32 {
    open spec fn key(&self) -> int {
        *self as int
    }

    fn lt(&self, other: &Self) -> (r: bool) {
        *self < *other
    }

    fn le(&self, other: &Self) -> (r: bool) {
        *self <= *other
    }
}

impl SkipOrd for i64 {
    open spec fn key(&self) -> int {
        *self as int
    }

    fn lt(&self, other: &Self) -> (r: bool) {
        *self < *other
    }

    fn le(&self, other: &Self) -> (r: bool) {
        *self <= *other
    }
}

impl SkipOrd for u32 {
    open spec fn key(&self) -> int {
        *self as int
    }

    fn lt(&self, other: &Self) -> (r: bool) {
        *self < *other
    }

    fn le(&self, other: &Self) -> (r: bool) {
        *self <= *other
    }
}

impl SkipOrd for u64 {
    open spec fn key(&self) -> int {
        *self as int
    }

    fn lt(&self, other: &Self) -> (r: bool) {
        *self < *other
    }

    fn le(&self, other: &Self) -> (r: bool) {
        *self <= *other
    }
}

impl SkipOrd for usize {
    open spec fn key(&self) -> int {
        *self as int
    }

    fn lt(&self, other: &Self) -> (r: bool) {
        *self < *other
    }

    fn le(&self, other: &Self) -> (r: bool) {
        *self <= *other
    }
}

impl SkipOrd for isize {
    open spec fn key(&self) -> int {
        *self as int
    }

    fn lt(&self, other: &Self) -> (r: bool) {
        *self < *other
    }

    fn le(&self, other: &Self) -> (r: bool) {
        *self <= *other
    }
}

/// Whether the keys of `s` never go down.
pub open spec fn sorted_by_key<T: SkipOrd>(s: Seq<T>) -> bool {
    forall|a: int, b: int| 0 <= a <= b < s.len() ==> (#[trigger] s[a]).key() <= (#[trigger] s[b]).key()
}

/// Whether `p` is the place for a value of key `k` in `s`: after every value
/// of smaller key, before every other.
pub open spec fn place_for<T: SkipOrd>(s: Seq<T>, k: int, p: int) -> bool {
    &&& 0 <= p <= s.len()
    &&& forall|j: int| 0 <= j < p ==> (#[trigger] s[j]).key() < k
    &&& forall|j: int| p <= j < s.len() ==> (#[trigger] s[j]).key() >= k
}

/// The place for a value of key `k` in the sorted `s`.
pub open spec fn insert_place<T: SkipOrd>(s: Seq<T>, k: int) -> int {
    choose|p: int| place_for(s, k, p)
}

/// `sorted_by_key(s)` gives exactly one place for each key.
pub proof fn lemma_place<T: SkipOrd>(s: Seq<T>, k: int, p: int)
    requires
        place_for(s, k, p),
    ensures
        insert_place(s, k) == p,
{
    let q = insert_place(s, k);
    assert(place_for(s, k, q));
    if q < p {
        assert(s[q].key() < k);
    } else if q > p {
        assert(s[p].key() < k);
    }
}

/// Every sorted sequence has a place for every key.
pub proof fn lemma_place_exists<T: SkipOrd>(s: Seq<T>, k: int)
    requires
        sorted_by_key(s),
    ensures
        place_for(s, k, insert_place(s, k)),
    decreases s.len(),
{
    if s.len() == 0 {
        assert(place_for(s, k, 0));
    } else {
        let t = s.drop_last();
        assert(sorted_by_key(t)) by {
            assert forall|a: int, b: int| 0 <= a <= b < t.len() implies (#[trigger] t[a]).key() <= (#[trigger] t[b]).key() by {
                assert(t[a] == s[a]);
                assert(t[b] == s[b]);
            }
        }
        lemma_place_exists(t, k);
        let q = insert_place(t, k);
        if s.last().key() < k {
            assert forall|j: int| 0 <= j < s.len() implies (#[trigger] s[j]).key() < k by {
                assert(s[j].key() <= s[s.len() - 1].key());
            }
            assert(place_for(s, k, s.len() as int));
        } else {
            assert forall|j: int| 0 <= j < q implies (#[trigger] s[j]).key() < k by {
                assert(s[j] == t[j]);
            }
            assert forall|j: int| q <= j < s.len() implies (#[trigger] s[j]).key() >= k by {
                if j < t.len() {
                    assert(s[j] == t[j]);
                }
            }
            assert(place_for(s, k, q));
        }
    }
}

/// Whether the keys of `s` go strictly up.
pub open spec fn strictly_by_key<T: SkipOrd>(s: Seq<T>) -> bool {
    forall|a: int, b: int| 0 <= a < b < s.len() ==> (#[trigger] s[a]).key() < (#[trigger] s[b]).key()
}

/// Whether some value of `s` has key `k`.
pub open spec fn has_score<T: SkipOrd>(s: Seq<T>, k: int) -> bool {
    exists|j: int| 0 <= j < s.len() && (#[trigger] s[j]).key() == k
}

/// Moving a value to a new key keeps keys strictly ascending: in `s` whose
/// keys go strictly up, taking out the value of key `cur` (at its place) and
/// putting `v`, whose key `s` does not hold, at the place for its key leaves
/// as many values, keys still strictly ascending, and the keys of `s` with
/// `cur` replaced by that of `v`.
pub proof fn law_update_keeps_strict<T: SkipOrd>(s: Seq<T>, cur: int, v: T)
    requires
        strictly_by_key(s),
        has_score(s, cur),
        !has_score(s, v.key()),
    ensures
        ({
            let p = insert_place(s, cur);
            let rest = s.remove(p);
            let t = rest.insert(insert_place(rest, v.key()), v);
            &&& t.len() == s.len()
            &&& strictly_by_key(t)
            &&& forall|k: int| has_score(t, k) <==> (k == v.key() || (k != cur && has_score(s, k)))
        }),
{
    assert(sorted_by_key(s)) by {
        assert forall|a: int, b: int| 0 <= a <= b < s.len() implies (#[trigger] s[a]).key() <= (#[trigger] s[b]).key() by {
            if a < b {
            }
        }
    }
    lemma_place_exists(s, cur);
    let p = insert_place(s, cur);
    let j0 = choose|j: int| 0 <= j < s.len() && (#[trigger] s[j]).key() == cur;
    assert(p <= j0);
    assert(p < s.len());
    assert(s[p].key() == cur) by {
        if s[p].key() != cur {
            assert(s[p].key() > cur);
            if j0 > p {
                assert(s[p].key() < s[j0].key());
            }
        }
    }
    let rest = s.remove(p);
    assert(strictly_by_key(rest)) by {
        assert forall|a: int, b: int| 0 <= a < b < rest.len() implies (#[trigger] rest[a]).key() < (#[trigger] rest[b]).key() by {
            let ia = if a < p { a } else { a + 1 };
            let ib = if b < p { b } else { b + 1 };
            assert(rest[a] == s[ia]);
            assert(rest[b] == s[ib]);
        }
    }
    assert(sorted_by_key(rest)) by {
        assert forall|a: int, b: int| 0 <= a <= b < rest.len() implies (#[trigger] rest[a]).key() <= (#[trigger] rest[b]).key() by {
            if a < b {
            }
        }
    }
    lemma_place_exists(rest, v.key());
    let q = insert_place(rest, v.key());
    let t = rest.insert(q, v);
    assert forall|j: int| 0 <= j < rest.len() implies (#[trigger] rest[j]).key() != v.key() by {
        let i = if j < p { j } else { j + 1 };
        assert(rest[j] == s[i]);
    }
    assert(strictly_by_key(t)) by {
        assert forall|a: int, b: int| 0 <= a < b < t.len() implies (#[trigger] t[a]).key() < (#[trigger] t[b]).key() by {
            if b < q {
                assert(t[a] == rest[a]);
                assert(t[b] == rest[b]);
            } else if b == q {
                assert(t[a] == rest[a]);
            } else if a == q {
                assert(t[b] == rest[b - 1]);
                assert(rest[b - 1].key() != v.key());
            } else if a < q {
                assert(t[a] == rest[a]);
                assert(t[b] == rest[b - 1]);
            } else {
                assert(t[a] == rest[a - 1]);
                assert(t[b] == rest[b - 1]);
            }
        }
    }
    assert forall|k: int| has_score(t, k) <==> (k == v.key() || (k != cur && has_score(s, k))) by {
        if has_score(t, k) {
            let j = choose|j: int| 0 <= j < t.len() && (#[trigger] t[j]).key() == k;
            if j != q {
                let r = if j < q { j } else { j - 1 };
                assert(t[j] == rest[r]);
                let i = if r < p { r } else { r + 1 };
                assert(rest[r] == s[i]);
                assert(i != p);
                if k == cur {
                    assert(s[i].key() == s[p].key());
                    if i < p {
                        assert(s[i].key() < s[p].key());
                    } else {
                        assert(s[p].key() < s[i].key());
                    }
                }
            }
        }
        if k == v.key() {
            assert(t[q] == v);
        } else if k != cur && has_score(s, k) {
            let i = choose|i: int| 0 <= i < s.len() && (#[trigger] s[i]).key() == k;
            assert(i != p);
            let r = if i < p { i } else { i - 1 };
            assert(rest[r] == s[i]);
            let j = if r < q { r } else { r + 1 };
            assert(t[j] == rest[r]);
        }
    }
}

/// Taking out a value right after putting it in gives the list back: in
/// a sorted `s`, `v` goes in at the place for its key, `remove(&v)` finds a
/// value of that key there, and taking it out leaves `s`.
pub proof fn law_remove_undoes_insert<T: SkipOrd>(s: Seq<T>, v: T)
    requires
        sorted_by_key(s),
    ensures
        ({
            let p = insert_place(s, v.key());
            let t = s.insert(p, v);
            &&& insert_place(t, v.key()) == p
            &&& exists|j: int| 0 <= j < t.len() && (#[trigger] t[j]).key() == v.key()
            &&& t.remove(p) == s
        }),
{
    lemma_place_exists(s, v.key());
    let p = insert_place(s, v.key());
    let t = s.insert(p, v);
    s.insert_ensures(p, v);
    assert forall|j: int| 0 <= j < p implies (#[trigger] t[j]).key() < v.key() by {
        assert(t[j] == s[j]);
    }
    assert forall|j: int| p <= j < t.len() implies (#[trigger] t[j]).key() >= v.key() by {
        if j > p {
            assert(t[j] == s[j - 1]);
        }
    }
    lemma_place(t, v.key(), p);
    assert(t[p].key() == v.key());
    assert(t.remove(p) =~= s);
}

/// One level of a node: the next node reached at that level, and how many
/// places on that link goes.
pub struct LevelType {
    pub forward: usize,
    pub span: usize,
}

impl LevelType {
    /// A level that leads nowhere.
    pub fn new() -> (r: Self)
        ensures
            r.forward == NIL,
            r.span == 0,
    {
        LevelType { forward: NIL, span: 0 }
    }
}

/// A node of a [`SkipList`]: a value, the node before it, and its levels.
pub struct SkipNode<T> {
    pub score: T,
    pub backward: usize,
    levels: Vec<LevelType>,
}

/// `rand::random`: a random 16-bit number; anything may come back.
#[verifier::external_body]
fn random_u16() -> u16 {
    rand::random::<u16>()
}

/// A sequence of values kept sorted by key, with levels of links that skip
/// ahead, so that finding a place or a rank takes few steps.
pub struct SkipList<T> {
    length: usize,
    level: usize,
    nodes: Vec<Option<SkipNode<T>>>,
    free: Vec<usize>,
    tail: usize,
    order: Ghost<Seq<usize>>,
    at: Ghost<Map<usize, int>>,
}

impl<T> View for SkipList<T> {
    type V = Seq<T>;

    /// The values, in order.
    closed spec fn view(&self) -> Seq<T> {
        Seq::new(self.order@.len(), |k: int| self.nodes@[self.order@[k] as int]->0.score)
    }
}

impl<T: SkipOrd + Default> SkipList<T> {
    /// The slots of the header and of the nodes in order.
    pub closed spec fn full(&self) -> Seq<usize> {
        seq![HEAD] + self.order@
    }

    pub closed spec fn nd(&self, n: usize) -> SkipNode<T> {
        self.nodes@[n as int]->0
    }

    pub closed spec fn height(&self, n: usize) -> int {
        self.nd(n).levels@.len() as int
    }

    pub closed spec fn fwd(&self, n: usize, i: int) -> usize {
        self.nd(n).levels@[i].forward
    }

    pub closed spec fn span(&self, n: usize, i: int) -> usize {
        self.nd(n).levels@[i].span
    }

    /// The level link `i` of the node at place `k` of `full` is right.
    pub closed spec fn link_ok(&self, k: int, i: int) -> bool {
        let full = self.full();
        let len = self.order@.len() as int;
        let n = full[k];
        let f = self.fwd(n, i);
        &&& f == NIL ==> (forall|m: int| k < m <= len ==> self.height(#[trigger] full[m]) <= i)
        &&& f == NIL && (k > 0 || i < self.level) ==> self.span(n, i) == len - k
        &&& f != NIL ==> {
            &&& self.at@.contains_key(f)
            &&& k < self.at@[f] <= len
            &&& self.height(f) > i
            &&& forall|m: int| k < m < self.at@[f] ==> self.height(#[trigger] full[m]) <= i
            &&& self.span(n, i) == self.at@[f] - k
        }
    }

    pub closed spec fn wf(&self) -> bool {
        let full = self.full();
        let len = self.order@.len() as int;
        let nodes = self.nodes@;
        &&& nodes.len() >= 1
        &&& nodes.len() < NIL
        &&& nodes[HEAD as int] is Some
        &&& self.height(HEAD) == MAX_LEVEL
        &&& 1 <= self.level <= MAX_LEVEL
        &&& self.length == len
        &&& full.no_duplicates()
        &&& forall|k: int| 1 <= k <= len ==> #[trigger] full[k] != HEAD
        &&& forall|k: int| 0 <= k <= len ==> #[trigger] full[k] < nodes.len() && nodes[full[k] as int] is Some
        &&& forall|n: int| 0 <= n < nodes.len() && #[trigger] nodes[n] is Some ==> self.at@.contains_key(n as usize)
        &&& forall|n: usize| #[trigger] self.at@.contains_key(n) ==> 0 <= self.at@[n] <= len && full[self.at@[n]] == n
        &&& forall|k: int| 1 <= k <= len ==> 1 <= #[trigger] self.height(full[k]) <= self.level
        &&& forall|k: int, i: int| 0 <= k <= len && 0 <= i < self.height(#[trigger] full[k]) ==> #[trigger] self.link_ok(k, i)
        &&& forall|k: int| 1 <= k <= len ==> #[trigger] self.nd(full[k]).backward == (if k == 1 { NIL } else { full[k - 1] })
        &&& self.tail == (if len == 0 { NIL } else { full[len] })
        &&& nodes.len() == self.length + 1 + self.free@.len()
        &&& self.free@.no_duplicates()
        &&& forall|j: int| 0 <= j < self.free@.len() ==> #[trigger] self.free@[j] < nodes.len() && nodes[self.free@[j] as int] is None
        &&& forall|n: int| 0 <= n < nodes.len() && #[trigger] nodes[n] is None ==> self.free@.contains(n as usize)
        &&& sorted_by_key(self@)
    }

    /// A fresh header node holding the default value.
    fn make_header() -> (r: SkipNode<T>)
        ensures
            r.levels@.len() == MAX_LEVEL,
            r.backward == NIL,
            forall|i: int| 0 <= i < MAX_LEVEL ==> #[trigger] r.levels@[i].forward == NIL && r.levels@[i].span == 0,
    {
        let mut levels: Vec<LevelType> = Vec::new();
        let mut i: usize = 0;
        while i < MAX_LEVEL
            invariant
                i <= MAX_LEVEL,
                levels@.len() == i,
                forall|j: int| 0 <= j < i ==> #[trigger] levels@[j].forward == NIL && levels@[j].span == 0,
            decreases MAX_LEVEL - i,
        {
            let lv = LevelType::new();
            levels.push(lv);
            proof {
                assert(levels@[i as int] == lv);
            }
            i = i + 1;
        }
        SkipNode { score: T::default(), backward: NIL, levels }
    }

    /// An empty list.
    pub fn new() -> (r: Self)
        ensures
            r.wf(),
            r@ == Seq::<T>::empty(),
    {
        let header = Self::make_header();
        let mut nodes: Vec<Option<SkipNode<T>>> = Vec::new();
        nodes.push(Some(header));
        let r = SkipList {
            length: 0,
            level: 1,
            nodes,
            free: Vec::new(),
            tail: NIL,
            order: Ghost(Seq::empty()),
            at: Ghost(Map::empty().insert(HEAD, 0)),
        };
        proof {
            assert(r.full() =~= seq![HEAD]);
            assert(r@ =~= Seq::<T>::empty());
            assert forall|k: int, i: int| 0 <= k <= 0 && 0 <= i < r.height(#[trigger] r.full()[k]) implies #[trigger] r.link_ok(k, i) by {
                assert(r.full()[k] == HEAD);
            }
        }
        r
    }

    /// Drops all values.
    pub fn clear(&mut self)
        ensures
            final(self).wf(),
            final(self)@ == Seq::<T>::empty(),
    {
        *self = Self::new();
    }

    /// The number of values.
    pub fn len(&self) -> (r: usize)
        requires
            self.wf(),
        ensures
            r == self@.len(),
    {
        self.length
    }

    /// A number of levels for a new node: one more as long as a coin comes
    /// up heads, at most [`MAX_LEVEL`].
    fn rand_level() -> (r: usize)
        ensures
            1 <= r <= MAX_LEVEL,
    {
        let mut level: usize = 1;
        while level < MAX_LEVEL && random_u16() % 100 < PERCENT
            invariant
                1 <= level <= MAX_LEVEL,
            decreases MAX_LEVEL - level,
        {
            level = level + 1;
        }
        level
    }

    /// The node in slot `n`.
    fn node(&self, n: usize) -> (r: &SkipNode<T>)
        requires
            n < self.nodes@.len(),
            self.nodes@[n as int] is Some,
        ensures
            *r == self.nd(n),
    {
        self.nodes[n].as_ref().unwrap()
    }

    /// The value at place `k` (from 1) of the list is the `k - 1`-th value.
    proof fn lemma_view_at(&self, k: int)
        requires
            1 <= k <= self.order@.len(),
        ensures
            self@[k - 1] == self.nd(self.full()[k]).score,
    {
    }

    /// The way down to the place of `score`: for each level in use, the last
    /// node on it whose value has a smaller key than `score`, with its place.
    fn find_path(&self, score: &T) -> (res: (Vec<usize>, Vec<usize>))
        requires
            self.wf(),
        ensures
            res.0@.len() == MAX_LEVEL,
            res.1@.len() == MAX_LEVEL,
            place_for(self@, score.key(), res.1@[0] as int),
            forall|i: int| 0 <= i < self.level ==> {
                let u = #[trigger] res.0@[i];
                let f = self.fwd(u, i);
                &&& self.at@.contains_key(u)
                &&& self.at@[u] == res.1@[i]
                &&& res.1@[i] <= res.1@[0]
                &&& i < self.height(u)
                &&& f == NIL || self.at@[f] > res.1@[0]
            },
    {
        let ghost len = self.order@.len() as int;
        let ghost full = self.full();
        let ghost key = score.key();
        let mut update: Vec<usize> = Vec::new();
        let mut rank: Vec<usize> = Vec::new();
        let mut j: usize = 0;
        while j < MAX_LEVEL
            invariant
                j <= MAX_LEVEL,
                update@.len() == j,
                rank@.len() == j,
            decreases MAX_LEVEL - j,
        {
            update.push(HEAD);
            rank.push(0);
            j = j + 1;
        }
        let mut x: usize = HEAD;
        let mut r: usize = 0;
        let mut i: usize = self.level;
        proof {
            assert(full[0] == HEAD);
        }
        while i > 0
            invariant
                self.wf(),
                len == self.order@.len(),
                full == self.full(),
                key == score.key(),
                0 <= i <= self.level,
                update@.len() == MAX_LEVEL,
                rank@.len() == MAX_LEVEL,
                self.at@.contains_key(x),
                self.at@[x] == r,
                i < self.height(x) || (i == self.level && x == HEAD),
                x != HEAD ==> self@[r - 1].key() < key,
                forall|l: int| i <= l < self.level ==> {
                    let u = #[trigger] update@[l];
                    let f = self.fwd(u, l);
                    &&& self.at@.contains_key(u)
                    &&& self.at@[u] == rank@[l]
                    &&& rank@[l] <= r
                    &&& l < self.height(u)
                    &&& (u != HEAD ==> self@[rank@[l] - 1].key() < key)
                    &&& (f == NIL || self.nd(f).score.key() >= key)
                },
            decreases i,
        {
            i = i - 1;
            proof {
                assert(full[self.at@[x]] == x);
            }
            loop
                invariant
                    self.wf(),
                    len == self.order@.len(),
                    full == self.full(),
                    key == score.key(),
                    i < self.level,
                    self.at@.contains_key(x),
                    self.at@[x] == r,
                    i < self.height(x),
                    x != HEAD ==> self@[r - 1].key() < key,
                    update@.len() == MAX_LEVEL,
                    rank@.len() == MAX_LEVEL,
                    forall|l: int| i < l < self.level ==> {
                        let u = #[trigger] update@[l];
                        let f = self.fwd(u, l);
                        &&& self.at@.contains_key(u)
                        &&& self.at@[u] == rank@[l]
                        &&& rank@[l] <= r
                        &&& l < self.height(u)
                        &&& (u != HEAD ==> self@[rank@[l] - 1].key() < key)
                        &&& (f == NIL || self.nd(f).score.key() >= key)
                    },
                ensures
                    self.at@.contains_key(x),
                    self.at@[x] == r,
                    i < self.height(x),
                    x != HEAD ==> self@[r - 1].key() < key,
                    self.fwd(x, i as int) == NIL || self.nd(self.fwd(x, i as int)).score.key() >= key,
                    forall|l: int| i < l < self.level ==> {
                        let u = #[trigger] update@[l];
                        let f = self.fwd(u, l);
                        &&& self.at@.contains_key(u)
                        &&& self.at@[u] == rank@[l]
                        &&& rank@[l] <= r
                        &&& l < self.height(u)
                        &&& (u != HEAD ==> self@[rank@[l] - 1].key() < key)
                        &&& (f == NIL || self.nd(f).score.key() >= key)
                    },
                decreases len - r,
            {
                let ghost k = r as int;
                proof {
                    assert(full[k] == x);
                    assert(self.link_ok(k, i as int));
                }
                let lv = &self.node(x).levels[i];
                let f = lv.forward;
                if f == NIL {
                    break;
                }
                proof {
                    assert(full[self.at@[f]] == f);
                    self.lemma_view_at(self.at@[f]);
                }
                if !self.node(f).score.lt(score) {
                    break;
                }
                r = r + lv.span;
                x = f;
            }
            update.set(i, x);
            rank.set(i, r);
            proof {
                let k = r as int;
                assert(full[k] == x);
                assert(self.link_ok(k, i as int));
            }
        }
        proof {
            let p = rank@[0] as int;
            let u = update@[0];
            assert(full[p] == u);
            assert(self.link_ok(p, 0));
            let f = self.fwd(u, 0);
            if f == NIL {
                assert(p == len) by {
                    if p < len {
                        assert(1 <= self.height(full[p + 1]));
                    }
                }
            } else {
                assert(self.at@[f] == p + 1) by {
                    if self.at@[f] > p + 1 {
                        assert(1 <= self.height(full[p + 1]));
                    }
                }
                assert(full[p + 1] == f);
                self.lemma_view_at(p + 1);
            }
            assert forall|j: int| 0 <= j < p implies (#[trigger] self@[j]).key() < key by {
                assert(self@[j].key() <= self@[p - 1].key());
            }
            assert forall|j: int| p <= j < self@.len() implies (#[trigger] self@[j]).key() >= key by {
                assert(self@[p].key() <= self@[j].key());
            }
            assert forall|l: int| 0 <= l < self.level implies {
                let u = #[trigger] update@[l];
                let f = self.fwd(u, l);
                &&& self.at@.contains_key(u)
                &&& self.at@[u] == rank@[l]
                &&& rank@[l] <= rank@[0]
                &&& l < self.height(u)
                &&& f == NIL || self.at@[f] > rank@[0]
            } by {
                let u = update@[l];
                let f = self.fwd(u, l);
                let k = rank@[l] as int;
                assert(full[k] == u);
                assert(self.link_ok(k, l));
                if f != NIL {
                    assert(full[self.at@[f]] == f);
                    self.lemma_view_at(self.at@[f]);
                    if self.at@[f] <= p {
                        assert(self@[self.at@[f] - 1].key() < key);
                    }
                }
            }
        }
        (update, rank)
    }

    /// What level `i` of node `n` becomes when a node in slot `s` goes in at
    /// place `p` of the values, with `lvl` levels, on the way `upd`, `rk`.
    pub closed spec fn level_after_insert(&self, upd: Seq<usize>, rk: Seq<usize>, s: usize, p: int, lvl: int, n: usize, i: int) -> LevelType {
        if i < lvl && n == upd[i] {
            LevelType { forward: s, span: (p - rk[i] + 1) as usize }
        } else if lvl <= i < self.level && n == upd[i] {
            LevelType { forward: self.fwd(n, i), span: (self.span(n, i) + 1) as usize }
        } else {
            self.nd(n).levels@[i]
        }
    }

    /// The levels of a node going in at place `p`, with `lvl` levels, on the
    /// way `upd`, `rk`.
    pub closed spec fn new_node_level(&self, upd: Seq<usize>, rk: Seq<usize>, p: int, i: int) -> LevelType {
        if i < self.level {
            LevelType { forward: self.fwd(upd[i], i), span: (self.span(upd[i], i) - (p - rk[i])) as usize }
        } else {
            LevelType { forward: NIL, span: (self.order@.len() - p) as usize }
        }
    }

    /// The way found by `find_path` for a value of key `key`, filled up to
    /// `lvl` levels with the header.
    pub closed spec fn path_ok(&self, upd: Seq<usize>, rk: Seq<usize>, key: int, lvl: int) -> bool {
        &&& upd.len() == MAX_LEVEL
        &&& rk.len() == MAX_LEVEL
        &&& 1 <= lvl <= MAX_LEVEL
        &&& place_for(self@, key, rk[0] as int)
        &&& forall|i: int| 0 <= i < self.level ==> {
            let u = #[trigger] upd[i];
            let f = self.fwd(u, i);
            &&& self.at@.contains_key(u)
            &&& self.at@[u] == rk[i]
            &&& rk[i] <= rk[0]
            &&& i < self.height(u)
            &&& f == NIL || self.at@[f] > rk[0]
        }
        &&& forall|i: int| self.level <= i < lvl ==> #[trigger] upd[i] == HEAD && rk[i] == 0
    }

    /// On the way to place `p`, the node of level `i` is the only one at that
    /// level whose link at level `i` goes past `p`.
    proof fn lemma_path_unique(&self, upd: Seq<usize>, rk: Seq<usize>, key: int, lvl: int, k: int, i: int)
        requires
            self.wf(),
            self.path_ok(upd, rk, key, lvl),
            0 <= i < self.level,
            0 <= k <= rk[0],
            i < self.height(self.full()[k]),
            ({
                let f = self.fwd(self.full()[k], i);
                f == NIL || self.at@[f] > rk[0]
            }),
        ensures
            self.full()[k] == upd[i],
            k == rk[i],
    {
        let full = self.full();
        let u = upd[i];
        let ku = rk[i] as int;
        assert(full[ku] == u);
        assert(self.link_ok(k, i));
        assert(self.link_ok(ku, i));
        if k < ku {
            assert(self.height(full[ku]) > i);
        } else if k > ku {
            assert(self.height(full[k]) > i);
        }
    }

    /// The places of the nodes after a node in slot `s` goes in at place
    /// `p` of the values.
    pub closed spec fn at_after_insert(&self, s: usize, p: int) -> Map<usize, int> {
        Map::new(
            |n: usize| self.at@.contains_key(n) || n == s,
            |n: usize| if n == s { p + 1 } else if self.at@[n] > p { self.at@[n] + 1 } else { self.at@[n] },
        )
    }

    /// The relation between `a`, before a node in slot `s` goes in at place
    /// `p` with `lvl` levels on the way `upd`, `rk`, and `b`, after.
    pub closed spec fn insert_step(a: &Self, b: &Self, upd: Seq<usize>, rk: Seq<usize>, s: usize, lvl: int) -> bool {
        let p = rk[0] as int;
        &&& a.order@.len() + 1 < usize::MAX
        &&& b.order@ == a.order@.insert(p, s)
        &&& b.at@ == a.at_after_insert(s, p)
        &&& b.level == (if lvl > a.level { lvl as usize } else { a.level })
        &&& !a.at@.contains_key(s)
        &&& s != NIL
        &&& s < b.nodes@.len()
        &&& b.nodes@[s as int] is Some
        &&& b.height(s) == lvl
        &&& forall|i: int| 0 <= i < lvl ==> #[trigger] b.nd(s).levels@[i] == a.new_node_level(upd, rk, p, i)
        &&& forall|n: usize| #[trigger] a.at@.contains_key(n) ==> n < b.nodes@.len() && b.nodes@[n as int] is Some
            && b.height(n) == a.height(n)
        &&& forall|n: usize, i: int| a.at@.contains_key(n) && 0 <= i < a.height(n)
            ==> #[trigger] b.nd(n).levels@[i] == a.level_after_insert(upd, rk, s, p, lvl, n, i)
    }

    /// Facts on the places of nodes after a node goes in at place `p`.
    proof fn lemma_insert_full(a: &Self, b: &Self, upd: Seq<usize>, rk: Seq<usize>, s: usize, lvl: int)
        requires
            Self::insert_step(a, b, upd, rk, s, lvl),
            0 <= rk[0] <= a.order@.len(),
        ensures
            b.full().len() == a.full().len() + 1,
            b.full()[rk[0] + 1] == s,
            forall|m: int| 0 <= m <= rk[0] ==> #[trigger] b.full()[m] == a.full()[m],
            forall|m: int| rk[0] + 1 < m <= a.order@.len() + 1 ==> #[trigger] b.full()[m] == a.full()[m - 1],
    {
        let p = rk[0] as int;
        a.order@.insert_ensures(p, s);
        assert(b.full() =~= a.full().insert(p + 1, s));
        a.full().insert_ensures(p + 1, s);
    }

    /// After a node goes in, its own link at level `i` is right.
    #[verifier::spinoff_prover]
    proof fn lemma_insert_link_new(a: &Self, b: &Self, upd: Seq<usize>, rk: Seq<usize>, key: int, s: usize, lvl: int, i: int)
        requires
            a.wf(),
            a.path_ok(upd, rk, key, lvl),
            Self::insert_step(a, b, upd, rk, s, lvl),
            0 <= i < lvl,
        ensures
            b.link_ok(rk[0] + 1, i),
    {
        let p = rk[0] as int;
        let k = p + 1;
        let len = a.order@.len() as int;
        let fa = a.full();
        let fb = b.full();
        Self::lemma_insert_full(a, b, upd, rk, s, lvl);
        let lv = a.new_node_level(upd, rk, p, i);
        assert(b.nd(s).levels@[i] == lv);
        if i < a.level {
            let u = upd[i];
            let ku = rk[i] as int;
            let f = a.fwd(u, i);
            assert(fa[ku] == u);
            assert(a.link_ok(ku, i));
            if f == NIL {
                assert forall|m: int| k < m <= len + 1 implies b.height(#[trigger] fb[m]) <= i by {
                    assert(fb[m] == fa[m - 1]);
                    assert(a.height(fa[m - 1]) <= i);
                }
            } else {
                assert(fa[a.at@[f]] == f);
                assert(b.at@[f] == a.at@[f] + 1);
                assert forall|m: int| k < m < b.at@[f] implies b.height(#[trigger] fb[m]) <= i by {
                    assert(fb[m] == fa[m - 1]);
                    assert(a.height(fa[m - 1]) <= i);
                }
            }
        } else {
            assert forall|m: int| k < m <= len + 1 implies b.height(#[trigger] fb[m]) <= i by {
                assert(fb[m] == fa[m - 1]);
                assert(1 <= a.height(fa[m - 1]) <= a.level);
            }
        }
    }

    /// After a node goes in, the link at level `i` of a node on the way to
    /// it is right.
    #[verifier::spinoff_prover]
    proof fn lemma_insert_link_path(a: &Self, b: &Self, upd: Seq<usize>, rk: Seq<usize>, key: int, s: usize, lvl: int, ka: int, i: int)
        requires
            a.wf(),
            a.path_ok(upd, rk, key, lvl),
            Self::insert_step(a, b, upd, rk, s, lvl),
            0 <= ka <= rk[0],
            0 <= i < a.height(a.full()[ka]),
            a.full()[ka] == upd[i],
            i < lvl || i < a.level,
        ensures
            b.link_ok(ka, i),
    {
        let p = rk[0] as int;
        let k = ka;
        let len = a.order@.len() as int;
        let fa = a.full();
        let fb = b.full();
        Self::lemma_insert_full(a, b, upd, rk, s, lvl);
        let n = fa[ka];
        assert(a.at@.contains_key(n));
        assert(a.at@[n] == ka);
        assert(fb[k] == n);
        let lv = a.level_after_insert(upd, rk, s, p, lvl, n, i);
        assert(b.nd(n).levels@[i] == lv);
        assert(a.link_ok(ka, i));
        let f = a.fwd(n, i);
        if i < lvl {
            if i < a.level {
                assert(ka == rk[i]);
            } else {
                assert(n == HEAD) by {
                    if ka > 0 {
                        assert(a.height(fa[ka]) <= a.level);
                    }
                }
                assert(fa[0] == HEAD);
                assert(ka == 0);
                assert(rk[i] == 0);
            }
            assert forall|m: int| k < m < p + 1 implies b.height(#[trigger] fb[m]) <= i by {
                assert(fb[m] == fa[m]);
                if i < a.level {
                    if f != NIL {
                        assert(a.at@[f] > p);
                    }
                    assert(a.height(fa[m]) <= i);
                } else {
                    assert(1 <= a.height(fa[m]) <= a.level);
                }
            }
            assert(b.at@[s] == p + 1);
            assert(b.span(n, i) == p + 1 - ka);
            assert(b.fwd(n, i) == s);
        } else {
            assert(ka == rk[i]);
            if f == NIL {
                assert forall|m: int| k < m <= len + 1 implies b.height(#[trigger] fb[m]) <= i by {
                    if m <= p {
                        assert(fb[m] == fa[m]);
                        assert(a.height(fa[m]) <= i);
                    } else if m > p + 1 {
                        assert(fb[m] == fa[m - 1]);
                        assert(a.height(fa[m - 1]) <= i);
                    }
                }
            } else {
                assert(fa[a.at@[f]] == f);
                assert(b.at@[f] == a.at@[f] + 1);
                assert forall|m: int| k < m < b.at@[f] implies b.height(#[trigger] fb[m]) <= i by {
                    if m <= p {
                        assert(fb[m] == fa[m]);
                        assert(a.height(fa[m]) <= i);
                    } else if m > p + 1 {
                        assert(fb[m] == fa[m - 1]);
                        assert(a.height(fa[m - 1]) <= i);
                    }
                }
            }
        }
    }

    /// After a node goes in, the link at level `i` of a node off the way to
    /// it is right.
    #[verifier::spinoff_prover]
    proof fn lemma_insert_link_other(a: &Self, b: &Self, upd: Seq<usize>, rk: Seq<usize>, key: int, s: usize, lvl: int, ka: int, i: int)
        requires
            a.wf(),
            a.path_ok(upd, rk, key, lvl),
            Self::insert_step(a, b, upd, rk, s, lvl),
            0 <= ka <= a.order@.len(),
            0 <= i < a.height(a.full()[ka]),
            !((i < lvl || i < a.level) && a.full()[ka] == upd[i]),
        ensures
            b.link_ok(if ka <= rk[0] { ka } else { ka + 1 }, i),
    {
        let p = rk[0] as int;
        let k = if ka <= p { ka } else { ka + 1 };
        let len = a.order@.len() as int;
        let fa = a.full();
        let fb = b.full();
        Self::lemma_insert_full(a, b, upd, rk, s, lvl);
        let n = fa[ka];
        assert(a.at@.contains_key(n));
        assert(a.at@[n] == ka);
        assert(fb[k] == n);
        let lv = a.level_after_insert(upd, rk, s, p, lvl, n, i);
        assert(lv == a.nd(n).levels@[i]);
        assert(b.nd(n).levels@[i] == lv);
        assert(a.link_ok(ka, i));
        let f = a.fwd(n, i);
        if ka <= p {
            if i < a.level {
                if f == NIL || a.at@[f] > p {
                    a.lemma_path_unique(upd, rk, key, lvl, ka, i);
                }
                assert(fa[a.at@[f]] == f);
                assert(b.at@[f] == a.at@[f]);
                assert forall|m: int| k < m < b.at@[f] implies b.height(#[trigger] fb[m]) <= i by {
                    assert(fb[m] == fa[m]);
                    assert(a.height(fa[m]) <= i);
                }
            } else {
                assert(n == HEAD) by {
                    if ka > 0 {
                        assert(a.height(fa[ka]) <= a.level);
                    }
                }
                assert(f == NIL) by {
                    if f != NIL {
                        assert(fa[a.at@[f]] == f);
                        assert(a.height(fa[a.at@[f]]) <= a.level);
                    }
                }
                assert forall|m: int| k < m <= len + 1 implies b.height(#[trigger] fb[m]) <= i by {
                    if m != p + 1 {
                        let ma = if m <= p { m } else { m - 1 };
                        assert(fb[m] == fa[ma]);
                        assert(1 <= a.height(fa[ma]) <= a.level);
                    }
                }
            }
        } else {
            if f == NIL {
                assert forall|m: int| k < m <= len + 1 implies b.height(#[trigger] fb[m]) <= i by {
                    assert(fb[m] == fa[m - 1]);
                    assert(a.height(fa[m - 1]) <= i);
                }
            } else {
                assert(fa[a.at@[f]] == f);
                assert(b.at@[f] == a.at@[f] + 1);
                assert forall|m: int| k < m < b.at@[f] implies b.height(#[trigger] fb[m]) <= i by {
                    assert(fb[m] == fa[m - 1]);
                    assert(a.height(fa[m - 1]) <= i);
                }
            }
        }
    }

    /// After a node goes in, every link of every node is right.
    proof fn lemma_insert_links(a: &Self, b: &Self, upd: Seq<usize>, rk: Seq<usize>, key: int, s: usize, lvl: int)
        requires
            a.wf(),
            a.path_ok(upd, rk, key, lvl),
            Self::insert_step(a, b, upd, rk, s, lvl),
        ensures
            forall|k: int, i: int| 0 <= k <= b.order@.len() && 0 <= i < b.height(#[trigger] b.full()[k]) ==> #[trigger] b.link_ok(k, i),
    {
        let p = rk[0] as int;
        let fa = a.full();
        let fb = b.full();
        Self::lemma_insert_full(a, b, upd, rk, s, lvl);
        assert forall|k: int, i: int| 0 <= k <= b.order@.len() && 0 <= i < b.height(#[trigger] fb[k]) implies #[trigger] b.link_ok(k, i) by {
            if k == p + 1 {
                Self::lemma_insert_link_new(a, b, upd, rk, key, s, lvl, i);
            } else {
                let ka = if k <= p { k } else { k - 1 };
                assert(fb[k] == fa[ka]);
                assert(a.at@.contains_key(fa[ka]));
                if (i < lvl || i < a.level) && fa[ka] == upd[i] {
                    if i < a.level {
                        assert(ka == rk[i]);
                    } else {
                        assert(ka == 0) by {
                            if ka > 0 {
                                assert(a.height(fa[ka]) <= a.level);
                            }
                        }
                    }
                    Self::lemma_insert_link_path(a, b, upd, rk, key, s, lvl, ka, i);
                } else {
                    Self::lemma_insert_link_other(a, b, upd, rk, key, s, lvl, ka, i);
                }
            }
        }
    }

    /// After a node goes in, the places are right.
    #[verifier::spinoff_prover]
    proof fn lemma_insert_places(a: &Self, b: &Self, upd: Seq<usize>, rk: Seq<usize>, key: int, s: usize, lvl: int)
        requires
            a.wf(),
            a.path_ok(upd, rk, key, lvl),
            Self::insert_step(a, b, upd, rk, s, lvl),
        ensures
            b.full().no_duplicates(),
            forall|k: int| 1 <= k <= b.order@.len() ==> #[trigger] b.full()[k] != HEAD,
            forall|k: int| 0 <= k <= b.order@.len() ==> #[trigger] b.full()[k] < b.nodes@.len() && b.nodes@[b.full()[k] as int] is Some,
            forall|n: usize| #[trigger] b.at@.contains_key(n) ==> 0 <= b.at@[n] <= b.order@.len() && b.full()[b.at@[n]] == n,
            forall|k: int| 1 <= k <= b.order@.len() ==> 1 <= #[trigger] b.height(b.full()[k]) <= b.level,
    {
        let p = rk[0] as int;
        let len = a.order@.len() as int;
        let fa = a.full();
        let fb = b.full();
        Self::lemma_insert_full(a, b, upd, rk, s, lvl);
        assert forall|x: int, y: int| 0 <= x < y < fb.len() implies fb[x] != fb[y] by {
            let xa = if x <= p { x } else { x - 1 };
            let ya = if y <= p { y } else { y - 1 };
            if x != p + 1 && y != p + 1 {
                assert(fb[x] == fa[xa]);
                assert(fb[y] == fa[ya]);
            } else if x == p + 1 {
                assert(fb[y] == fa[ya]);
                assert(a.at@.contains_key(fa[ya]));
            } else {
                assert(fb[x] == fa[xa]);
                assert(a.at@.contains_key(fa[xa]));
            }
        }
        assert forall|k: int| 0 <= k <= len + 1 implies #[trigger] fb[k] < b.nodes@.len() && b.nodes@[fb[k] as int] is Some by {
            if k != p + 1 {
                let ka = if k <= p { k } else { k - 1 };
                assert(fb[k] == fa[ka]);
                assert(a.at@.contains_key(fa[ka]));
            }
        }
        assert forall|k: int| 1 <= k <= len + 1 implies #[trigger] fb[k] != HEAD by {
            if k != p + 1 {
                let ka = if k <= p { k } else { k - 1 };
                assert(fb[k] == fa[ka]);
            }
        }
        assert forall|n: usize| #[trigger] b.at@.contains_key(n) implies 0 <= b.at@[n] <= len + 1 && fb[b.at@[n]] == n by {
            if n != s {
                assert(fa[a.at@[n]] == n);
            }
        }
        assert forall|k: int| 1 <= k <= len + 1 implies 1 <= #[trigger] b.height(fb[k]) <= b.level by {
            if k != p + 1 {
                let ka = if k <= p { k } else { k - 1 };
                assert(fb[k] == fa[ka]);
                assert(a.at@.contains_key(fa[ka]));
                assert(1 <= a.height(fa[ka]) <= a.level);
            }
        }
    }

    /// After a node goes in, the back links are right.
    #[verifier::spinoff_prover]
    proof fn lemma_insert_backward(a: &Self, b: &Self, upd: Seq<usize>, rk: Seq<usize>, key: int, s: usize, lvl: int)
        requires
            a.wf(),
            a.path_ok(upd, rk, key, lvl),
            Self::insert_step(a, b, upd, rk, s, lvl),
            b.nd(s).backward == (if rk[0] == 0 { NIL } else { upd[0] }),
            a.fwd(upd[0], 0) != NIL ==> b.nd(a.fwd(upd[0], 0)).backward == s,
            forall|n: usize| #[trigger] a.at@.contains_key(n) && n != a.fwd(upd[0], 0) ==> b.nd(n).backward == a.nd(n).backward,
            b.tail == (if a.fwd(upd[0], 0) == NIL { s } else { a.tail }),
        ensures
            forall|k: int| 1 <= k <= b.order@.len() ==> #[trigger] b.nd(b.full()[k]).backward == (if k == 1 { NIL } else { b.full()[k - 1] }),
            b.tail == (if b.order@.len() == 0 { NIL } else { b.full()[b.order@.len() as int] }),
    {
        let p = rk[0] as int;
        let len = a.order@.len() as int;
        let fa = a.full();
        let fb = b.full();
        Self::lemma_insert_full(a, b, upd, rk, s, lvl);
        let f0 = a.fwd(upd[0], 0);
        assert(fa[p] == upd[0]);
        assert(a.link_ok(p, 0));
        if f0 == NIL {
            assert(p == len) by {
                if p < len {
                    assert(1 <= a.height(fa[p + 1]));
                }
            }
        } else {
            assert(a.at@[f0] == p + 1) by {
                if a.at@[f0] > p + 1 {
                    assert(1 <= a.height(fa[p + 1]));
                }
            }
            assert(fa[p + 1] == f0);
        }
        assert forall|k: int| 1 <= k <= len + 1 implies #[trigger] b.nd(fb[k]).backward == (if k == 1 { NIL } else { fb[k - 1] }) by {
            if k == p + 1 {
                if p > 0 {
                    assert(fb[p] == fa[p]);
                }
            } else if k == p + 2 {
                assert(fb[k] == fa[p + 1]);
                assert(f0 != NIL);
            } else {
                let ka = if k <= p { k } else { k - 1 };
                assert(fb[k] == fa[ka]);
                assert(a.at@.contains_key(fa[ka]));
                assert(fa[ka] != f0) by {
                    if f0 != NIL {
                        assert(a.at@[f0] == p + 1);
                    }
                }
                assert(a.nd(fa[ka]).backward == (if ka == 1 { NIL } else { fa[ka - 1] }));
                if ka > 1 {
                    assert(fb[k - 1] == fa[ka - 1]);
                }
            }
        }
        if f0 != NIL {
            assert(fb[len + 1] == fa[len]);
        }
    }

    /// After a node holding `score` goes in at its place, the values are the
    /// old ones with `score` put in at that place, still sorted.
    #[verifier::spinoff_prover]
    proof fn lemma_insert_view(a: &Self, b: &Self, upd: Seq<usize>, rk: Seq<usize>, score: T, s: usize, lvl: int)
        requires
            a.wf(),
            a.path_ok(upd, rk, score.key(), lvl),
            Self::insert_step(a, b, upd, rk, s, lvl),
            b.nd(s).score == score,
            forall|n: usize| #[trigger] a.at@.contains_key(n) ==> b.nd(n).score == a.nd(n).score,
        ensures
            b@ == a@.insert(rk[0] as int, score),
            sorted_by_key(b@),
    {
        let p = rk[0] as int;
        let fa = a.full();
        a.order@.insert_ensures(p, s);
        a@.insert_ensures(p, score);
        assert forall|j: int| 0 <= j < b@.len() implies #[trigger] b@[j] == a@.insert(p, score)[j] by {
            if j < p {
                assert(b.order@[j] == a.order@[j]);
                assert(a.at@.contains_key(a.order@[j])) by {
                    assert(fa[j + 1] == a.order@[j]);
                }
            } else if j > p {
                assert(b.order@[j] == a.order@[j - 1]);
                assert(a.at@.contains_key(a.order@[j - 1])) by {
                    assert(fa[j] == a.order@[j - 1]);
                }
            }
        }
        assert(b@ =~= a@.insert(p, score));
        let v = a@;
        let w = b@;
        assert forall|x: int, y: int| 0 <= x <= y < w.len() implies (#[trigger] w[x]).key() <= (#[trigger] w[y]).key() by {
            if x != p && y != p {
                let xa = if x < p { x } else { x - 1 };
                let ya = if y < p { y } else { y - 1 };
                assert(w[x] == v[xa]);
                assert(w[y] == v[ya]);
            } else if x == p && y != p {
                assert(w[y] == v[y - 1]);
            } else if x != p {
                assert(w[x] == v[x]);
            }
        }
    }

    /// After a node holding `score` goes in on the way `upd`, `rk`, the
    /// list is well formed and holds `score` at its place.
    proof fn lemma_insert_wf(a: &Self, b: &Self, upd: Seq<usize>, rk: Seq<usize>, score: T, s: usize, lvl: int)
        requires
            a.wf(),
            a.path_ok(upd, rk, score.key(), lvl),
            Self::insert_step(a, b, upd, rk, s, lvl),
            b.length == a.length + 1,
            b.nodes@.len() < NIL,
            b.nd(s).score == score,
            forall|n: usize| #[trigger] a.at@.contains_key(n) ==> b.nd(n).score == a.nd(n).score,
            b.nd(s).backward == (if rk[0] == 0 { NIL } else { upd[0] }),
            a.fwd(upd[0], 0) != NIL ==> b.nd(a.fwd(upd[0], 0)).backward == s,
            forall|n: usize| #[trigger] a.at@.contains_key(n) && n != a.fwd(upd[0], 0) ==> b.nd(n).backward == a.nd(n).backward,
            b.tail == (if a.fwd(upd[0], 0) == NIL { s } else { a.tail }),
            forall|n: int| 0 <= n < b.nodes@.len() && #[trigger] b.nodes@[n] is Some ==> a.at@.contains_key(n as usize) || n == s,
            b.nodes@.len() == b.length + 1 + b.free@.len(),
            b.free@.no_duplicates(),
            forall|j: int| 0 <= j < b.free@.len() ==> #[trigger] b.free@[j] < b.nodes@.len() && b.nodes@[b.free@[j] as int] is None,
            forall|n: int| 0 <= n < b.nodes@.len() && #[trigger] b.nodes@[n] is None ==> b.free@.contains(n as usize),
        ensures
            b.wf(),
            b@ == a@.insert(rk[0] as int, score),
    {
        let key = score.key();
        Self::lemma_insert_full(a, b, upd, rk, s, lvl);
        Self::lemma_insert_places(a, b, upd, rk, key, s, lvl);
        Self::lemma_insert_links(a, b, upd, rk, key, s, lvl);
        Self::lemma_insert_backward(a, b, upd, rk, key, s, lvl);
        Self::lemma_insert_view(a, b, upd, rk, score, s, lvl);
        assert(a.at@.contains_key(HEAD)) by {
            assert(a.full()[0] == HEAD);
        }
        assert forall|n: int| 0 <= n < b.nodes@.len() && #[trigger] b.nodes@[n] is Some implies b.at@.contains_key(n as usize) by {
        }
    }

    /// Sets level `i` of the node in slot `n` to `lv`.
    fn set_level(&mut self, n: usize, i: usize, lv: LevelType)
        requires
            n < old(self).nodes@.len(),
            old(self).nodes@[n as int] is Some,
            i < old(self).height(n),
        ensures
            final(self).nodes@.len() == old(self).nodes@.len(),
            final(self).nodes@[n as int] is Some,
            final(self).nd(n).score == old(self).nd(n).score,
            final(self).nd(n).backward == old(self).nd(n).backward,
            final(self).nd(n).levels@ == old(self).nd(n).levels@.update(i as int, lv),
            forall|m: int| 0 <= m < old(self).nodes@.len() && m != n ==> #[trigger] final(self).nodes@[m] == old(self).nodes@[m],
            final(self).level == old(self).level,
            final(self).length == old(self).length,
            final(self).free == old(self).free,
            final(self).tail == old(self).tail,
            final(self).order == old(self).order,
            final(self).at == old(self).at,
    {
        let slot = &mut self.nodes[n];
        match slot {
            Some(node) => {
                node.levels.set(i, lv);
            },
            None => {},
        }
    }

    /// Sets the back link of the node in slot `n` to `b`.
    fn set_backward(&mut self, n: usize, b: usize)
        requires
            n < old(self).nodes@.len(),
            old(self).nodes@[n as int] is Some,
        ensures
            final(self).nodes@.len() == old(self).nodes@.len(),
            final(self).nodes@[n as int] is Some,
            final(self).nd(n).score == old(self).nd(n).score,
            final(self).nd(n).backward == b,
            final(self).nd(n).levels@ == old(self).nd(n).levels@,
            forall|m: int| 0 <= m < old(self).nodes@.len() && m != n ==> #[trigger] final(self).nodes@[m] == old(self).nodes@[m],
            final(self).level == old(self).level,
            final(self).length == old(self).length,
            final(self).free == old(self).free,
            final(self).tail == old(self).tail,
            final(self).order == old(self).order,
            final(self).at == old(self).at,
    {
        let slot = &mut self.nodes[n];
        match slot {
            Some(node) => {
                node.backward = b;
            },
            None => {},
        }
    }

    /// Stores `x` in a free slot, or in a new one, and gives the slot.
    fn put_node(&mut self, x: SkipNode<T>) -> (s: usize)
        requires
            old(self).wf(),
            old(self).length + 2 < usize::MAX,
        ensures
            old(self).free@.len() > 0 ==> s == old(self).free@.last() && final(self).free@ == old(self).free@.drop_last()
                && final(self).nodes@ == old(self).nodes@.update(s as int, Some(x)),
            old(self).free@.len() == 0 ==> s == old(self).nodes@.len() && final(self).free@ == old(self).free@
                && final(self).nodes@ == old(self).nodes@.push(Some(x)),
            final(self).level == old(self).level,
            final(self).length == old(self).length,
            final(self).tail == old(self).tail,
            final(self).order == old(self).order,
            final(self).at == old(self).at,
    {
        match self.free.pop() {
            Some(s) => {
                self.nodes.set(s, Some(x));
                s
            },
            None => {
                self.nodes.push(Some(x));
                self.nodes.len() - 1
            },
        }
    }

    /// The slot of the node holding the `j`-th value.
    pub closed spec fn slot_of(&self, j: int) -> usize {
        self.order@[j]
    }

    /// The slots of the nodes holding the values, in order.
    pub closed spec fn slots(&self) -> Seq<usize> {
        self.order@
    }

    /// Each value has a slot of its own, which names it: the slot of the
    /// `j`-th value is the `j`-th slot.
    pub proof fn lemma_slots(&self)
        requires
            self.wf(),
        ensures
            self.slots().len() == self@.len(),
            self.slots().no_duplicates(),
            forall|j: int| 0 <= j < self@.len() ==> #[trigger] self.slot_of(j) == self.slots()[j],
    {
        let full = self.full();
        assert forall|x: int, y: int| 0 <= x < y < self.slots().len() implies self.slots()[x] != self.slots()[y] by {
            assert(full[x + 1] == self.slots()[x]);
            assert(full[y + 1] == self.slots()[y]);
        }
    }

    /// The value held in the node in `slot`, which must hold one of the
    /// values.
    pub fn get_by_slot(&self, slot: usize) -> (r: &T)
        requires
            self.wf(),
            self.slots().contains(slot),
        ensures
            exists|j: int| 0 <= j < self@.len() && self.slots()[j] == slot && *r == #[trigger] self@[j],
    {
        let ghost full = self.full();
        let ghost j = choose|j: int| 0 <= j < self.slots().len() && self.slots()[j] == slot;
        proof {
            assert(full[j + 1] == slot);
            self.lemma_view_at(j + 1);
        }
        &self.node(slot).score
    }

    /// Puts `score` in at its place: after every value of smaller key and
    /// before the others. Gives the slot of the node that holds it.
    #[verifier::spinoff_prover]
    #[verifier::rlimit(100)]
    pub fn insert(&mut self, score: T) -> (slot: usize)
        requires
            old(self).wf(),
            old(self)@.len() + 3 < usize::MAX,
        ensures
            final(self).wf(),
            place_for(old(self)@, score.key(), insert_place(old(self)@, score.key())),
            final(self)@ == old(self)@.insert(insert_place(old(self)@, score.key()), score),
            slot == final(self).slot_of(insert_place(old(self)@, score.key())),
            final(self).slots() == old(self).slots().insert(insert_place(old(self)@, score.key()), slot),
            !old(self).slots().contains(slot),
    {
        let ghost a = *self;
        let (mut update, mut rank) = self.find_path(&score);
        let ghost upd0 = update@;
        let ghost rk0 = rank@;
        let p = rank[0];
        let lvl = Self::rand_level();
        let old_level = self.level;
        let new_level = if lvl > old_level { lvl } else { old_level };
        let mut i: usize = old_level;
        while i < lvl
            invariant
                old_level <= i <= new_level,
                new_level == (if lvl > old_level { lvl } else { old_level }),
                lvl <= MAX_LEVEL,
                update@.len() == MAX_LEVEL,
                rank@.len() == MAX_LEVEL,
                forall|j: int| 0 <= j < old_level ==> #[trigger] update@[j] == upd0[j] && rank@[j] == rk0[j],
                forall|j: int| old_level <= j < i ==> #[trigger] update@[j] == HEAD && rank@[j] == 0,
            decreases lvl - i,
        {
            let ghost u1 = update@;
            let ghost r1 = rank@;
            update.set(i, HEAD);
            rank.set(i, 0);
            proof {
                assert forall|j: int| old_level <= j < i + 1 implies #[trigger] update@[j] == HEAD && rank@[j] == 0 by {
                    if j < i {
                        assert(update@[j] == u1[j]);
                        assert(rank@[j] == r1[j]);
                    }
                }
                assert forall|j: int| 0 <= j < old_level implies #[trigger] update@[j] == upd0[j] && rank@[j] == rk0[j] by {
                    assert(update@[j] == u1[j]);
                    assert(rank@[j] == r1[j]);
                }
            }
            i = i + 1;
        }
        proof {
            assert(old_level > 0);
            assert(update@[0] == upd0[0] && rank@[0] == rk0[0]);
            assert(p == rk0[0]);
            a.lemma_path_extended(upd0, rk0, update@, rank@, score.key(), lvl as int);
        }
        let ghost upd = update@;
        let ghost rk = rank@;
        let mut levels: Vec<LevelType> = Vec::new();
        let mut i: usize = 0;
        while i < lvl
            invariant
                *self == a,
                a.wf(),
                a.path_ok(upd, rk, score.key(), lvl as int),
                update@ == upd,
                rank@ == rk,
                p == rk[0],
                old_level == a.level,
                i <= lvl,
                levels@.len() == i,
                forall|j: int| 0 <= j < i ==> #[trigger] levels@[j] == a.new_node_level(upd, rk, p as int, j),
            decreases lvl - i,
        {
            if i < old_level {
                let u = update[i];
                proof {
                    assert(a.full()[a.at@[u]] == u);
                    assert(a.link_ok(rk[i as int] as int, i as int));
                }
                let lv = &self.node(u).levels[i];
                let nl = LevelType { forward: lv.forward, span: lv.span - (p - rank[i]) };
                levels.push(nl);
            } else {
                let nl = LevelType { forward: NIL, span: self.length - p };
                levels.push(nl);
            }
            proof {
                assert(levels@[i as int] == a.new_node_level(upd, rk, p as int, i as int));
            }
            i = i + 1;
        }
        let u0 = update[0];
        proof {
            assert(a.full()[a.at@[u0]] == u0);
            assert(a.full()[0] == HEAD);
        }
        let f0 = self.node(u0).levels[0].forward;
        let back = if u0 == HEAD { NIL } else { u0 };
        let x = SkipNode { score, backward: back, levels };
        let ghost xg = x;
        let s = self.put_node(x);
        let ghost mid = *self;
        proof {
            assert(!a.at@.contains_key(s)) by {
                if a.at@.contains_key(s) {
                    assert(a.full()[a.at@[s]] == s);
                }
            }
        }
        self.link_in(s, &update, &rank, p, lvl, new_level, Ghost(a), Ghost(mid), Ghost(xg), Ghost(score.key()));
        proof {
            assert(a.full()[0] == HEAD);
            assert(a.at@.contains_key(HEAD));
            assert(a.at@[HEAD] == 0);
            if u0 == HEAD {
                assert(rk[0] == 0);
            } else {
                assert(rk[0] != 0) by {
                    assert(a.at@[u0] == rk[0]);
                }
            }
            assert(a.fwd(u0, 0) == f0);
            if f0 != NIL {
                assert(a.link_ok(rk[0] as int, 0));
                assert(a.at@.contains_key(f0));
            }
        }
        if f0 != NIL {
            self.set_backward(f0, s);
        } else {
            self.tail = s;
        }
        self.level = new_level;
        self.length = self.length + 1;
        proof {
            self.order = Ghost(a.order@.insert(p as int, s));
            self.at = Ghost(a.at_after_insert(s, p as int));
            let b = *self;
            assert forall|n: usize, j: int| a.at@.contains_key(n) && 0 <= j < a.height(n) implies #[trigger] b.nd(n).levels@[j]
                == a.level_after_insert(upd, rk, s, p as int, lvl as int, n, j) by {
            }
            assert(Self::insert_step(&a, &b, upd, rk, s, lvl as int));
            Self::lemma_put_node_frees(&a, &mid, &b, s, xg);
            Self::lemma_insert_wf(&a, &b, upd, rk, score, s, lvl as int);
            lemma_place(a@, score.key(), p as int);
            assert(!a.order@.contains(s)) by {
                if a.order@.contains(s) {
                    let j = choose|j: int| 0 <= j < a.order@.len() && a.order@[j] == s;
                    assert(a.full()[j + 1] == s);
                }
            }
        }
        s
    }

    /// The free slots after `put_node` gave slot `s` and the nodes went on
    /// to `b`, changing only nodes that were in use.
    proof fn lemma_put_node_frees(a: &Self, mid: &Self, b: &Self, s: usize, x: SkipNode<T>)
        requires
            a.wf(),
            a.length + 2 < usize::MAX,
            a.free@.len() > 0 ==> s == a.free@.last() && mid.free@ == a.free@.drop_last()
                && mid.nodes@ == a.nodes@.update(s as int, Some(x)),
            a.free@.len() == 0 ==> s == a.nodes@.len() && mid.free@ == a.free@
                && mid.nodes@ == a.nodes@.push(Some(x)),
            b.free == mid.free,
            b.length == a.length + 1,
            b.nodes@.len() == mid.nodes@.len(),
            b.nodes@[s as int] is Some,
            forall|n: usize| #[trigger] a.at@.contains_key(n) ==> b.nodes@[n as int] is Some,
            forall|m: int| 0 <= m < mid.nodes@.len() && !a.at@.contains_key(m as usize) ==> #[trigger] b.nodes@[m] == mid.nodes@[m],
        ensures
            b.nodes@.len() < NIL,
            s < b.nodes@.len(),
            s != NIL,
            b.nodes@.len() == b.length + 1 + b.free@.len(),
            b.free@.no_duplicates(),
            forall|j: int| 0 <= j < b.free@.len() ==> #[trigger] b.free@[j] < b.nodes@.len() && b.nodes@[b.free@[j] as int] is None,
            forall|n: int| 0 <= n < b.nodes@.len() && #[trigger] b.nodes@[n] is None ==> b.free@.contains(n as usize),
            forall|n: int| 0 <= n < b.nodes@.len() && #[trigger] b.nodes@[n] is Some ==> a.at@.contains_key(n as usize) || n == s,
    {
        let fr = a.free@;
        if fr.len() > 0 {
            assert(fr[fr.len() - 1] == s);
            assert forall|j: int| 0 <= j < b.free@.len() implies #[trigger] b.free@[j] < b.nodes@.len() && b.nodes@[b.free@[j] as int] is None by {
                assert(b.free@[j] == fr[j]);
                assert(fr[j] != s);
                assert(a.nodes@[fr[j] as int] is None);
                assert(!a.at@.contains_key(fr[j])) by {
                    if a.at@.contains_key(fr[j]) {
                        assert(a.full()[a.at@[fr[j]]] == fr[j]);
                    }
                }
            }
            assert forall|n: int| 0 <= n < b.nodes@.len() && #[trigger] b.nodes@[n] is None implies b.free@.contains(n as usize) by {
                assert(n != s);
                assert(!a.at@.contains_key(n as usize));
                assert(a.nodes@[n] is None);
                assert(fr.contains(n as usize));
                let j = choose|j: int| 0 <= j < fr.len() && fr[j] == n as usize;
                assert(j != fr.len() - 1);
                assert(b.free@[j] == n as usize);
            }
        } else {
            assert forall|n: int| 0 <= n < b.nodes@.len() && #[trigger] b.nodes@[n] is None implies b.free@.contains(n as usize) by {
                assert(n != s);
                assert(!a.at@.contains_key(n as usize));
                assert(a.nodes@[n] is None);
            }
        }
        assert forall|n: int| 0 <= n < b.nodes@.len() && #[trigger] b.nodes@[n] is Some implies a.at@.contains_key(n as usize) || n == s by {
            if !a.at@.contains_key(n as usize) && n != s {
                assert(b.nodes@[n] == mid.nodes@[n]);
                assert(mid.nodes@[n] == a.nodes@[n]);
            }
        }
    }

    /// At level 0 each node leads to the next one.
    proof fn lemma_next0(&self, k: int)
        requires
            self.wf(),
            0 <= k <= self.order@.len(),
        ensures
            self.fwd(self.full()[k], 0) == (if k < self.order@.len() { self.full()[k + 1] } else { NIL }),
            0 < self.height(self.full()[k]),
    {
        let full = self.full();
        let len = self.order@.len() as int;
        if k == 0 {
            assert(full[0] == HEAD);
        }
        assert(self.link_ok(k, 0));
        let f = self.fwd(full[k], 0);
        if f == NIL {
            if k < len {
                assert(1 <= self.height(full[k + 1]));
            }
        } else {
            assert(full[self.at@[f]] == f);
            if self.at@[f] > k + 1 {
                assert(1 <= self.height(full[k + 1]));
            }
        }
    }

    /// The values in order, each with its rank from 0.
    pub fn iter(&self) -> (res: Vec<(&T, usize)>)
        requires
            self.wf(),
        ensures
            res@.len() == self@.len(),
            forall|j: int| 0 <= j < res@.len() ==> *(#[trigger] res@[j]).0 == self@[j] && res@[j].1 == j,
    {
        let ghost len = self.order@.len() as int;
        let ghost full = self.full();
        let mut res: Vec<(&T, usize)> = Vec::new();
        proof {
            self.lemma_next0(0);
            assert(full[0] == HEAD);
        }
        let mut x = self.node(HEAD).levels[0].forward;
        let mut idx: usize = 0;
        while x != NIL
            invariant
                self.wf(),
                len == self.order@.len(),
                full == self.full(),
                idx <= len,
                x == (if idx < len { full[idx + 1] } else { NIL }),
                res@.len() == idx,
                forall|j: int| 0 <= j < idx ==> *(#[trigger] res@[j]).0 == self@[j] && res@[j].1 == j,
            decreases len - idx,
        {
            proof {
                self.lemma_next0(idx + 1);
                self.lemma_view_at(idx + 1);
            }
            let nd = self.node(x);
            res.push((&nd.score, idx));
            x = nd.levels[0].forward;
            idx = idx + 1;
        }
        res
    }

    /// The rank, from 1, of a value whose key is that of `score`, or 0 if
    /// there is none.
    pub fn get_rank(&self, score: &T) -> (r: usize)
        requires
            self.wf(),
        ensures
            r == 0 <==> forall|j: int| 0 <= j < self@.len() ==> (#[trigger] self@[j]).key() != score.key(),
            r != 0 ==> 1 <= r <= self@.len() && self@[r - 1].key() == score.key(),
    {
        let ghost len = self.order@.len() as int;
        let ghost full = self.full();
        let ghost key = score.key();
        let mut x: usize = HEAD;
        let mut r: usize = 0;
        let mut i: usize = self.level;
        proof {
            assert(full[0] == HEAD);
        }
        while i > 0
            invariant
                self.wf(),
                len == self.order@.len(),
                full == self.full(),
                key == score.key(),
                0 <= i <= self.level,
                self.at@.contains_key(x),
                self.at@[x] == r,
                i < self.height(x) || (i == self.level && x == HEAD),
                x != HEAD ==> self@[r - 1].key() < key,
                x == HEAD ==> r == 0,
                i < self.level ==> (self.fwd(x, i as int) == NIL || self.nd(self.fwd(x, i as int)).score.key() > key),
            decreases i,
        {
            i = i - 1;
            loop
                invariant
                    self.wf(),
                    len == self.order@.len(),
                    full == self.full(),
                    key == score.key(),
                    i < self.level,
                    self.at@.contains_key(x),
                    self.at@[x] == r,
                    i < self.height(x),
                    x != HEAD ==> self@[r - 1].key() <= key,
                    x == HEAD ==> r == 0,
                ensures
                    self.at@.contains_key(x),
                    self.at@[x] == r,
                    i < self.height(x),
                    x != HEAD ==> self@[r - 1].key() <= key,
                    x == HEAD ==> r == 0,
                    self.fwd(x, i as int) == NIL || self.nd(self.fwd(x, i as int)).score.key() > key,
                decreases len - r,
            {
                proof {
                    assert(full[r as int] == x);
                    assert(self.link_ok(r as int, i as int));
                }
                let lv = &self.node(x).levels[i];
                let f = lv.forward;
                if f == NIL {
                    break;
                }
                proof {
                    assert(full[self.at@[f]] == f);
                    self.lemma_view_at(self.at@[f]);
                }
                if !self.node(f).score.le(score) {
                    break;
                }
                r = r + lv.span;
                x = f;
            }
            if x != HEAD {
                proof {
                    assert(full[r as int] == x);
                    self.lemma_view_at(r as int);
                }
                if !self.node(x).score.lt(score) {
                    return r;
                }
            }
        }
        proof {
            let k = r as int;
            assert(full[k] == x);
            self.lemma_next0(k);
            let f = self.fwd(x, 0);
            if f != NIL {
                assert(full[k + 1] == f);
                self.lemma_view_at(k + 1);
            }
            assert forall|j: int| 0 <= j < self@.len() implies (#[trigger] self@[j]).key() != key by {
                if j < k {
                    assert(self@[j].key() <= self@[k - 1].key());
                } else if j > k {
                    assert(self@[k].key() <= self@[j].key());
                } else if k < len {
                    assert(self@[k].key() > key);
                }
            }
        }
        0
    }

    /// The value of rank `rank`, from 1, if there is one.
    pub fn find_by_rank(&self, rank: usize) -> (r: Option<&T>)
        requires
            self.wf(),
        ensures
            r is Some <==> 1 <= rank <= self@.len(),
            r matches Some(v) ==> *v == self@[rank - 1],
    {
        let ghost len = self.order@.len() as int;
        let ghost full = self.full();
        let mut x: usize = HEAD;
        let mut traversed: usize = 0;
        let mut i: usize = self.level;
        proof {
            assert(full[0] == HEAD);
        }
        while i > 0
            invariant
                self.wf(),
                len == self.order@.len(),
                full == self.full(),
                0 <= i <= self.level,
                self.at@.contains_key(x),
                self.at@[x] == traversed,
                traversed <= rank,
                i < self.height(x) || (i == self.level && x == HEAD),
                i < self.level ==> (self.fwd(x, i as int) == NIL || self.at@[self.fwd(x, i as int)] > rank),
                i < self.level ==> !(traversed == rank && x != HEAD),
            decreases i,
        {
            i = i - 1;
            loop
                invariant
                    self.wf(),
                    len == self.order@.len(),
                    full == self.full(),
                    i < self.level,
                    self.at@.contains_key(x),
                    self.at@[x] == traversed,
                    traversed <= rank,
                    i < self.height(x),
                ensures
                    self.at@.contains_key(x),
                    self.at@[x] == traversed,
                    traversed <= rank,
                    i < self.height(x),
                    self.fwd(x, i as int) == NIL || self.at@[self.fwd(x, i as int)] > rank,
                decreases len - traversed,
            {
                proof {
                    assert(full[traversed as int] == x);
                    assert(self.link_ok(traversed as int, i as int));
                }
                let lv = &self.node(x).levels[i];
                let f = lv.forward;
                if f == NIL {
                    break;
                }
                if traversed + lv.span > rank {
                    break;
                }
                traversed = traversed + lv.span;
                x = f;
            }
            if traversed == rank && x != HEAD {
                proof {
                    assert(full[traversed as int] == x);
                    self.lemma_view_at(traversed as int);
                }
                return Some(&self.node(x).score);
            }
        }
        proof {
            let k = traversed as int;
            assert(full[k] == x);
            self.lemma_next0(k);
            if x == HEAD {
                assert(k == 0) by {
                    assert(self.at@[HEAD] == 0) by {
                        assert(full[self.at@[HEAD]] == HEAD);
                    }
                }
            }
            let f = self.fwd(x, 0);
            if f != NIL {
                assert(full[k + 1] == f);
                assert(self.at@[f] == k + 1) by {
                    assert(full[self.at@[f]] == f);
                }
                assert(rank < k + 1);
            } else {
                assert(k == len);
            }
            if x != HEAD {
                assert(traversed != rank);
            }
            assert(!(1 <= rank <= len));
        }
        None
    }

    /// The places of the nodes after the node `x` at place `p + 1` goes.
    pub closed spec fn at_after_remove(&self, x: usize, p: int) -> Map<usize, int> {
        Map::new(
            |n: usize| self.at@.contains_key(n) && n != x,
            |n: usize| if self.at@[n] > p + 1 { self.at@[n] - 1 } else { self.at@[n] },
        )
    }

    /// What level `i` of node `n` becomes when the node `x` is taken out on
    /// the way `upd`.
    pub closed spec fn level_after_remove(&self, upd: Seq<usize>, x: usize, n: usize, i: int) -> LevelType {
        if i < self.level && n == upd[i] {
            if self.fwd(n, i) == x {
                LevelType { forward: self.fwd(x, i), span: (self.span(n, i) + self.span(x, i) - 1) as usize }
            } else {
                LevelType { forward: self.fwd(n, i), span: (self.span(n, i) - 1) as usize }
            }
        } else {
            self.nd(n).levels@[i]
        }
    }

    /// The relation between `a`, before the node `x` after the way `upd`,
    /// `rk` is taken out, and `b`, after.
    pub closed spec fn remove_step(a: &Self, b: &Self, upd: Seq<usize>, rk: Seq<usize>, x: usize) -> bool {
        let p = rk[0] as int;
        &&& 0 <= p < a.order@.len()
        &&& a.full()[p + 1] == x
        &&& b.order@ == a.order@.remove(p)
        &&& b.at@ == a.at_after_remove(x, p)
        &&& b.level == a.level
        &&& forall|n: usize| #[trigger] a.at@.contains_key(n) && n != x ==> n < b.nodes@.len() && b.nodes@[n as int] is Some
            && b.height(n) == a.height(n)
        &&& forall|n: usize, i: int| a.at@.contains_key(n) && n != x && 0 <= i < a.height(n)
            ==> #[trigger] b.nd(n).levels@[i] == a.level_after_remove(upd, x, n, i)
    }

    /// Facts on the places of nodes after the node at place `p + 1` goes.
    proof fn lemma_remove_full(a: &Self, b: &Self, upd: Seq<usize>, rk: Seq<usize>, x: usize)
        requires
            Self::remove_step(a, b, upd, rk, x),
        ensures
            b.full().len() == a.full().len() - 1,
            forall|m: int| 0 <= m <= rk[0] ==> #[trigger] b.full()[m] == a.full()[m],
            forall|m: int| rk[0] < m < a.order@.len() ==> #[trigger] b.full()[m] == a.full()[m + 1],
    {
        let p = rk[0] as int;
        a.order@.remove_ensures(p);
        assert(b.full() =~= a.full().remove(p + 1));
        a.full().remove_ensures(p + 1);
    }

    /// After a node goes out, the link at level `i` of a node on the way to
    /// it is right.
    #[verifier::spinoff_prover]
    proof fn lemma_remove_link_path(a: &Self, b: &Self, upd: Seq<usize>, rk: Seq<usize>, key: int, x: usize, ka: int, i: int)
        requires
            a.wf(),
            a.path_ok(upd, rk, key, a.level as int),
            Self::remove_step(a, b, upd, rk, x),
            0 <= ka <= rk[0],
            0 <= i < a.level,
            a.full()[ka] == upd[i],
        ensures
            b.link_ok(ka, i),
    {
        let p = rk[0] as int;
        let len = a.order@.len() as int;
        let fa = a.full();
        let fb = b.full();
        Self::lemma_remove_full(a, b, upd, rk, x);
        let n = fa[ka];
        assert(a.at@.contains_key(n));
        assert(a.at@[n] == ka);
        assert(ka == rk[i]);
        assert(n != x);
        assert(fb[ka] == n);
        let lv = a.level_after_remove(upd, x, n, i);
        assert(b.nd(n).levels@[i] == lv);
        assert(a.link_ok(ka, i));
        let f = a.fwd(n, i);
        assert(a.at@.contains_key(x) && a.at@[x] == p + 1) by {
            assert(fa[p + 1] == x);
        }
        if f == x {
            assert(a.link_ok(p + 1, i));
            let f2 = a.fwd(x, i);
            if f2 == NIL {
                assert forall|m: int| ka < m <= len - 1 implies b.height(#[trigger] fb[m]) <= i by {
                    if m <= p {
                        assert(fb[m] == fa[m]);
                        assert(a.height(fa[m]) <= i);
                    } else {
                        assert(fb[m] == fa[m + 1]);
                        assert(a.height(fa[m + 1]) <= i);
                    }
                }
            } else {
                assert(fa[a.at@[f2]] == f2);
                assert(f2 != x);
                assert(b.at@[f2] == a.at@[f2] - 1);
                assert forall|m: int| ka < m < b.at@[f2] implies b.height(#[trigger] fb[m]) <= i by {
                    if m <= p {
                        assert(fb[m] == fa[m]);
                        assert(a.height(fa[m]) <= i);
                    } else {
                        assert(fb[m] == fa[m + 1]);
                        assert(a.height(fa[m + 1]) <= i);
                    }
                }
            }
        } else {
            if f == NIL {
                assert forall|m: int| ka < m <= len - 1 implies b.height(#[trigger] fb[m]) <= i by {
                    if m <= p {
                        assert(fb[m] == fa[m]);
                        assert(a.height(fa[m]) <= i);
                    } else {
                        assert(fb[m] == fa[m + 1]);
                        assert(a.height(fa[m + 1]) <= i);
                    }
                }
            } else {
                assert(fa[a.at@[f]] == f);
                assert(a.at@[f] > p + 1);
                assert(b.at@[f] == a.at@[f] - 1);
                assert forall|m: int| ka < m < b.at@[f] implies b.height(#[trigger] fb[m]) <= i by {
                    if m <= p {
                        assert(fb[m] == fa[m]);
                        assert(a.height(fa[m]) <= i);
                    } else {
                        assert(fb[m] == fa[m + 1]);
                        assert(a.height(fa[m + 1]) <= i);
                    }
                }
            }
        }
    }

    /// After a node goes out, the link at level `i` of a node off the way to
    /// it is right.
    #[verifier::spinoff_prover]
    proof fn lemma_remove_link_other(a: &Self, b: &Self, upd: Seq<usize>, rk: Seq<usize>, key: int, x: usize, ka: int, i: int)
        requires
            a.wf(),
            a.path_ok(upd, rk, key, a.level as int),
            Self::remove_step(a, b, upd, rk, x),
            0 <= ka <= a.order@.len(),
            ka != rk[0] + 1,
            0 <= i < a.height(a.full()[ka]),
            !(i < a.level && a.full()[ka] == upd[i]),
        ensures
            b.link_ok(if ka <= rk[0] { ka } else { ka - 1 }, i),
    {
        let p = rk[0] as int;
        let k = if ka <= p { ka } else { ka - 1 };
        let len = a.order@.len() as int;
        let fa = a.full();
        let fb = b.full();
        Self::lemma_remove_full(a, b, upd, rk, x);
        let n = fa[ka];
        assert(a.at@.contains_key(n));
        assert(a.at@[n] == ka);
        assert(a.at@.contains_key(x) && a.at@[x] == p + 1) by {
            assert(fa[p + 1] == x);
        }
        assert(n != x);
        assert(fb[k] == n);
        let lv = a.level_after_remove(upd, x, n, i);
        assert(lv == a.nd(n).levels@[i]);
        assert(b.nd(n).levels@[i] == lv);
        assert(a.link_ok(ka, i));
        let f = a.fwd(n, i);
        if ka <= p {
            if i < a.level {
                if f == NIL || a.at@[f] > p {
                    a.lemma_path_unique(upd, rk, key, a.level as int, ka, i);
                }
                assert(fa[a.at@[f]] == f);
                assert(b.at@[f] == a.at@[f]);
                assert forall|m: int| k < m < b.at@[f] implies b.height(#[trigger] fb[m]) <= i by {
                    assert(fb[m] == fa[m]);
                    assert(a.height(fa[m]) <= i);
                }
            } else {
                assert(n == HEAD) by {
                    if ka > 0 {
                        assert(a.height(fa[ka]) <= a.level);
                    }
                }
                assert(f == NIL) by {
                    if f != NIL {
                        assert(fa[a.at@[f]] == f);
                        assert(a.height(fa[a.at@[f]]) <= a.level);
                    }
                }
                assert forall|m: int| k < m <= len - 1 implies b.height(#[trigger] fb[m]) <= i by {
                    let ma = if m <= p { m } else { m + 1 };
                    assert(fb[m] == fa[ma]);
                    assert(1 <= a.height(fa[ma]) <= a.level);
                }
            }
        } else {
            if f == NIL {
                assert forall|m: int| k < m <= len - 1 implies b.height(#[trigger] fb[m]) <= i by {
                    assert(fb[m] == fa[m + 1]);
                    assert(a.height(fa[m + 1]) <= i);
                }
            } else {
                assert(fa[a.at@[f]] == f);
                assert(b.at@[f] == a.at@[f] - 1);
                assert forall|m: int| k < m < b.at@[f] implies b.height(#[trigger] fb[m]) <= i by {
                    assert(fb[m] == fa[m + 1]);
                    assert(a.height(fa[m + 1]) <= i);
                }
            }
        }
    }

    /// After a node goes out, every link of every node is right.
    proof fn lemma_remove_links(a: &Self, b: &Self, upd: Seq<usize>, rk: Seq<usize>, key: int, x: usize)
        requires
            a.wf(),
            a.path_ok(upd, rk, key, a.level as int),
            Self::remove_step(a, b, upd, rk, x),
        ensures
            forall|k: int, i: int| 0 <= k <= b.order@.len() && 0 <= i < b.height(#[trigger] b.full()[k]) ==> #[trigger] b.link_ok(k, i),
    {
        let p = rk[0] as int;
        let fa = a.full();
        let fb = b.full();
        Self::lemma_remove_full(a, b, upd, rk, x);
        a.order@.remove_ensures(p);
        assert forall|k: int, i: int| 0 <= k <= b.order@.len() && 0 <= i < b.height(#[trigger] fb[k]) implies #[trigger] b.link_ok(k, i) by {
            let ka = if k <= p { k } else { k + 1 };
            assert(fb[k] == fa[ka]);
            assert(a.at@.contains_key(fa[ka]));
            assert(fa[ka] != x) by {
                assert(fa[p + 1] == x);
            }
            if i < a.level && fa[ka] == upd[i] {
                assert(ka == rk[i]);
                Self::lemma_remove_link_path(a, b, upd, rk, key, x, ka, i);
            } else {
                Self::lemma_remove_link_other(a, b, upd, rk, key, x, ka, i);
            }
        }
    }

    /// After a node goes out, the places are right.
    #[verifier::spinoff_prover]
    proof fn lemma_remove_places(a: &Self, b: &Self, upd: Seq<usize>, rk: Seq<usize>, key: int, x: usize)
        requires
            a.wf(),
            a.path_ok(upd, rk, key, a.level as int),
            Self::remove_step(a, b, upd, rk, x),
        ensures
            b.full().no_duplicates(),
            forall|k: int| 1 <= k <= b.order@.len() ==> #[trigger] b.full()[k] != HEAD,
            forall|k: int| 0 <= k <= b.order@.len() ==> #[trigger] b.full()[k] < b.nodes@.len() && b.nodes@[b.full()[k] as int] is Some,
            forall|n: usize| #[trigger] b.at@.contains_key(n) ==> 0 <= b.at@[n] <= b.order@.len() && b.full()[b.at@[n]] == n,
            forall|k: int| 1 <= k <= b.order@.len() ==> 1 <= #[trigger] b.height(b.full()[k]) <= b.level,
    {
        let p = rk[0] as int;
        let len = a.order@.len() as int;
        let fa = a.full();
        let fb = b.full();
        Self::lemma_remove_full(a, b, upd, rk, x);
        a.order@.remove_ensures(p);
        assert(a.at@[x] == p + 1) by {
            assert(fa[p + 1] == x);
        }
        assert forall|u: int, v: int| 0 <= u < v < fb.len() implies fb[u] != fb[v] by {
            let ua = if u <= p { u } else { u + 1 };
            let va = if v <= p { v } else { v + 1 };
            assert(fb[u] == fa[ua]);
            assert(fb[v] == fa[va]);
        }
        assert forall|k: int| 0 <= k <= len - 1 implies #[trigger] fb[k] < b.nodes@.len() && b.nodes@[fb[k] as int] is Some by {
            let ka = if k <= p { k } else { k + 1 };
            assert(fb[k] == fa[ka]);
            assert(a.at@.contains_key(fa[ka]));
            assert(fa[ka] != x);
        }
        assert forall|k: int| 1 <= k <= len - 1 implies #[trigger] fb[k] != HEAD by {
            let ka = if k <= p { k } else { k + 1 };
            assert(fb[k] == fa[ka]);
        }
        assert forall|n: usize| #[trigger] b.at@.contains_key(n) implies 0 <= b.at@[n] <= len - 1 && fb[b.at@[n]] == n by {
            assert(fa[a.at@[n]] == n);
            assert(a.at@[n] != p + 1);
            if a.at@[n] > p + 1 {
                assert(fb[a.at@[n] - 1] == fa[a.at@[n]]);
            } else {
                assert(fb[a.at@[n]] == fa[a.at@[n]]);
            }
        }
        assert forall|k: int| 1 <= k <= len - 1 implies 1 <= #[trigger] b.height(fb[k]) <= b.level by {
            let ka = if k <= p { k } else { k + 1 };
            assert(fb[k] == fa[ka]);
            assert(a.at@.contains_key(fa[ka]));
            assert(fa[ka] != x);
            assert(1 <= a.height(fa[ka]) <= a.level);
        }
    }

    /// After a node goes out, the back links are right.
    #[verifier::spinoff_prover]
    proof fn lemma_remove_backward(a: &Self, b: &Self, upd: Seq<usize>, rk: Seq<usize>, key: int, x: usize)
        requires
            a.wf(),
            a.path_ok(upd, rk, key, a.level as int),
            Self::remove_step(a, b, upd, rk, x),
            a.fwd(x, 0) != NIL ==> b.nd(a.fwd(x, 0)).backward == a.nd(x).backward,
            forall|n: usize| #[trigger] a.at@.contains_key(n) && n != x && n != a.fwd(x, 0) ==> b.nd(n).backward == a.nd(n).backward,
            b.tail == (if a.fwd(x, 0) == NIL { a.nd(x).backward } else { a.tail }),
        ensures
            forall|k: int| 1 <= k <= b.order@.len() ==> #[trigger] b.nd(b.full()[k]).backward == (if k == 1 { NIL } else { b.full()[k - 1] }),
            b.tail == (if b.order@.len() == 0 { NIL } else { b.full()[b.order@.len() as int] }),
    {
        let p = rk[0] as int;
        let len = a.order@.len() as int;
        let fa = a.full();
        let fb = b.full();
        Self::lemma_remove_full(a, b, upd, rk, x);
        a.order@.remove_ensures(p);
        a.lemma_next0(p + 1);
        let f0 = a.fwd(x, 0);
        assert(a.nd(x).backward == (if p + 1 == 1 { NIL } else { fa[p] }));
        if f0 != NIL {
            assert(fa[p + 2] == f0);
            assert(a.at@[f0] == p + 2) by {
                assert(fa[a.at@[f0]] == f0);
            }
        }
        assert forall|k: int| 1 <= k <= len - 1 implies #[trigger] b.nd(fb[k]).backward == (if k == 1 { NIL } else { fb[k - 1] }) by {
            let ka = if k <= p { k } else { k + 1 };
            assert(fb[k] == fa[ka]);
            assert(a.at@.contains_key(fa[ka]));
            assert(fa[ka] != x) by {
                assert(fa[p + 1] == x);
            }
            if ka == p + 2 {
                assert(fa[ka] == f0);
                if p > 0 {
                    assert(fb[k - 1] == fa[p]);
                }
            } else {
                assert(fa[ka] != f0) by {
                    if f0 != NIL {
                        assert(a.at@[f0] == p + 2);
                        assert(a.at@[fa[ka]] == ka);
                    }
                }
                assert(a.nd(fa[ka]).backward == (if ka == 1 { NIL } else { fa[ka - 1] }));
                if ka > 1 {
                    if k <= p {
                        assert(fb[k - 1] == fa[ka - 1]);
                    } else {
                        assert(fb[k - 1] == fa[ka - 1]);
                    }
                }
            }
        }
        if f0 == NIL {
            assert(p + 1 == len);
            if p > 0 {
                assert(fb[p] == fa[p]);
            }
        } else {
            assert(fb[len - 1] == fa[len]);
        }
    }

    /// After the node at place `p + 1` goes out, the values are the old
    /// ones less the `p`-th, still sorted.
    #[verifier::spinoff_prover]
    proof fn lemma_remove_view(a: &Self, b: &Self, upd: Seq<usize>, rk: Seq<usize>, x: usize)
        requires
            a.wf(),
            Self::remove_step(a, b, upd, rk, x),
            forall|n: usize| #[trigger] a.at@.contains_key(n) && n != x ==> b.nd(n).score == a.nd(n).score,
        ensures
            b@ == a@.remove(rk[0] as int),
            sorted_by_key(b@),
    {
        let p = rk[0] as int;
        let fa = a.full();
        a.order@.remove_ensures(p);
        a@.remove_ensures(p);
        assert forall|j: int| 0 <= j < b@.len() implies #[trigger] b@[j] == a@.remove(p)[j] by {
            let ja = if j < p { j } else { j + 1 };
            assert(b.order@[j] == a.order@[ja]);
            assert(fa[ja + 1] == a.order@[ja]);
            assert(a.at@.contains_key(a.order@[ja]));
            assert(a.order@[ja] != x) by {
                assert(fa[p + 1] == x);
            }
        }
        assert(b@ =~= a@.remove(p));
        let v = a@;
        let w = b@;
        assert forall|u: int, t: int| 0 <= u <= t < w.len() implies (#[trigger] w[u]).key() <= (#[trigger] w[t]).key() by {
            let ua = if u < p { u } else { u + 1 };
            let ta = if t < p { t } else { t + 1 };
            assert(w[u] == v[ua]);
            assert(w[t] == v[ta]);
        }
    }

    /// After the node `x` goes out on the way `upd`, `rk`, the list is well
    /// formed and lacks the value `x` held.
    proof fn lemma_remove_wf(a: &Self, b: &Self, upd: Seq<usize>, rk: Seq<usize>, key: int, x: usize)
        requires
            a.wf(),
            a.path_ok(upd, rk, key, a.level as int),
            Self::remove_step(a, b, upd, rk, x),
            b.length == a.length - 1,
            b.nodes@.len() == a.nodes@.len(),
            b.nodes@[x as int] is None,
            forall|n: usize| #[trigger] a.at@.contains_key(n) && n != x ==> b.nd(n).score == a.nd(n).score,
            a.fwd(x, 0) != NIL ==> b.nd(a.fwd(x, 0)).backward == a.nd(x).backward,
            forall|n: usize| #[trigger] a.at@.contains_key(n) && n != x && n != a.fwd(x, 0) ==> b.nd(n).backward == a.nd(n).backward,
            b.tail == (if a.fwd(x, 0) == NIL { a.nd(x).backward } else { a.tail }),
            b.free@ == a.free@.push(x),
            forall|m: int| 0 <= m < a.nodes@.len() && !a.at@.contains_key(m as usize) ==> #[trigger] b.nodes@[m] == a.nodes@[m],
        ensures
            b.wf(),
            b@ == a@.remove(rk[0] as int),
    {
        let p = rk[0] as int;
        let fa = a.full();
        Self::lemma_remove_full(a, b, upd, rk, x);
        Self::lemma_remove_places(a, b, upd, rk, key, x);
        Self::lemma_remove_links(a, b, upd, rk, key, x);
        Self::lemma_remove_backward(a, b, upd, rk, key, x);
        Self::lemma_remove_view(a, b, upd, rk, x);
        assert(a.at@.contains_key(HEAD)) by {
            assert(fa[0] == HEAD);
        }
        assert(HEAD != x) by {
            assert(fa[p + 1] == x);
        }
        assert(a.at@.contains_key(x)) by {
            assert(fa[p + 1] == x);
        }
        assert(!a.free@.contains(x)) by {
            if a.free@.contains(x) {
                let j = choose|j: int| 0 <= j < a.free@.len() && a.free@[j] == x;
                assert(a.nodes@[a.free@[j] as int] is None);
            }
        }
        assert forall|j: int| 0 <= j < b.free@.len() implies #[trigger] b.free@[j] < b.nodes@.len() && b.nodes@[b.free@[j] as int] is None by {
            if j < a.free@.len() {
                assert(b.free@[j] == a.free@[j]);
                assert(a.nodes@[a.free@[j] as int] is None);
                assert(!a.at@.contains_key(a.free@[j])) by {
                    if a.at@.contains_key(a.free@[j]) {
                        assert(fa[a.at@[a.free@[j]]] == a.free@[j]);
                    }
                }
            }
        }
        assert forall|n: int| 0 <= n < b.nodes@.len() && #[trigger] b.nodes@[n] is None implies b.free@.contains(n as usize) by {
            if n != x {
                if a.at@.contains_key(n as usize) {
                    assert(b.nodes@[n] is Some);
                } else {
                    assert(a.nodes@[n] is None);
                    assert(a.free@.contains(n as usize));
                    let j = choose|j: int| 0 <= j < a.free@.len() && a.free@[j] == n as usize;
                    assert(b.free@[j] == n as usize);
                }
            } else {
                assert(b.free@[a.free@.len() as int] == x);
            }
        }
        assert forall|n: int| 0 <= n < b.nodes@.len() && #[trigger] b.nodes@[n] is Some implies b.at@.contains_key(n as usize) by {
            if !a.at@.contains_key(n as usize) {
                assert(b.nodes@[n] == a.nodes@[n]);
            }
        }
    }

    /// Dropping an empty top level keeps the list well formed.
    proof fn lemma_shrink(a: &Self, b: &Self)
        requires
            a.wf(),
            a.level > 1,
            a.fwd(HEAD, a.level - 1) == NIL,
            b == (SkipList { level: (a.level - 1) as usize, ..*a }),
        ensures
            b.wf(),
            b@ == a@,
    {
        let fa = a.full();
        assert(fa[0] == HEAD);
        assert(a.link_ok(0, a.level - 1));
        assert forall|k: int| 1 <= k <= b.order@.len() implies 1 <= #[trigger] b.height(b.full()[k]) <= b.level by {
            assert(a.height(fa[k]) <= a.level - 1);
        }
        assert forall|k: int, i: int| 0 <= k <= b.order@.len() && 0 <= i < b.height(#[trigger] b.full()[k]) implies #[trigger] b.link_ok(k, i) by {
            assert(a.link_ok(k, i));
        }
    }

    /// Takes out the node `x`, which comes right after the way `update`,
    /// `rk` to the place of `key`, and frees its slot.
    #[verifier::spinoff_prover]
    #[verifier::rlimit(100)]
    fn remove_node(&mut self, x: usize, update: &Vec<usize>, Ghost(rk): Ghost<Seq<usize>>, Ghost(key): Ghost<int>)
        requires
            old(self).wf(),
            old(self).path_ok(update@, rk, key, old(self).level as int),
            0 <= rk[0] < old(self).order@.len(),
            old(self).full()[rk[0] + 1] == x,
        ensures
            final(self).wf(),
            final(self)@ == old(self)@.remove(rk[0] as int),
            final(self).slots() == old(self).slots().remove(rk[0] as int),
    {
        let ghost a = *self;
        let ghost upd = update@;
        let ghost p = rk[0] as int;
        let ghost fa = a.full();
        proof {
            assert(a.at@.contains_key(x) && a.at@[x] == p + 1) by {
                assert(fa[p + 1] == x);
            }
        }
        let mut i: usize = 0;
        while i < self.level
            invariant
                a.wf(),
                a.path_ok(upd, rk, key, a.level as int),
                update@ == upd,
                p == rk[0],
                0 <= p < a.order@.len(),
                fa == a.full(),
                fa[p + 1] == x,
                a.at@.contains_key(x),
                a.at@[x] == p + 1,
                i <= a.level,
                self.level == a.level,
                self.length == a.length,
                self.free == a.free,
                self.tail == a.tail,
                self.order == a.order,
                self.at == a.at,
                self.nodes@.len() == a.nodes@.len(),
                self.nodes@[x as int] == a.nodes@[x as int],
                forall|m: int| 0 <= m < a.nodes@.len() && !a.at@.contains_key(m as usize) ==> #[trigger] self.nodes@[m] == a.nodes@[m],
                forall|n: usize| #[trigger] a.at@.contains_key(n) ==> self.nodes@[n as int] is Some
                    && self.nd(n).score == a.nd(n).score
                    && self.nd(n).backward == a.nd(n).backward
                    && self.height(n) == a.height(n),
                forall|n: usize, j: int| a.at@.contains_key(n) && n != x && 0 <= j < a.height(n) ==> #[trigger] self.nd(n).levels@[j]
                    == (if j < i { a.level_after_remove(upd, x, n, j) } else { a.nd(n).levels@[j] }),
            decreases a.level - i,
        {
            let u = update[i];
            proof {
                assert(fa[rk[i as int] as int] == u);
                assert(a.link_ok(rk[i as int] as int, i as int));
                assert(u != x);
                assert(self.nd(u).levels@[i as int] == a.nd(u).levels@[i as int]);
                let f = a.fwd(u, i as int);
                if f == x {
                    assert(a.link_ok(p + 1, i as int));
                    let f2 = a.fwd(x, i as int);
                    if f2 != NIL {
                        assert(a.at@[f2] <= a.order@.len());
                    }
                } else if f != NIL {
                    assert(fa[a.at@[f]] == f);
                    assert(a.at@[f] != p + 1);
                }
            }
            let fwd_u = self.node(u).levels[i].forward;
            let span_u = self.node(u).levels[i].span;
            if fwd_u == x {
                let fwd_x = self.node(x).levels[i].forward;
                let span_x = self.node(x).levels[i].span;
                self.set_level(u, i, LevelType { forward: fwd_x, span: span_u + span_x - 1 });
            } else {
                self.set_level(u, i, LevelType { forward: fwd_u, span: span_u - 1 });
            }
            i = i + 1;
        }
        proof {
            a.lemma_next0(p + 1);
            let f0 = a.fwd(x, 0);
            if f0 != NIL {
                assert(fa[p + 2] == f0);
                assert(a.at@.contains_key(f0));
            }
        }
        let f0 = self.node(x).levels[0].forward;
        let xb = self.node(x).backward;
        if f0 != NIL {
            self.set_backward(f0, xb);
        } else {
            self.tail = xb;
        }
        self.nodes.set(x, None);
        self.free.push(x);
        self.length = self.length - 1;
        proof {
            self.order = Ghost(a.order@.remove(p));
            self.at = Ghost(a.at_after_remove(x, p));
            let b = *self;
            assert forall|n: usize, j: int| a.at@.contains_key(n) && n != x && 0 <= j < a.height(n) implies #[trigger] b.nd(n).levels@[j]
                == a.level_after_remove(upd, x, n, j) by {
            }
            assert(Self::remove_step(&a, &b, upd, rk, x));
            Self::lemma_remove_wf(&a, &b, upd, rk, key, x);
        }
        while self.level > 1 && self.node(HEAD).levels[self.level - 1].forward == NIL
            invariant
                self.wf(),
                self@ == a@.remove(p),
                self.order@ == a.order@.remove(p),
            decreases self.level,
        {
            proof {
                assert(self.full()[0] == HEAD);
            }
            let ghost before = *self;
            self.level = self.level - 1;
            proof {
                Self::lemma_shrink(&before, self);
            }
        }
    }

    /// Takes out the first value whose key is that of `score`, if there is
    /// one, and says whether there was.
    pub fn remove(&mut self, score: &T) -> (r: bool)
        requires
            old(self).wf(),
        ensures
            final(self).wf(),
            place_for(old(self)@, score.key(), insert_place(old(self)@, score.key())),
            r == exists|j: int| 0 <= j < old(self)@.len() && (#[trigger] old(self)@[j]).key() == score.key(),
            r ==> final(self)@ == old(self)@.remove(insert_place(old(self)@, score.key())),
            r ==> final(self).slots() == old(self).slots().remove(insert_place(old(self)@, score.key())),
            !r ==> final(self)@ == old(self)@ && final(self).slots() == old(self).slots(),
    {
        let ghost a = *self;
        let (update, rank) = self.find_path(score);
        let ghost p = rank@[0] as int;
        let ghost key = score.key();
        proof {
            lemma_place(a@, key, p);
            assert(self.full()[p] == update@[0]);
            self.lemma_next0(p);
            assert(self.full()[0] == HEAD);
        }
        let x = self.node(update[0]).levels[0].forward;
        let found = if x == NIL {
            false
        } else {
            proof {
                self.lemma_view_at(p + 1);
            }
            !score.lt(&self.node(x).score)
        };
        proof {
            if found {
                assert(a@[p].key() == key);
            } else {
                assert forall|j: int| 0 <= j < a@.len() implies (#[trigger] a@[j]).key() != key by {
                    if j >= p {
                        assert(a@[p].key() <= a@[j].key());
                        assert(a@[p].key() > key);
                    }
                }
            }
        }
        if found {
            self.remove_node(x, &update, Ghost(rank@), Ghost(key));
            true
        } else {
            false
        }
    }

    /// Sets the value of the node in slot `n` to `v`.
    fn set_score(&mut self, n: usize, v: T)
        requires
            n < old(self).nodes@.len(),
            old(self).nodes@[n as int] is Some,
        ensures
            final(self).nodes@.len() == old(self).nodes@.len(),
            final(self).nodes@[n as int] is Some,
            final(self).nd(n).score == v,
            final(self).nd(n).backward == old(self).nd(n).backward,
            final(self).nd(n).levels@ == old(self).nd(n).levels@,
            forall|m: int| 0 <= m < old(self).nodes@.len() && m != n ==> #[trigger] final(self).nodes@[m] == old(self).nodes@[m],
            final(self).level == old(self).level,
            final(self).length == old(self).length,
            final(self).free == old(self).free,
            final(self).tail == old(self).tail,
            final(self).order == old(self).order,
            final(self).at == old(self).at,
    {
        let slot = &mut self.nodes[n];
        match slot {
            Some(node) => {
                node.score = v;
            },
            None => {},
        }
    }

    /// Putting `v` in place of the `p`-th value, where it fits between its
    /// neighbours, keeps the list well formed.
    proof fn lemma_set_in_place(a: &Self, b: &Self, p: int, v: T)
        requires
            a.wf(),
            0 <= p < a.order@.len(),
            p > 0 ==> a@[p - 1].key() < v.key(),
            p + 1 < a.order@.len() ==> v.key() < a@[p + 1].key(),
            b.nodes@.len() == a.nodes@.len(),
            b.nodes@[a.full()[p + 1] as int] is Some,
            b.nd(a.full()[p + 1]).score == v,
            b.nd(a.full()[p + 1]).backward == a.nd(a.full()[p + 1]).backward,
            b.nd(a.full()[p + 1]).levels@ == a.nd(a.full()[p + 1]).levels@,
            forall|m: int| 0 <= m < a.nodes@.len() && m != a.full()[p + 1] ==> #[trigger] b.nodes@[m] == a.nodes@[m],
            b.level == a.level,
            b.length == a.length,
            b.free == a.free,
            b.tail == a.tail,
            b.order == a.order,
            b.at == a.at,
        ensures
            b.wf(),
            b@ == a@.update(p, v),
            b@ == a@.remove(p).insert(p, v),
            place_for(a@.remove(p), v.key(), p),
    {
        let fa = a.full();
        let x = fa[p + 1];
        assert forall|n: usize| n < a.nodes@.len() && a.nodes@[n as int] is Some implies #[trigger] b.nd(n).levels@ == a.nd(n).levels@
            && b.nd(n).backward == a.nd(n).backward && b.nodes@[n as int] is Some by {
            if n != x {
                assert(b.nodes@[n as int] == a.nodes@[n as int]);
            }
        }
        assert forall|k: int| 0 <= k <= a.order@.len() implies #[trigger] b.height(fa[k]) == a.height(fa[k])
            && b.nd(fa[k]).backward == a.nd(fa[k]).backward by {
            assert(b.nd(fa[k]).levels@ == a.nd(fa[k]).levels@);
        }
        assert forall|n: usize| #[trigger] a.at@.contains_key(n) implies b.height(n) == a.height(n) by {
            assert(fa[a.at@[n]] == n);
            assert(b.nd(n).levels@ == a.nd(n).levels@);
        }
        assert forall|k: int, i: int| 0 <= k <= b.order@.len() && 0 <= i < b.height(#[trigger] b.full()[k]) implies #[trigger] b.link_ok(k, i) by {
            assert(a.link_ok(k, i));
            assert(b.nd(fa[k]).levels@ == a.nd(fa[k]).levels@);
        }
        assert forall|n: int| 0 <= n < b.nodes@.len() && #[trigger] b.nodes@[n] is Some implies b.at@.contains_key(n as usize) by {
            if n != x {
                assert(b.nodes@[n] == a.nodes@[n]);
            }
        }
        assert forall|j: int| 0 <= j < b.free@.len() implies #[trigger] b.free@[j] < b.nodes@.len() && b.nodes@[b.free@[j] as int] is None by {
            assert(a.nodes@[a.free@[j] as int] is None);
            assert(a.free@[j] != x);
        }
        assert forall|n: int| 0 <= n < b.nodes@.len() && #[trigger] b.nodes@[n] is None implies b.free@.contains(n as usize) by {
            assert(n != x);
            assert(b.nodes@[n] == a.nodes@[n]);
        }
        assert(b@ =~= a@.update(p, v)) by {
            assert forall|j: int| 0 <= j < b@.len() implies #[trigger] b@[j] == a@.update(p, v)[j] by {
                assert(fa[j + 1] == a.order@[j]);
            }
        }
        assert(a@.update(p, v) =~= a@.remove(p).insert(p, v));
        let w = b@;
        assert forall|u: int, t: int| 0 <= u <= t < w.len() implies (#[trigger] w[u]).key() <= (#[trigger] w[t]).key() by {
            if u == p && t > p {
                assert(a@[p + 1].key() <= a@[t].key());
            } else if t == p && u < p {
                assert(a@[u].key() <= a@[p - 1].key());
            }
        }
        let r = a@.remove(p);
        a@.remove_ensures(p);
        assert forall|j: int| 0 <= j < p implies (#[trigger] r[j]).key() < v.key() by {
            assert(a@[j].key() <= a@[p - 1].key());
        }
        assert forall|j: int| p <= j < r.len() implies (#[trigger] r[j]).key() >= v.key() by {
            assert(a@[p + 1].key() <= a@[j + 1].key());
        }
    }

    /// Replaces the first value whose key is that of `cur`, which must be
    /// there, by `new_score`, moved to its place; gives the slot of the node
    /// that holds it.
    #[verifier::spinoff_prover]
    #[verifier::rlimit(100)]
    pub fn update(&mut self, cur: &T, new_score: T) -> (slot: usize)
        requires
            old(self).wf(),
            old(self)@.len() + 3 < usize::MAX,
            exists|j: int| 0 <= j < old(self)@.len() && (#[trigger] old(self)@[j]).key() == cur.key(),
        ensures
            final(self).wf(),
            ({
                let p = insert_place(old(self)@, cur.key());
                let rest = old(self)@.remove(p);
                &&& place_for(old(self)@, cur.key(), p)
                &&& place_for(rest, new_score.key(), insert_place(rest, new_score.key()))
                &&& final(self)@ == rest.insert(insert_place(rest, new_score.key()), new_score)
                &&& slot == final(self).slot_of(insert_place(rest, new_score.key()))
                &&& final(self).slots() == old(self).slots().remove(p).insert(insert_place(rest, new_score.key()), slot)
                &&& !old(self).slots().remove(p).contains(slot)
            }),
    {
        let ghost a = *self;
        let (update, rank) = self.find_path(cur);
        let ghost p = rank@[0] as int;
        let ghost key = cur.key();
        let ghost fa = self.full();
        proof {
            lemma_place(a@, key, p);
            let j = choose|j: int| 0 <= j < a@.len() && (#[trigger] a@[j]).key() == key;
            assert(p < a@.len()) by {
                if p >= a@.len() {
                    assert(a@[j].key() < key);
                }
            }
            assert(fa[p] == update@[0]);
            self.lemma_next0(p);
            self.lemma_next0(p + 1);
            assert(fa[0] == HEAD);
            assert(fa[p + 1] != HEAD);
        }
        let x = self.node(update[0]).levels[0].forward;
        let xb = self.node(x).backward;
        let f0 = self.node(x).levels[0].forward;
        proof {
            assert(self.nd(x).backward == (if p + 1 == 1 { NIL } else { fa[p] }));
            if p > 0 {
                self.lemma_view_at(p);
            }
            if f0 != NIL {
                assert(fa[p + 2] == f0);
                self.lemma_view_at(p + 2);
            }
        }
        let fits_before = xb == NIL || self.node(xb).score.lt(&new_score);
        let fits_after = f0 == NIL || new_score.lt(&self.node(f0).score);
        if fits_before && fits_after {
            self.set_score(x, new_score);
            proof {
                Self::lemma_set_in_place(&a, self, p, new_score);
                lemma_place(a@.remove(p), new_score.key(), p);
                a.lemma_slots();
                assert(a.order@[p] == x);
                assert(a.order@.remove(p).insert(p, x) =~= a.order@);
                a.order@.remove_ensures(p);
                assert(!a.order@.remove(p).contains(x)) by {
                    if a.order@.remove(p).contains(x) {
                        let j = choose|j: int| 0 <= j < a.order@.len() - 1 && a.order@.remove(p)[j] == x;
                        if j < p {
                            assert(a.order@[j] == a.order@[p]);
                        } else {
                            assert(a.order@[j + 1] == a.order@[p]);
                        }
                    }
                }
            }
            return x;
        }
        proof {
            self.lemma_view_at(p + 1);
            lemma_place(a@, key, p);
        }
        self.remove_node(x, &update, Ghost(rank@), Ghost(key));
        let slot = self.insert(new_score);
        slot
    }

    /// The values of a list are always sorted by key.
    pub proof fn law_sorted(&self)
        requires
            self.wf(),
        ensures
            sorted_by_key(self@),
    {
    }

    /// The way found by `find_path`, filled up with the header from the
    /// level in use to `lvl`.
    proof fn lemma_path_extended(&self, upd0: Seq<usize>, rk0: Seq<usize>, upd: Seq<usize>, rk: Seq<usize>, key: int, lvl: int)
        requires
            upd0.len() == MAX_LEVEL,
            rk0.len() == MAX_LEVEL,
            place_for(self@, key, rk0[0] as int),
            forall|i: int| 0 <= i < self.level ==> {
                let u = #[trigger] upd0[i];
                let f = self.fwd(u, i);
                &&& self.at@.contains_key(u)
                &&& self.at@[u] == rk0[i]
                &&& rk0[i] <= rk0[0]
                &&& i < self.height(u)
                &&& f == NIL || self.at@[f] > rk0[0]
            },
            1 <= self.level,
            upd.len() == MAX_LEVEL,
            rk.len() == MAX_LEVEL,
            1 <= lvl <= MAX_LEVEL,
            forall|j: int| 0 <= j < self.level ==> #[trigger] upd[j] == upd0[j] && rk[j] == rk0[j],
            forall|j: int| self.level <= j < lvl ==> #[trigger] upd[j] == HEAD && rk[j] == 0,
        ensures
            self.path_ok(upd, rk, key, lvl),
    {
        assert(upd[0] == upd0[0] && rk[0] == rk0[0]);
        assert forall|i: int| 0 <= i < self.level implies {
            let u = #[trigger] upd[i];
            let f = self.fwd(u, i);
            &&& self.at@.contains_key(u)
            &&& self.at@[u] == rk[i]
            &&& rk[i] <= rk[0]
            &&& i < self.height(u)
            &&& f == NIL || self.at@[f] > rk[0]
        } by {
            assert(upd[i] == upd0[i] && rk[i] == rk0[i]);
        }
    }

    /// Links the new node in slot `s` at each level on the way `update`,
    /// `rank`, and lengthens the links that go past it above its height.
    #[verifier::spinoff_prover]
    fn link_in(
        &mut self,
        s: usize,
        update: &Vec<usize>,
        rank: &Vec<usize>,
        p: usize,
        lvl: usize,
        new_level: usize,
        Ghost(a): Ghost<Self>,
        Ghost(mid): Ghost<Self>,
        Ghost(xg): Ghost<SkipNode<T>>,
        Ghost(key): Ghost<int>,
    )
        requires
            a.wf(),
            a.path_ok(update@, rank@, key, lvl as int),
            p == rank@[0],
            new_level == (if lvl > a.level { lvl } else { a.level }),
            !a.at@.contains_key(s),
            s < mid.nodes@.len(),
            mid.nodes@[s as int] == Some(xg),
            forall|n: usize| #[trigger] a.at@.contains_key(n) ==> n < mid.nodes@.len() && mid.nodes@[n as int] == a.nodes@[n as int],
            *old(self) == mid,
            mid.level == a.level,
            mid.length == a.length,
            mid.tail == a.tail,
            mid.order == a.order,
            mid.at == a.at,
        ensures
            final(self).nodes@.len() == mid.nodes@.len(),
            final(self).nodes@[s as int] == Some(xg),
            forall|m: int| 0 <= m < mid.nodes@.len() && !a.at@.contains_key(m as usize) ==> #[trigger] final(self).nodes@[m] == mid.nodes@[m],
            forall|n: usize| #[trigger] a.at@.contains_key(n) ==> final(self).nodes@[n as int] is Some
                && final(self).nd(n).score == a.nd(n).score
                && final(self).nd(n).backward == a.nd(n).backward
                && final(self).height(n) == a.height(n),
            forall|n: usize, j: int| a.at@.contains_key(n) && 0 <= j < a.height(n) ==> #[trigger] final(self).nd(n).levels@[j]
                == a.level_after_insert(update@, rank@, s, p as int, lvl as int, n, j),
            final(self).level == a.level,
            final(self).length == a.length,
            final(self).free == mid.free,
            final(self).tail == a.tail,
            final(self).order == a.order,
            final(self).at == a.at,
    {
        let ghost upd = update@;
        let ghost rk = rank@;
        let old_level = self.level;
        let mut i: usize = 0;
        while i < new_level
            invariant
                a.wf(),
                a.path_ok(upd, rk, key, lvl as int),
                update@ == upd,
                rank@ == rk,
                p == rk[0],
                old_level == a.level,
                new_level == (if lvl > old_level { lvl } else { old_level }),
                !a.at@.contains_key(s),
                s < mid.nodes@.len(),
                mid.nodes@[s as int] == Some(xg),
                self.nodes@.len() == mid.nodes@.len(),
                self.nodes@[s as int] == Some(xg),
                forall|n: usize| #[trigger] a.at@.contains_key(n) ==> n < mid.nodes@.len() && mid.nodes@[n as int] == a.nodes@[n as int],
                forall|m: int| 0 <= m < mid.nodes@.len() && !a.at@.contains_key(m as usize) ==> #[trigger] self.nodes@[m] == mid.nodes@[m],
                forall|n: usize| #[trigger] a.at@.contains_key(n) ==> self.nodes@[n as int] is Some
                    && self.nd(n).score == a.nd(n).score
                    && self.nd(n).backward == a.nd(n).backward
                    && self.height(n) == a.height(n),
                forall|n: usize, j: int| a.at@.contains_key(n) && 0 <= j < a.height(n) ==> #[trigger] self.nd(n).levels@[j]
                    == (if j < i { a.level_after_insert(upd, rk, s, p as int, lvl as int, n, j) } else { a.nd(n).levels@[j] }),
                i <= new_level,
                self.level == a.level,
                self.length == a.length,
                self.free == mid.free,
                self.tail == a.tail,
                self.order == a.order,
                self.at == a.at,
            decreases new_level - i,
        {
            let u = update[i];
            proof {
                assert(a.at@.contains_key(u)) by {
                    if i >= old_level {
                        assert(u == HEAD);
                        assert(a.full()[0] == HEAD);
                    }
                }
                if i >= old_level {
                    assert(u == HEAD);
                }
            }
            if i < lvl {
                let nl = LevelType { forward: s, span: p - rank[i] + 1 };
                self.set_level(u, i, nl);
            } else {
                proof {
                    assert(a.full()[a.at@[u]] == u);
                    assert(a.link_ok(rk[i as int] as int, i as int));
                    assert(self.nd(u).levels@[i as int] == a.nd(u).levels@[i as int]);
                    let f = a.fwd(u, i as int);
                    if f != NIL {
                        assert(a.at@[f] <= a.order@.len());
                    }
                }
                let lv = &self.node(u).levels[i];
                let nl = LevelType { forward: lv.forward, span: lv.span + 1 };
                self.set_level(u, i, nl);
            }
            i = i + 1;
        }
        proof {
            assert forall|n: usize, j: int| a.at@.contains_key(n) && 0 <= j < a.height(n) implies #[trigger] self.nd(n).levels@[j]
                == a.level_after_insert(upd, rk, s, p as int, lvl as int, n, j) by {
            }
        }
    }
}

} // verus!
