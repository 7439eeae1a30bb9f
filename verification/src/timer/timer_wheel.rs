use vstd::prelude::*;

use crate::timer::Timer;
use vstd::multiset::Multiset;
use vstd::arithmetic::div_mod::lemma_fundamental_div_mod_converse;

verus! {

broadcast use vstd::multiset::group_multiset_axioms;

/// A timer in a wheel: its value, the steps it still has to wait, and its
/// id.
pub struct WheelEntry<T> {
    pub val: T,
    pub when: u64,
    pub id: u64,
}

/// The timers of one slot, as `(id, value)`.
pub open spec fn slot_bag<T>(v: Seq<WheelEntry<T>>) -> Multiset<(u64, T)>
    decreases v.len(),
{
    if v.len() == 0 {
        Multiset::empty()
    } else {
        slot_bag(v.drop_last()).insert((v.last().id, v.last().val))
    }
}

/// The timers of the slots `s`.
pub open spec fn slots_bag<T>(s: Seq<Vec<WheelEntry<T>>>) -> Multiset<(u64, T)>
    decreases s.len(),
{
    if s.len() == 0 {
        Multiset::empty()
    } else {
        slots_bag(s.drop_last()).add(slot_bag(s.last()@))
    }
}

/// The timers of the wheels `ws`.
pub open spec fn wheels_bag<T: Timer>(ws: Seq<OneTimerWheel<T>>) -> Multiset<(u64, T)>
    decreases ws.len(),
{
    if ws.len() == 0 {
        Multiset::empty()
    } else {
        wheels_bag(ws.drop_last()).add(ws.last().timers())
    }
}

/// The `(id, value)` pairs of `v`, in order.
pub open spec fn pairs<T>(v: Seq<WheelEntry<T>>) -> Seq<(u64, T)> {
    v.map_values(|e: WheelEntry<T>| (e.id, e.val))
}

/// A slot with `e` pushed holds the timers it held and `e`.
pub proof fn lemma_slot_push<T>(v: Seq<WheelEntry<T>>, e: WheelEntry<T>)
    ensures
        slot_bag(v.push(e)) == slot_bag(v).insert((e.id, e.val)),
{
    assert(v.push(e).drop_last() =~= v);
}

/// The timers of a slot are the `(id, value)` pairs of its entries.
pub proof fn lemma_slot_pairs<T>(v: Seq<WheelEntry<T>>)
    ensures
        slot_bag(v) == pairs(v).to_multiset(),
    decreases v.len(),
{
    broadcast use vstd::seq_lib::group_to_multiset_ensures;

    if v.len() > 0 {
        lemma_slot_pairs(v.drop_last());
        assert(pairs(v) =~= pairs(v.drop_last()).push((v.last().id, v.last().val)));
    } else {
        assert(pairs(v) =~= Seq::<(u64, T)>::empty());
    }
}

/// Changing slot `i` of `s` to `v` changes the timers of the slots by the
/// timers of the two.
pub proof fn lemma_slots_update<T>(s: Seq<Vec<WheelEntry<T>>>, i: int, v: Vec<WheelEntry<T>>)
    requires
        0 <= i < s.len(),
    ensures
        slots_bag(s.update(i, v)).add(slot_bag(s[i]@)) == slots_bag(s).add(slot_bag(v@)),
    decreases s.len(),
{
    let t = s.update(i, v);
    assert(slots_bag(t) == slots_bag(t.drop_last()).add(slot_bag(t.last()@)));
    assert(slots_bag(s) == slots_bag(s.drop_last()).add(slot_bag(s.last()@)));
    if i == s.len() - 1 {
        assert(t.drop_last() =~= s.drop_last());
        assert(t.last() == v);
    } else {
        lemma_slots_update(s.drop_last(), i, v);
        assert(t.drop_last() =~= s.drop_last().update(i, v));
        assert(t.last() == s.last());
    }
    assert forall|x: (u64, T)| #[trigger] slots_bag(t).add(slot_bag(s[i]@)).count(x) == slots_bag(s).add(slot_bag(v@)).count(x) by {
        if i == s.len() - 1 {
        } else {
            assert(slots_bag(t.drop_last()).add(slot_bag(s[i]@)).count(x) == slots_bag(s.drop_last()).add(slot_bag(v@)).count(x));
        }
    }
    assert(slots_bag(t).add(slot_bag(s[i]@)) =~= slots_bag(s).add(slot_bag(v@)));
}

/// Changing the slots of wheel `w` of `ws` to `s` changes the timers of the
/// wheels by the timers of the two.
pub proof fn lemma_wheels_update<T: Timer>(ws: Seq<OneTimerWheel<T>>, w: int, nw: OneTimerWheel<T>)
    requires
        0 <= w < ws.len(),
    ensures
        wheels_bag(ws.update(w, nw)).add(ws[w].timers()) == wheels_bag(ws).add(nw.timers()),
    decreases ws.len(),
{
    let t = ws.update(w, nw);
    assert(wheels_bag(t) == wheels_bag(t.drop_last()).add(t.last().timers()));
    assert(wheels_bag(ws) == wheels_bag(ws.drop_last()).add(ws.last().timers()));
    if w == ws.len() - 1 {
        assert(t.drop_last() =~= ws.drop_last());
        assert(t.last() == nw);
    } else {
        lemma_wheels_update(ws.drop_last(), w, nw);
        assert(t.drop_last() =~= ws.drop_last().update(w, nw));
        assert(t.last() == ws.last());
    }
    assert forall|x: (u64, T)| #[trigger] wheels_bag(t).add(ws[w].timers()).count(x) == wheels_bag(ws).add(nw.timers()).count(x) by {
        if w == ws.len() - 1 {
        } else {
            assert(wheels_bag(t.drop_last()).add(ws[w].timers()).count(x) == wheels_bag(ws.drop_last()).add(nw.timers()).count(x));
        }
    }
    assert(wheels_bag(t).add(ws[w].timers()) =~= wheels_bag(ws).add(nw.timers()));
}

/// One wheel: a ring of `num` slots, each `step` base steps wide, with a
/// hand at `index`.
pub struct OneTimerWheel<T: Timer> {
    index: u64,
    capation: u64,
    num: u64,
    step: u64,
    fix_step: u64,
    slots: Vec<Vec<WheelEntry<T>>>,
    name: &'static str,
}

impl<T: Timer> OneTimerWheel<T> {
    pub closed spec fn wf(&self) -> bool {
        &&& 1 <= self.num <= u64::MAX / 2
        &&& self.num <= usize::MAX
        &&& 1 <= self.step
        &&& self.capation == self.num * self.step
        &&& self.index < self.num
        &&& self.slots@.len() == self.num
    }

    pub closed spec fn spec_num(&self) -> u64 {
        self.num
    }

    pub closed spec fn spec_step(&self) -> u64 {
        self.step
    }

    pub closed spec fn spec_fix_step(&self) -> u64 {
        self.fix_step
    }

    pub closed spec fn spec_index(&self) -> u64 {
        self.index
    }

    /// The timers of the wheel.
    pub closed spec fn timers(&self) -> Multiset<(u64, T)> {
        slots_bag(self.slots@)
    }

    /// A wheel of `num` empty slots, each `step` base steps wide, where a
    /// base step is `one_step` units of time.
    pub fn new(num: u64, step: u64, one_step: u64, name: &'static str) -> (r: Self)
        requires
            1 <= num <= u64::MAX / 2,
            num <= usize::MAX,
            1 <= step,
            num * step <= u64::MAX,
            one_step * step <= u64::MAX,
        ensures
            r.wf(),
            r.spec_num() == num,
            r.spec_step() == step,
            r.spec_fix_step() == one_step * step,
            r.spec_index() == 0,
            r.timers() == Multiset::<(u64, T)>::empty(),
    {
        let mut slots: Vec<Vec<WheelEntry<T>>> = Vec::new();
        let mut i: u64 = 0;
        while i < num
            invariant
                i <= num,
                slots@.len() == i,
                slots_bag(slots@) == Multiset::<(u64, T)>::empty(),
            decreases num - i,
        {
            let ghost before = slots@;
            slots.push(Vec::new());
            proof {
                assert(slots@.drop_last() =~= before);
                assert(slot_bag(slots@.last()@) == Multiset::<(u64, T)>::empty()) by {
                    assert(slots@.last()@.len() == 0);
                }
                assert(slots_bag(slots@) =~= Multiset::<(u64, T)>::empty());
            }
            i = i + 1;
        }
        OneTimerWheel { index: 0, capation: num * step, num, step, fix_step: one_step * step, slots, name }
    }

    /// Empties every slot.
    pub fn clear(&mut self)
        requires
            old(self).wf(),
        ensures
            final(self).wf(),
            final(self).spec_num() == old(self).spec_num(),
            final(self).spec_step() == old(self).spec_step(),
            final(self).spec_fix_step() == old(self).spec_fix_step(),
            final(self).spec_index() == old(self).spec_index(),
            final(self).timers() == Multiset::<(u64, T)>::empty(),
    {
        let mut slots: Vec<Vec<WheelEntry<T>>> = Vec::new();
        let mut i: u64 = 0;
        while i < self.num
            invariant
                i <= self.num,
                slots@.len() == i,
                slots_bag(slots@) == Multiset::<(u64, T)>::empty(),
            decreases self.num - i,
        {
            let ghost before = slots@;
            slots.push(Vec::new());
            proof {
                assert(slots@.drop_last() =~= before);
                assert(slot_bag(slots@.last()@) == Multiset::<(u64, T)>::empty()) by {
                    assert(slots@.last()@.len() == 0);
                }
                assert(slots_bag(slots@) =~= Multiset::<(u64, T)>::empty());
            }
            i = i + 1;
        }
        self.slots = slots;
    }
}


/// The product of the spans of the wheels `ws`.
pub open spec fn cap_product<T: Timer>(ws: Seq<OneTimerWheel<T>>) -> int
    decreases ws.len(),
{
    if ws.len() == 0 {
        1
    } else {
        cap_product(ws.drop_last()) * (ws.last().spec_num() * ws.last().spec_step())
    }
}

/// The product of the spans of the first wheels is at most that of all.
pub proof fn lemma_cap_product_grows<T: Timer>(ws: Seq<OneTimerWheel<T>>, k: int)
    requires
        0 <= k <= ws.len(),
        forall|u: int| 0 <= u < ws.len() ==> (#[trigger] ws[u]).wf(),
    ensures
        1 <= cap_product(ws.take(k)) <= cap_product(ws),
    decreases ws.len(),
{
    if ws.len() > 0 {
        let d = ws.drop_last();
        assert forall|u: int| 0 <= u < d.len() implies (#[trigger] d[u]).wf() by {
            assert(d[u] == ws[u]);
        }
        let c = ws.last().spec_num() * ws.last().spec_step();
        assert(ws.last().wf());
        assert(c >= 1) by (nonlinear_arith)
            requires
                ws.last().spec_num() >= 1,
                ws.last().spec_step() >= 1,
                c == ws.last().spec_num() * ws.last().spec_step(),
        {
        }
        if k == ws.len() {
            assert(ws.take(k) =~= ws);
            lemma_cap_product_grows(d, d.len() as int);
            assert(d.take(d.len() as int) =~= d);
        } else {
            lemma_cap_product_grows(d, k);
            assert(d.take(k) =~= ws.take(k));
        }
        let pd = cap_product(d);
        assert(pd >= 1);
        assert(cap_product(ws) == pd * c);
        assert(pd <= pd * c) by (nonlinear_arith)
            requires
                pd >= 1,
                c >= 1,
        {
        }
        if k == ws.len() {
            assert(1 <= pd * c) by (nonlinear_arith)
                requires
                    pd >= 1,
                    c >= 1,
            {
            }
        }
    }
}

/// Wheels that hold no timers hold no timers together.
pub proof fn lemma_wheels_empty<T: Timer>(ws: Seq<OneTimerWheel<T>>)
    requires
        forall|u: int| 0 <= u < ws.len() ==> (#[trigger] ws[u]).timers() == Multiset::<(u64, T)>::empty(),
    ensures
        wheels_bag(ws) == Multiset::<(u64, T)>::empty(),
    decreases ws.len(),
{
    if ws.len() > 0 {
        let d = ws.drop_last();
        assert forall|u: int| 0 <= u < d.len() implies (#[trigger] d[u]).timers() == Multiset::<(u64, T)>::empty() by {
            assert(d[u] == ws[u]);
        }
        lemma_wheels_empty(d);
        assert(ws.last().timers() == Multiset::<(u64, T)>::empty());
        assert(wheels_bag(ws) =~= Multiset::<(u64, T)>::empty());
    }
}

/// An entry of a slot gives its `(id, value)` to the slot's timers.
pub proof fn lemma_slot_has<T>(v: Seq<WheelEntry<T>>, j: int)
    requires
        0 <= j < v.len(),
    ensures
        slot_bag(v).count((v[j].id, v[j].val)) > 0,
    decreases v.len(),
{
    if j < v.len() - 1 {
        lemma_slot_has(v.drop_last(), j);
        assert(v.drop_last()[j] == v[j]);
    }
}

/// A slot without an entry of id `id` has no timer of that id.
pub proof fn lemma_slot_none<T>(v: Seq<WheelEntry<T>>, id: u64, x: T)
    requires
        forall|j: int| 0 <= j < v.len() ==> (#[trigger] v[j]).id != id,
    ensures
        slot_bag(v).count((id, x)) == 0,
    decreases v.len(),
{
    if v.len() > 0 {
        let d = v.drop_last();
        assert forall|j: int| 0 <= j < d.len() implies (#[trigger] d[j]).id != id by {
            assert(d[j] == v[j]);
        }
        lemma_slot_none(d, id, x);
        assert(v.last() == v[v.len() - 1]);
    }
}

/// Taking entry `j` out of a slot takes its `(id, value)` out of the slot's
/// timers.
pub proof fn lemma_slot_remove<T>(v: Seq<WheelEntry<T>>, j: int)
    requires
        0 <= j < v.len(),
    ensures
        slot_bag(v) == slot_bag(v.remove(j)).insert((v[j].id, v[j].val)),
{
    broadcast use vstd::seq_lib::group_to_multiset_ensures;

    lemma_slot_pairs(v);
    lemma_slot_pairs(v.remove(j));
    assert(pairs(v.remove(j)) =~= pairs(v).remove(j));
    assert(pairs(v)[j] == (v[j].id, v[j].val));
    assert(slot_bag(v.remove(j)) == slot_bag(v).remove((v[j].id, v[j].val)));
    lemma_slot_has(v, j);
    assert(slot_bag(v) =~= slot_bag(v.remove(j)).insert((v[j].id, v[j].val)));
}

/// A timer of one slot is a timer of the slots.
pub proof fn lemma_slots_has<T>(s: Seq<Vec<WheelEntry<T>>>, i: int, x: (u64, T))
    requires
        0 <= i < s.len(),
        slot_bag(s[i]@).count(x) > 0,
    ensures
        slots_bag(s).count(x) > 0,
    decreases s.len(),
{
    if i < s.len() - 1 {
        lemma_slots_has(s.drop_last(), i, x);
        assert(s.drop_last()[i] == s[i]);
    }
}

/// Slots without an entry of id `id` have no timer of that id.
pub proof fn lemma_slots_none<T>(s: Seq<Vec<WheelEntry<T>>>, id: u64, x: T)
    requires
        forall|i: int, j: int| 0 <= i < s.len() && 0 <= j < s[i]@.len() ==> (#[trigger] s[i]@[j]).id != id,
    ensures
        slots_bag(s).count((id, x)) == 0,
    decreases s.len(),
{
    if s.len() > 0 {
        let d = s.drop_last();
        assert forall|i: int, j: int| 0 <= i < d.len() && 0 <= j < d[i]@.len() implies (#[trigger] d[i]@[j]).id != id by {
            assert(d[i] == s[i]);
        }
        lemma_slots_none(d, id, x);
        let l = s[s.len() - 1]@;
        assert forall|j: int| 0 <= j < l.len() implies (#[trigger] l[j]).id != id by {
            assert(s[s.len() - 1]@[j] == l[j]);
        }
        lemma_slot_none(l, id, x);
    }
}

/// A timer of one wheel is a timer of the wheels.
pub proof fn lemma_wheels_has<T: Timer>(ws: Seq<OneTimerWheel<T>>, w: int, x: (u64, T))
    requires
        0 <= w < ws.len(),
        ws[w].timers().count(x) > 0,
    ensures
        wheels_bag(ws).count(x) > 0,
    decreases ws.len(),
{
    if w < ws.len() - 1 {
        lemma_wheels_has(ws.drop_last(), w, x);
        assert(ws.drop_last()[w] == ws[w]);
    }
}

/// Whether some entry of the wheels `ws` has id `id`.
pub closed spec fn holds_id<T: Timer>(ws: Seq<OneTimerWheel<T>>, id: u64) -> bool {
    exists|w: int, i: int, j: int|
        0 <= w < ws.len() && 0 <= i < ws[w].slots@.len() && 0 <= j < ws[w].slots@[i]@.len()
            && (#[trigger] ws[w].slots@[i]@[j]).id == id
}

/// Wheels without an entry of id `id` have no timer of that id.
pub proof fn lemma_wheels_none<T: Timer>(ws: Seq<OneTimerWheel<T>>, id: u64, x: T)
    requires
        !holds_id(ws, id),
    ensures
        wheels_bag(ws).count((id, x)) == 0,
    decreases ws.len(),
{
    if ws.len() > 0 {
        let d = ws.drop_last();
        assert(!holds_id(d, id)) by {
            if holds_id(d, id) {
                let (w, i, j) = choose|w: int, i: int, j: int|
                    0 <= w < d.len() && 0 <= i < d[w].slots@.len() && 0 <= j < d[w].slots@[i]@.len()
                        && (#[trigger] d[w].slots@[i]@[j]).id == id;
                assert(d[w] == ws[w]);
                assert(ws[w].slots@[i]@[j].id == id);
            }
        }
        lemma_wheels_none(d, id, x);
        let s = ws.last().slots@;
        assert forall|i: int, j: int| 0 <= i < s.len() && 0 <= j < s[i]@.len() implies (#[trigger] s[i]@[j]).id != id by {
            assert(ws[ws.len() - 1].slots@[i]@[j] == s[i]@[j]);
        }
        lemma_slots_none(s, id, x);
    }
}

/// An entry of the wheels gives its `(id, value)` to their timers.
proof fn lemma_wheels_entry<T: Timer>(ws: Seq<OneTimerWheel<T>>, w: int, i: int, j: int)
    requires
        0 <= w < ws.len(),
        0 <= i < ws[w].slots@.len(),
        0 <= j < ws[w].slots@[i]@.len(),
    ensures
        wheels_bag(ws).count((ws[w].slots@[i]@[j].id, ws[w].slots@[i]@[j].val)) > 0,
{
    let e = ws[w].slots@[i]@[j];
    lemma_slot_has(ws[w].slots@[i]@, j);
    lemma_slots_has(ws[w].slots@, i, (e.id, e.val));
    lemma_wheels_has(ws, w, (e.id, e.val));
}

/// Changing the value of entry `j` of slot `i` of wheel `w` to that of `nw`
/// changes the timers of the wheels by that entry.
proof fn lemma_wheels_set_entry<T: Timer>(ws: Seq<OneTimerWheel<T>>, w: int, i: int, j: int, nw: OneTimerWheel<T>)
    requires
        0 <= w < ws.len(),
        0 <= i < ws[w].slots@.len(),
        0 <= j < ws[w].slots@[i]@.len(),
        nw.slots@.len() == ws[w].slots@.len(),
        forall|k: int| 0 <= k < nw.slots@.len() && k != i ==> nw.slots@[k] == ws[w].slots@[k],
        nw.slots@[i]@.len() == ws[w].slots@[i]@.len(),
        forall|k: int| 0 <= k < nw.slots@[i]@.len() && k != j ==> nw.slots@[i]@[k] == ws[w].slots@[i]@[k],
    ensures
        wheels_bag(ws.update(w, nw)) == wheels_bag(ws).remove(
            (ws[w].slots@[i]@[j].id, ws[w].slots@[i]@[j].val),
        ).insert((nw.slots@[i]@[j].id, nw.slots@[i]@[j].val)),
{
    let ow = ws[w];
    let ov = ow.slots@[i]@;
    let nv = nw.slots@[i]@;
    let px = (ov[j].id, ov[j].val);
    let py = (nv[j].id, nv[j].val);
    assert(nw.slots@ =~= ow.slots@.update(i, nw.slots@[i]));
    lemma_slots_update(ow.slots@, i, nw.slots@[i]);
    lemma_slot_remove(ov, j);
    lemma_slot_remove(nv, j);
    assert(ov.remove(j) =~= nv.remove(j));
    lemma_wheels_update(ws, w, nw);
    lemma_wheels_entry(ws, w, i, j);
    lemma_slot_has(ov, j);
    lemma_slots_has(ow.slots@, i, px);
    assert(ow.timers().count(px) > 0);
    assert forall|y: (u64, T)| #[trigger] nw.timers().count(y) == ow.timers().remove(px).insert(py).count(y) by {
        assert(slots_bag(nw.slots@).add(slot_bag(ov)).count(y) == slots_bag(ow.slots@).add(slot_bag(nv)).count(y));
        assert(slot_bag(ov).count(y) == slot_bag(ov.remove(j)).insert(px).count(y));
        assert(slot_bag(nv).count(y) == slot_bag(nv.remove(j)).insert(py).count(y));
    }
    assert forall|y: (u64, T)| #[trigger] wheels_bag(ws.update(w, nw)).count(y)
        == wheels_bag(ws).remove(px).insert(py).count(y) by {
        assert(wheels_bag(ws.update(w, nw)).add(ow.timers()).count(y) == wheels_bag(ws).add(nw.timers()).count(y));
        assert(wheels_bag(ws).count(px) > 0);
    }
    assert(wheels_bag(ws.update(w, nw)) =~= wheels_bag(ws).remove(px).insert(py));
}

/// The first `k >= i` such that the slot `k` places past the hand of `wh`
/// holds a timer, if there is one.
pub closed spec fn first_busy<T: Timer>(wh: OneTimerWheel<T>, i: int) -> Option<int>
    decreases wh.spec_num() - i,
{
    if i < 0 || i >= wh.num {
        None
    } else if wh.slots@[((wh.index + i) % (wh.num as int))]@.len() > 0 {
        Some(i)
    } else {
        first_busy(wh, i + 1)
    }
}

/// How many base steps the wheels from `w` on may turn before a timer can
/// be due: up to the end of the first busy slot of the first wheel that
/// has one, or `acc` (the whole span of the wheel before) when none has.
pub closed spec fn delay_from<T: Timer>(ws: Seq<OneTimerWheel<T>>, w: int, acc: int) -> int
    decreases ws.len() - w,
{
    if w < 0 || w >= ws.len() {
        acc
    } else {
        match first_busy(ws[w], 0) {
            Some(i) => (i + 1) * ws[w].step,
            None => delay_from(ws, w + 1, ws[w].num * ws[w].step),
        }
    }
}

/// The timers in the `n` slots of `wh` from its hand on, slot after slot,
/// each slot in order.
pub closed spec fn swept<T: Timer>(wh: OneTimerWheel<T>, n: nat) -> Seq<(u64, T)>
    decreases n,
{
    if n == 0 {
        Seq::empty()
    } else {
        swept(wh, (n - 1) as nat) + pairs(wh.slots@[((wh.index + n - 1) % (wh.num as int))]@)
    }
}

/// The timers, in order, of the entries of `l` that have nothing left to wait when
/// handed down from a slot `step` base steps wide with `rem` of it passed:
/// those whose delay within such a slot is at most `rem`.
pub open spec fn due_part<T>(l: Seq<WheelEntry<T>>, step: u64, rem: u64) -> Seq<(u64, T)>
    decreases l.len(),
{
    if l.len() == 0 {
        Seq::empty()
    } else if l.last().when % step <= rem {
        due_part(l.drop_last(), step, rem).push((l.last().id, l.last().val))
    } else {
        due_part(l.drop_last(), step, rem)
    }
}

/// The entries of the slot where the hand of `wh` stops after `off` slots,
/// unless it passed over it on the way (a full turn or more).
pub closed spec fn hand_slot<T: Timer>(wh: OneTimerWheel<T>, off: u64) -> Seq<WheelEntry<T>> {
    if off < wh.num {
        wh.slots@[((wh.index + off) % (wh.num as int))]@
    } else {
        Seq::empty()
    }
}

/// The timers that turning the wheels `ws` from wheel `w` on brings due, in
/// the order they come out,
/// wheel `w` moving on by `off` slots with `rem` base steps of a slot
/// passed: the timers of the slots its hand passes over (at most one turn);
/// above the finest wheel, those of the slot the hand stops at whose delay
/// within a slot is at most `rem` (the others go down a wheel); and, when
/// the hand completed turns, what the next wheel, moved on by that many
/// slots, brings due.
pub closed spec fn fired<T: Timer>(ws: Seq<OneTimerWheel<T>>, w: int, off: u64, rem: u64) -> Seq<(u64, T)>
    decreases ws.len() - w,
{
    if w < 0 || w >= ws.len() {
        Seq::empty()
    } else {
        let wh = ws[w];
        let here = swept(wh, if off < wh.num { off as nat } else { wh.num as nat }) + if w > 0 {
            due_part(hand_slot(wh, off), wh.step, rem)
        } else {
            Seq::empty()
        };
        let next = wh.index + off;
        let turns = next / (wh.num as int);
        if turns == 0 {
            here
        } else {
            let r = if next % (wh.num as int) + rem <= u64::MAX { (next % (wh.num as int) + rem) as u64 } else { u64::MAX };
            here + fired(ws, w + 1, turns as u64, r)
        }
    }
}

/// Slot `i` of a ring of `num` slots lies `(i - index) % num` slots past
/// slot `index`, and going that far from `index` comes back to `i`.
proof fn lemma_ring_offset(index: int, num: int, i: int)
    requires
        0 <= index < num,
        0 <= i < num,
    ensures
        0 <= (i - index) % num < num,
        (index + (i - index) % num) % num == i,
{
    if i >= index {
        lemma_fundamental_div_mod_converse(i - index, num, 0, i - index);
        lemma_fundamental_div_mod_converse(i, num, 0, i);
    } else {
        lemma_fundamental_div_mod_converse(i - index, num, -1, i - index + num);
        lemma_fundamental_div_mod_converse(i + num, num, 1, i);
    }
}

/// Going `j` slots on from slot `index`, at most one turn, lands on a slot
/// that lies `j` slots past `index`, or on `index` itself after a turn.
proof fn lemma_ring_step(index: int, num: int, j: int)
    requires
        0 <= index < num,
        0 <= j <= num,
    ensures
        0 <= (index + j) % num < num,
        j < num ==> ((index + j) % num - index) % num == j,
        j == num ==> ((index + j) % num - index) % num == 0,
{
    if index + j < num {
        lemma_fundamental_div_mod_converse(index + j, num, 0, index + j);
        lemma_fundamental_div_mod_converse(j, num, 0, j);
    } else {
        lemma_fundamental_div_mod_converse(index + j, num, 1, index + j - num);
        if j < num {
            lemma_fundamental_div_mod_converse(j - num, num, -1, j);
        } else {
            lemma_fundamental_div_mod_converse(0, num, 0, 0);
        }
    }
}

/// A hierarchy of wheels, like the hands of a clock: timers wait in the
/// finest wheel that can hold their delay and move down as coarser wheels
/// turn.
pub struct TimerWheel<T: Timer> {
    wheels: Vec<OneTimerWheel<T>>,
    one_step: u64,
    next_timer_id: u64,
    max_timer_id: u64,
    delay_id: u64,
    all_deltatime: u64,
    len: usize,
}

impl<T: Timer> TimerWheel<T> {
    /// The timers waiting, as `(id, value)`.
    pub closed spec fn timers(&self) -> Multiset<(u64, T)> {
        wheels_bag(self.wheels@)
    }

    /// The number of wheels.
    pub closed spec fn spec_wheels(&self) -> nat {
        self.wheels@.len()
    }

    pub closed spec fn spec_one_step(&self) -> u64 {
        self.one_step
    }

    pub closed spec fn spec_next_id(&self) -> u64 {
        self.next_timer_id
    }

    pub closed spec fn spec_max_id(&self) -> u64 {
        self.max_timer_id
    }

    pub closed spec fn spec_delay_id(&self) -> u64 {
        self.delay_id
    }

    pub closed spec fn wf(&self) -> bool {
        &&& self.one_step >= 1
        &&& forall|w: int| 0 <= w < self.wheels@.len() ==> (#[trigger] self.wheels@[w]).wf()
        &&& self.len == self.timers().len()
    }

    /// No wheels and no timers.
    pub fn new() -> (r: Self)
        ensures
            r.wf(),
            r.spec_wheels() == 0,
            r.timers() == Multiset::<(u64, T)>::empty(),
            r.spec_one_step() == 1,
            r.spec_next_id() == 1,
            r.spec_max_id() == u64::MAX,
            r.spec_delay_id() == 0,
    {
        let r = TimerWheel {
            wheels: Vec::new(),
            one_step: 1,
            next_timer_id: 1,
            max_timer_id: u64::MAX,
            delay_id: 0,
            all_deltatime: 0,
            len: 0,
        };
        proof {
            assert(r.timers() =~= Multiset::<(u64, T)>::empty());
        }
        r
    }

    /// The number of timers.
    pub fn len(&self) -> (r: usize)
        requires
            self.wf(),
        ensures
            r == self.timers().len(),
    {
        self.len
    }

    pub fn is_empty(&self) -> (r: bool)
        requires
            self.wf(),
        ensures
            r == (self.timers().len() == 0),
    {
        self.len == 0
    }

    /// The length of a base step, in units of time.
    pub fn get_one_step(&self) -> (r: u64)
        ensures
            r == self.spec_one_step(),
    {
        self.one_step
    }

    /// Sets the length of a base step to `step`, at least 1.
    pub fn set_one_step(&mut self, step: u64)
        requires
            old(self).wf(),
        ensures
            final(self).wf(),
            final(self).spec_one_step() == if step > 1 { step } else { 1 },
            final(self).timers() == old(self).timers(),
            final(self).spec_wheels() == old(self).spec_wheels(),
    {
        self.one_step = if step > 1 { step } else { 1 };
    }

    /// The largest timer id before ids start again at 1.
    pub fn get_max_timerid(&self) -> (r: u64)
        ensures
            r == self.spec_max_id(),
    {
        self.max_timer_id
    }

    pub fn set_max_timerid(&mut self, max: u64)
        requires
            old(self).wf(),
        ensures
            final(self).wf(),
            final(self).spec_max_id() == max,
            final(self).timers() == old(self).timers(),
            final(self).spec_wheels() == old(self).spec_wheels(),
            final(self).spec_next_id() == old(self).spec_next_id(),
    {
        self.max_timer_id = max;
    }

    /// How many base steps may pass before a timer can be due.
    pub fn get_delay_id(&self) -> (r: u64)
        ensures
            r == self.spec_delay_id(),
    {
        self.delay_id
    }

    /// The number of wheels.
    pub fn wheel_count(&self) -> (r: usize)
        ensures
            r == self.spec_wheels(),
    {
        self.wheels.len()
    }

    /// The time passed beyond the last whole base step.
    pub fn elapsed(&self) -> (r: u64)
        ensures
            r == self.spec_elapsed(),
    {
        self.all_deltatime
    }

    /// Gives the next timer id: ids count up from 1 and start again after
    /// the largest.
    fn get_next_timerid(&mut self) -> (r: u64)
        ensures
            r == old(self).spec_next_id(),
            final(self).spec_next_id() == if old(self).spec_next_id() >= old(self).spec_max_id() { 1 } else { (old(self).spec_next_id() + 1) as u64 },
            final(self).wheels == old(self).wheels,
            final(self).len == old(self).len,
            final(self).one_step == old(self).one_step,
            final(self).delay_id == old(self).delay_id,
            final(self).max_timer_id == old(self).max_timer_id,
    {
        let timer_id = self.next_timer_id;
        if self.next_timer_id >= self.max_timer_id {
            self.next_timer_id = 1;
        } else {
            self.next_timer_id = self.next_timer_id + 1;
        }
        timer_id
    }

    /// Puts `e` in slot `i` of wheel `w`.
    fn push_at(&mut self, w: usize, i: usize, e: WheelEntry<T>)
        requires
            w < old(self).wheels@.len(),
            old(self).wheels@[w as int].wf(),
            i < old(self).wheels@[w as int].spec_num(),
        ensures
            final(self).wheels@.len() == old(self).wheels@.len(),
            forall|v: int| 0 <= v < old(self).wheels@.len() && v != w ==> #[trigger] final(self).wheels@[v] == old(self).wheels@[v],
            final(self).wheels@[w as int].wf(),
            final(self).wheels@[w as int].spec_num() == old(self).wheels@[w as int].spec_num(),
            final(self).wheels@[w as int].spec_step() == old(self).wheels@[w as int].spec_step(),
            final(self).wheels@[w as int].spec_fix_step() == old(self).wheels@[w as int].spec_fix_step(),
            final(self).wheels@[w as int].spec_index() == old(self).wheels@[w as int].spec_index(),
            final(self).timers() == old(self).timers().insert((e.id, e.val)),
            final(self).one_step == old(self).one_step,
            final(self).len == old(self).len,
            final(self).delay_id == old(self).delay_id,
            final(self).next_timer_id == old(self).next_timer_id,
            final(self).max_timer_id == old(self).max_timer_id,
            final(self).all_deltatime == old(self).all_deltatime,
    {
        let ghost ws = self.wheels@;
        let ghost old_slots = self.wheels@[w as int].slots@;
        let wheel = &mut self.wheels[w];
        let slot = &mut wheel.slots[i];
        slot.push(e);
        proof {
            let nw = self.wheels@[w as int];
            lemma_slot_push(old_slots[i as int]@, e);
            assert(nw.slots@ == old_slots.update(i as int, nw.slots@[i as int]));
            lemma_slots_update(old_slots, i as int, nw.slots@[i as int]);
            lemma_wheels_update(ws, w as int, nw);
            assert(self.wheels@ == ws.update(w as int, nw));
            let x = (e.id, e.val);
            assert(nw.timers() == slots_bag(nw.slots@));
            assert(ws[w as int].timers() == slots_bag(old_slots));
            assert forall|y: (u64, T)| #[trigger] nw.timers().count(y) == ws[w as int].timers().insert(x).count(y) by {
                assert(slots_bag(nw.slots@).add(slot_bag(old_slots[i as int]@)).count(y)
                    == slots_bag(old_slots).add(slot_bag(nw.slots@[i as int]@)).count(y));
            }
            assert(nw.timers() =~= ws[w as int].timers().insert(x));
            assert forall|y: (u64, T)| #[trigger] self.timers().count(y) == old(self).timers().insert(x).count(y) by {
                assert(wheels_bag(ws.update(w as int, nw)).add(ws[w as int].timers()).count(y)
                    == wheels_bag(ws).add(nw.timers()).count(y));
            }
            assert(self.timers() =~= old(self).timers().insert((e.id, e.val)));
        }
    }

    /// Puts `v` in place of slot `i` of wheel `w`, and gives the slot's old
    /// content.
    fn replace_slot(&mut self, w: usize, i: usize, v: Vec<WheelEntry<T>>) -> (r: Vec<WheelEntry<T>>)
        requires
            w < old(self).wheels@.len(),
            old(self).wheels@[w as int].wf(),
            i < old(self).wheels@[w as int].spec_num(),
        ensures
            r@ == old(self).wheels@[w as int].slots@[i as int]@,
            final(self).wheels@.len() == old(self).wheels@.len(),
            forall|u: int| 0 <= u < old(self).wheels@.len() && u != w ==> #[trigger] final(self).wheels@[u] == old(self).wheels@[u],
            final(self).wheels@[w as int].wf(),
            final(self).wheels@[w as int].spec_num() == old(self).wheels@[w as int].spec_num(),
            final(self).wheels@[w as int].spec_step() == old(self).wheels@[w as int].spec_step(),
            final(self).wheels@[w as int].spec_fix_step() == old(self).wheels@[w as int].spec_fix_step(),
            final(self).wheels@[w as int].spec_index() == old(self).wheels@[w as int].spec_index(),
            final(self).wheels@[w as int].slots@[i as int]@ == v@,
            forall|j: int| 0 <= j < old(self).wheels@[w as int].spec_num() && j != i
                ==> #[trigger] final(self).wheels@[w as int].slots@[j] == old(self).wheels@[w as int].slots@[j],
            final(self).timers().add(slot_bag(r@)) == old(self).timers().add(slot_bag(v@)),
            final(self).one_step == old(self).one_step,
            final(self).len == old(self).len,
            final(self).delay_id == old(self).delay_id,
            final(self).next_timer_id == old(self).next_timer_id,
            final(self).max_timer_id == old(self).max_timer_id,
            final(self).all_deltatime == old(self).all_deltatime,
    {
        let ghost ws = self.wheels@;
        let ghost old_slots = self.wheels@[w as int].slots@;
        let mut v = v;
        let wheel = &mut self.wheels[w];
        std::mem::swap(&mut v, &mut wheel.slots[i]);
        proof {
            let nw = self.wheels@[w as int];
            assert(nw.slots@ == old_slots.update(i as int, nw.slots@[i as int]));
            lemma_slots_update(old_slots, i as int, nw.slots@[i as int]);
            lemma_wheels_update(ws, w as int, nw);
            assert(self.wheels@ == ws.update(w as int, nw));
            assert forall|y: (u64, T)| #[trigger] self.timers().add(slot_bag(v@)).count(y)
                == old(self).timers().add(slot_bag(nw.slots@[i as int]@)).count(y) by {
                assert(wheels_bag(ws.update(w as int, nw)).add(ws[w as int].timers()).count(y)
                    == wheels_bag(ws).add(nw.timers()).count(y));
                assert(slots_bag(nw.slots@).add(slot_bag(old_slots[i as int]@)).count(y)
                    == slots_bag(old_slots).add(slot_bag(nw.slots@[i as int]@)).count(y));
            }
            assert(self.timers().add(slot_bag(v@)) =~= old(self).timers().add(slot_bag(nw.slots@[i as int]@)));
        }
        v
    }

    /// Takes out all timers of slot `i` of wheel `w`, in order.
    fn take_slot(&mut self, w: usize, i: usize) -> (r: Vec<WheelEntry<T>>)
        requires
            w < old(self).wheels@.len(),
            old(self).wheels@[w as int].wf(),
            i < old(self).wheels@[w as int].spec_num(),
        ensures
            r@ == old(self).wheels@[w as int].slots@[i as int]@,
            final(self).wheels@.len() == old(self).wheels@.len(),
            forall|u: int| 0 <= u < old(self).wheels@.len() && u != w ==> #[trigger] final(self).wheels@[u] == old(self).wheels@[u],
            final(self).wheels@[w as int].wf(),
            final(self).wheels@[w as int].spec_num() == old(self).wheels@[w as int].spec_num(),
            final(self).wheels@[w as int].spec_step() == old(self).wheels@[w as int].spec_step(),
            final(self).wheels@[w as int].spec_fix_step() == old(self).wheels@[w as int].spec_fix_step(),
            final(self).wheels@[w as int].spec_index() == old(self).wheels@[w as int].spec_index(),
            final(self).wheels@[w as int].slots@[i as int]@.len() == 0,
            forall|j: int| 0 <= j < old(self).wheels@[w as int].spec_num() && j != i
                ==> #[trigger] final(self).wheels@[w as int].slots@[j] == old(self).wheels@[w as int].slots@[j],
            final(self).timers().add(slot_bag(r@)) == old(self).timers(),
            final(self).one_step == old(self).one_step,
            final(self).len == old(self).len,
            final(self).delay_id == old(self).delay_id,
            final(self).next_timer_id == old(self).next_timer_id,
            final(self).max_timer_id == old(self).max_timer_id,
            final(self).all_deltatime == old(self).all_deltatime,
    {
        let r = self.replace_slot(w, i, Vec::new());
        proof {
            let e: Seq<WheelEntry<T>> = Seq::empty();
            assert(slot_bag(e) == Multiset::<(u64, T)>::empty());
            assert(old(self).timers().add(slot_bag(e)) =~= old(self).timers());
        }
        r
    }

    /// The wheel parameters and the slots of wheels `a` and `b` agree, but
    /// for the timers.
    pub closed spec fn same_shape(a: &Self, b: &Self) -> bool {
        &&& b.wheels@.len() == a.wheels@.len()
        &&& forall|u: int| 0 <= u < a.wheels@.len() ==> {
            &&& (#[trigger] b.wheels@[u]).wf() == a.wheels@[u].wf()
            &&& b.wheels@[u].spec_num() == a.wheels@[u].spec_num()
            &&& b.wheels@[u].spec_step() == a.wheels@[u].spec_step()
            &&& b.wheels@[u].spec_fix_step() == a.wheels@[u].spec_fix_step()
            &&& b.wheels@[u].spec_index() == a.wheels@[u].spec_index()
        }
        &&& b.one_step == a.one_step
        &&& b.delay_id == a.delay_id
        &&& b.next_timer_id == a.next_timer_id
        &&& b.max_timer_id == a.max_timer_id
        &&& b.all_deltatime == a.all_deltatime
    }

    /// Puts `e` into the wheels from wheel `w` down: into the slot of wheel
    /// `w` that its delay `offset` falls in, or, when the delay is shorter
    /// than one slot of `w`, into a finer wheel.
    fn add_timer_with_offset(&mut self, w: usize, e: WheelEntry<T>, offset: u64)
        requires
            w < old(self).wheels@.len(),
            forall|u: int| 0 <= u < old(self).wheels@.len() ==> (#[trigger] old(self).wheels@[u]).wf(),
        ensures
            Self::same_shape(old(self), final(self)),
            final(self).timers() == old(self).timers().insert((e.id, e.val)),
            final(self).len == old(self).len,
            forall|u: int| w < u < old(self).wheels@.len() ==> #[trigger] final(self).wheels@[u] == old(self).wheels@[u],
    {
        let mut cur = w;
        loop
            invariant
                cur <= w,
                cur < self.wheels@.len(),
                *self == *old(self),
                forall|u: int| 0 <= u < self.wheels@.len() ==> (#[trigger] self.wheels@[u]).wf(),
            decreases cur,
        {
            let ghost wh = self.wheels@[cur as int];
            let capation = self.wheels[cur].capation;
            let num = self.wheels[cur].num;
            let index = self.wheels[cur].index;
            let step = self.wheels[cur].step;
            let fix_step = self.wheels[cur].fix_step;
            proof {
                assert(wh.wf());
            }
            if offset > capation {
                let idx = (index + num - 1) % num;
                self.push_at(cur, idx as usize, e);
                return;
            }
            if offset < fix_step && cur > 0 {
                cur = cur - 1;
            } else {
                let back = offset.saturating_sub(1);
                proof {
                    assert(capation == num * step);
                    assert(offset <= capation);
                    assert(num * step >= 1) by (nonlinear_arith)
                        requires
                            step >= 1,
                            num >= 1,
                    {
                    }
                    assert(back < num * step);
                    assert(back / step < num) by (nonlinear_arith)
                        requires
                            back < num * step,
                            step >= 1,
                            num >= 1,
                    {
                    }
                }
                let slot = (back / step + index) % num;
                self.push_at(cur, slot as usize, e);
                return;
            }
        }
    }

    /// The product of the spans of the wheels.
    pub closed spec fn span_product(&self) -> int {
        cap_product(self.wheels@)
    }

    /// The span of one slot of the next wheel appended.
    pub open spec fn next_step(&self) -> int {
        if self.spec_wheels() == 0 {
            self.spec_one_step() as int
        } else {
            self.span_product() / (self.spec_one_step() as int)
        }
    }

    /// Adds a coarser wheel of `slots` slots, each as wide as all the
    /// wheels before it together (or one base step for the first wheel).
    pub fn append_timer_wheel(&mut self, slots: u64, name: &'static str)
        requires
            old(self).wf(),
            1 <= slots <= u64::MAX / 2,
            slots <= usize::MAX,
            old(self).spec_wheels() > 0 ==> old(self).span_product() <= u64::MAX,
            old(self).next_step() >= 1,
            slots * old(self).next_step() <= u64::MAX,
            old(self).spec_one_step() * old(self).next_step() <= u64::MAX,
        ensures
            final(self).wf(),
            final(self).spec_wheels() == old(self).spec_wheels() + 1,
            final(self).timers() == old(self).timers(),
            final(self).spec_one_step() == old(self).spec_one_step(),
            final(self).spec_next_id() == old(self).spec_next_id(),
            final(self).spec_max_id() == old(self).spec_max_id(),
            final(self).spec_delay_id() == if old(self).spec_delay_id() < slots * old(self).next_step() {
                (slots * old(self).next_step()) as u64
            } else {
                old(self).spec_delay_id()
            },
    {
        let step = if self.wheels.len() == 0 {
            self.one_step
        } else {
            let mut now_step: u64 = 1;
            let mut k: usize = 0;
            while k < self.wheels.len()
                invariant
                    self.wf(),
                    *self == *old(self),
                    self.wheels@.len() > 0,
                    cap_product(self.wheels@) <= u64::MAX,
                    k <= self.wheels@.len(),
                    now_step == cap_product(self.wheels@.take(k as int)),
                decreases self.wheels@.len() - k,
            {
                proof {
                    lemma_cap_product_grows(self.wheels@, k + 1);
                    let t = self.wheels@.take(k + 1);
                    assert(t.drop_last() =~= self.wheels@.take(k as int));
                    assert(t.last() == self.wheels@[k as int]);
                    assert(self.wheels@[k as int].wf());
                }
                now_step = now_step * self.wheels[k].capation;
                k = k + 1;
            }
            proof {
                assert(self.wheels@.take(k as int) =~= self.wheels@);
            }
            now_step / self.one_step
        };
        let one = OneTimerWheel::new(slots, step, self.one_step, name);
        let span = slots * step;
        if span > self.delay_id {
            self.delay_id = span;
        }
        let ghost before = self.wheels@;
        self.wheels.push(one);
        proof {
            assert(self.wheels@.drop_last() =~= before);
            assert(one.timers() == Multiset::<(u64, T)>::empty());
            assert(self.timers() =~= old(self).timers());
            assert forall|w: int| 0 <= w < self.wheels@.len() implies (#[trigger] self.wheels@[w]).wf() by {
                if w < before.len() {
                    assert(self.wheels@[w] == before[w]);
                }
            }
        }
    }

    /// Drops all timers.
    pub fn clear(&mut self)
        requires
            old(self).wf(),
        ensures
            final(self).wf(),
            final(self).timers() == Multiset::<(u64, T)>::empty(),
            final(self).spec_wheels() == old(self).spec_wheels(),
            final(self).spec_one_step() == old(self).spec_one_step(),
            final(self).spec_next_id() == old(self).spec_next_id(),
            final(self).spec_max_id() == old(self).spec_max_id(),
            final(self).spec_delay_id() == old(self).spec_delay_id(),
    {
        let mut w: usize = 0;
        while w < self.wheels.len()
            invariant
                w <= self.wheels@.len(),
                self.wheels@.len() == old(self).wheels@.len(),
                forall|u: int| 0 <= u < self.wheels@.len() ==> (#[trigger] self.wheels@[u]).wf(),
                forall|u: int| 0 <= u < w ==> (#[trigger] self.wheels@[u]).timers() == Multiset::<(u64, T)>::empty(),
                self.one_step == old(self).one_step,
                self.next_timer_id == old(self).next_timer_id,
                self.max_timer_id == old(self).max_timer_id,
                self.delay_id == old(self).delay_id,
                self.one_step >= 1,
            decreases self.wheels@.len() - w,
        {
            let ghost before = self.wheels@;
            proof {
                assert(before[w as int].wf());
            }
            let wheel = &mut self.wheels[w];
            wheel.clear();
            proof {
                assert forall|u: int| 0 <= u < self.wheels@.len() implies (#[trigger] self.wheels@[u]).wf() by {
                    if u != w {
                        assert(self.wheels@[u] == before[u]);
                    }
                }
                assert forall|u: int| 0 <= u < w + 1 implies (#[trigger] self.wheels@[u]).timers() == Multiset::<(u64, T)>::empty() by {
                    if u != w {
                        assert(self.wheels@[u] == before[u]);
                    }
                }
            }
            w = w + 1;
        }
        self.len = 0;
        proof {
            lemma_wheels_empty(self.wheels@);
        }
    }

    /// Adds `val` under `timer_id`, due `when` units of time from now (at
    /// least 1); the time to the first due timer shrinks to it if it is
    /// nearer.
    pub fn add_timer_by_id_at(&mut self, timer_id: u64, val: T, when: u64)
        requires
            old(self).wf(),
            old(self).spec_wheels() > 0,
            old(self).timers().len() < usize::MAX,
        ensures
            final(self).wf(),
            final(self).timers() == old(self).timers().insert((timer_id, val)),
            final(self).spec_wheels() == old(self).spec_wheels(),
            final(self).spec_one_step() == old(self).spec_one_step(),
            final(self).spec_next_id() == old(self).spec_next_id(),
            final(self).spec_max_id() == old(self).spec_max_id(),
            final(self).spec_delay_id() == ({
                let d = (if when > 1 { when } else { 1 }) / old(self).spec_one_step();
                if d < old(self).spec_delay_id() { d } else { old(self).spec_delay_id() }
            }),
    {
        let when = if when > 1 { when } else { 1 };
        let entry = WheelEntry { when, val, id: timer_id };
        let d = when / self.one_step;
        if d < self.delay_id {
            self.delay_id = d;
        }
        let w = self.wheels.len() - 1;
        self.add_timer_with_offset(w, entry, when);
        self.len = self.len + 1;
        proof {
            assert forall|u: int| 0 <= u < self.wheels@.len() implies (#[trigger] self.wheels@[u]).wf() by {
                assert(old(self).wheels@[u].wf());
            }
        }
    }

    /// Adds `val` under `timer_id`, due at the time it tells (at least 1).
    pub fn add_timer_by_id(&mut self, timer_id: u64, val: T)
        requires
            old(self).wf(),
            old(self).spec_wheels() > 0,
            old(self).timers().len() < usize::MAX,
        ensures
            final(self).wf(),
            exists|v: T| final(self).timers() == #[trigger] old(self).timers().insert((timer_id, v)),
            val.when_mut_keeps() ==> final(self).timers() == old(self).timers().insert((timer_id, val)),
            final(self).spec_wheels() == old(self).spec_wheels(),
            final(self).spec_one_step() == old(self).spec_one_step(),
            final(self).spec_next_id() == old(self).spec_next_id(),
            final(self).spec_max_id() == old(self).spec_max_id(),
    {
        let mut val = val;
        let when = val.when_mut();
        self.add_timer_by_id_at(timer_id, val, when);
    }

    /// Adds `val` under the next timer id, due at the time it tells, and
    /// gives the id.
    pub fn add_timer(&mut self, val: T) -> (id: u64)
        requires
            old(self).wf(),
            old(self).spec_wheels() > 0,
            old(self).timers().len() < usize::MAX,
        ensures
            final(self).wf(),
            id == old(self).spec_next_id(),
            exists|v: T| final(self).timers() == #[trigger] old(self).timers().insert((id, v)),
            val.when_mut_keeps() ==> final(self).timers() == old(self).timers().insert((id, val)),
            final(self).spec_next_id() == if old(self).spec_next_id() >= old(self).spec_max_id() { 1 } else { (old(self).spec_next_id() + 1) as u64 },
            final(self).spec_wheels() == old(self).spec_wheels(),
            final(self).spec_one_step() == old(self).spec_one_step(),
    {
        let timer_id = self.get_next_timerid();
        self.add_timer_by_id(timer_id, val);
        timer_id
    }

    /// Adds back each timer of `again` under its id, in order, as
    /// `add_timer_by_id` does.
    pub fn rearm(&mut self, again: Vec<(u64, T)>)
        requires
            old(self).wf(),
            old(self).spec_wheels() > 0,
            old(self).timers().len() + again@.len() < usize::MAX,
        ensures
            final(self).wf(),
            final(self).timers().len() == old(self).timers().len() + again@.len(),
            (forall|i: int| 0 <= i < again@.len() ==> (#[trigger] again@[i]).1.when_mut_keeps()) ==> final(self).timers()
                == old(self).timers().add(again@.to_multiset()),
            final(self).spec_wheels() == old(self).spec_wheels(),
            final(self).spec_one_step() == old(self).spec_one_step(),
            final(self).spec_next_id() == old(self).spec_next_id(),
            final(self).spec_max_id() == old(self).spec_max_id(),
    {
        broadcast use vstd::seq_lib::group_to_multiset_ensures;

        let ghost a = again@;
        proof {
            assert(a.take(0) =~= Seq::<(u64, T)>::empty());
            assert(old(self).timers().add(a.take(0).to_multiset()) =~= old(self).timers());
        }
        for e in it: again.into_iter()
            invariant
                it.seq() == a,
                self.wf(),
                self.spec_wheels() == old(self).spec_wheels(),
                self.spec_wheels() > 0,
                self.spec_one_step() == old(self).spec_one_step(),
                self.spec_next_id() == old(self).spec_next_id(),
                self.spec_max_id() == old(self).spec_max_id(),
                old(self).timers().len() + a.len() < usize::MAX,
                self.timers().len() == old(self).timers().len() + it.index(),
                (forall|i: int| 0 <= i < a.len() ==> (#[trigger] a[i]).1.when_mut_keeps()) ==> self.timers()
                    == old(self).timers().add(a.take(it.index() as int).to_multiset()),
        {
            let ghost k = it.index() as int;
            let ghost before = self.timers();
            let (id, val) = e;
            self.add_timer_by_id(id, val);
            proof {
                assert(a.take(k + 1) =~= a.take(k).push(e));
                vstd::seq_lib::to_multiset_build(a.take(k), e);
                if forall|i: int| 0 <= i < a.len() ==> (#[trigger] a[i]).1.when_mut_keeps() {
                    assert(a[k] == e);
                    assert(self.timers() =~= old(self).timers().add(a.take(k + 1).to_multiset()));
                }
            }
        }
        proof {
            assert(a.take(a.len() as int) =~= a);
        }
    }

    /// Where the first entry of id `id` stands: wheel, slot and place.
    fn find(&self, id: u64) -> (r: Option<(usize, usize, usize)>)
        requires
            self.wf(),
        ensures
            r is None <==> !holds_id(self.wheels@, id),
            r matches Some(p) ==> {
                &&& p.0 < self.wheels@.len()
                &&& p.1 < self.wheels@[p.0 as int].slots@.len()
                &&& p.2 < self.wheels@[p.0 as int].slots@[p.1 as int]@.len()
                &&& self.wheels@[p.0 as int].slots@[p.1 as int]@[p.2 as int].id == id
            },
    {
        let mut w: usize = 0;
        while w < self.wheels.len()
            invariant
                self.wf(),
                w <= self.wheels@.len(),
                forall|a: int, i: int, j: int|
                    0 <= a < w && 0 <= i < self.wheels@[a].slots@.len() && 0 <= j < self.wheels@[a].slots@[i]@.len()
                        ==> (#[trigger] self.wheels@[a].slots@[i]@[j]).id != id,
            decreases self.wheels@.len() - w,
        {
            let wheel = &self.wheels[w];
            let mut i: usize = 0;
            while i < wheel.slots.len()
                invariant
                    self.wf(),
                    w < self.wheels@.len(),
                    *wheel == self.wheels@[w as int],
                    i <= wheel.slots@.len(),
                    forall|a: int, i2: int, j: int|
                        0 <= a < w && 0 <= i2 < self.wheels@[a].slots@.len() && 0 <= j < self.wheels@[a].slots@[i2]@.len()
                            ==> (#[trigger] self.wheels@[a].slots@[i2]@[j]).id != id,
                    forall|i2: int, j: int| 0 <= i2 < i && 0 <= j < wheel.slots@[i2]@.len()
                        ==> (#[trigger] wheel.slots@[i2]@[j]).id != id,
                decreases wheel.slots@.len() - i,
            {
                let slot = &wheel.slots[i];
                let mut j: usize = 0;
                while j < slot.len()
                    invariant
                        w < self.wheels@.len(),
                        *wheel == self.wheels@[w as int],
                        i < wheel.slots@.len(),
                        j <= slot@.len(),
                        *slot == wheel.slots@[i as int],
                        forall|j2: int| 0 <= j2 < j ==> (#[trigger] slot@[j2]).id != id,
                    decreases slot@.len() - j,
                {
                    if slot[j].id == id {
                        proof {
                            assert(self.wheels@[w as int].slots@[i as int]@[j as int].id == id);
                        }
                        return Some((w, i, j));
                    }
                    j = j + 1;
                }
                i = i + 1;
            }
            w = w + 1;
        }
        proof {
            if holds_id(self.wheels@, id) {
                let (a, i, j) = choose|a: int, i: int, j: int|
                    0 <= a < self.wheels@.len() && 0 <= i < self.wheels@[a].slots@.len() && 0 <= j < self.wheels@[a].slots@[i]@.len()
                        && (#[trigger] self.wheels@[a].slots@[i]@[j]).id == id;
                assert(self.wheels@[a].slots@[i]@[j].id != id);
            }
        }
        None
    }

    /// The value of the first timer of id `timer_id`, if there is one.
    pub fn get_timer(&self, timer_id: &u64) -> (r: Option<&T>)
        requires
            self.wf(),
        ensures
            r is None <==> forall|v: T| self.timers().count((*timer_id, v)) == 0,
            r matches Some(v) ==> self.timers().count((*timer_id, *v)) > 0,
    {
        match self.find(*timer_id) {
            Some((w, i, j)) => {
                proof {
                    lemma_wheels_entry(self.wheels@, w as int, i as int, j as int);
                }
                Some(&self.wheels[w].slots[i][j].val)
            },
            None => {
                proof {
                    assert forall|v: T| self.timers().count((*timer_id, v)) == 0 by {
                        lemma_wheels_none(self.wheels@, *timer_id, v);
                    }
                }
                None
            },
        }
    }

    /// Takes out the first timer of id `timer_id` and gives its value, if
    /// there is one.
    pub fn del_timer(&mut self, timer_id: u64) -> (r: Option<T>)
        requires
            old(self).wf(),
        ensures
            final(self).wf(),
            r is None <==> forall|v: T| old(self).timers().count((timer_id, v)) == 0,
            r is None ==> final(self).timers() == old(self).timers(),
            r matches Some(v) ==> {
                &&& old(self).timers().count((timer_id, v)) > 0
                &&& final(self).timers() == old(self).timers().remove((timer_id, v))
            },
            final(self).spec_wheels() == old(self).spec_wheels(),
            final(self).spec_one_step() == old(self).spec_one_step(),
            final(self).spec_next_id() == old(self).spec_next_id(),
            final(self).spec_max_id() == old(self).spec_max_id(),
            final(self).spec_delay_id() == old(self).spec_delay_id(),
    {
        match self.find(timer_id) {
            None => {
                proof {
                    assert forall|v: T| old(self).timers().count((timer_id, v)) == 0 by {
                        lemma_wheels_none(old(self).wheels@, timer_id, v);
                    }
                }
                None
            },
            Some((w, i, j)) => {
                let ghost e = self.wheels@[w as int].slots@[i as int]@[j as int];
                let ghost x = (e.id, e.val);
                proof {
                    lemma_wheels_entry(self.wheels@, w as int, i as int, j as int);
                    assert(self.wheels@[w as int].wf());
                }
                let mut list = self.take_slot(w, i);
                let ghost mid = self.timers();
                let ghost full = list@;
                let removed = list.remove(j);
                proof {
                    lemma_slot_remove(full, j as int);
                    assert(list@ == full.remove(j as int));
                }
                let empty = self.replace_slot(w, i, list);
                proof {
                    assert(empty@.len() == 0);
                    assert(slot_bag(empty@) =~= Multiset::<(u64, T)>::empty());
                    assert forall|y: (u64, T)| #[trigger] self.timers().count(y) == old(self).timers().remove(x).count(y) by {
                        assert(self.timers().add(slot_bag(empty@)).count(y) == mid.add(slot_bag(list@)).count(y));
                        assert(mid.add(slot_bag(full)).count(y) == old(self).timers().count(y));
                    }
                    assert(self.timers() =~= old(self).timers().remove(x));
                    assert(old(self).timers().count(x) > 0);
                    assert(Multiset::singleton(x).subset_of(old(self).timers()));
                    assert forall|u: int| 0 <= u < self.wheels@.len() implies (#[trigger] self.wheels@[u]).wf() by {
                        assert(old(self).wheels@[u].wf());
                    }
                }
                self.len = self.len - 1;
                Some(removed.val)
            },
        }
    }

    /// The value of the first timer of id `timer_id`, to change in place, if
    /// there is one.
    pub fn get_mut_timer(&mut self, timer_id: &u64) -> (r: Option<&mut T>)
        requires
            old(self).wf(),
        ensures
            r is None <==> forall|v: T| old(self).timers().count((*timer_id, v)) == 0,
            r is None ==> *final(self) == *old(self),
            r matches Some(v) ==> {
                &&& old(self).timers().count((*timer_id, *v)) > 0
                &&& final(self).timers() == old(self).timers().remove((*timer_id, *v)).insert((*timer_id, *final(v)))
            },
            final(self).wf(),
            final(self).spec_wheels() == old(self).spec_wheels(),
            final(self).spec_one_step() == old(self).spec_one_step(),
            final(self).spec_next_id() == old(self).spec_next_id(),
            final(self).spec_max_id() == old(self).spec_max_id(),
            final(self).spec_delay_id() == old(self).spec_delay_id(),
    {
        match self.find(*timer_id) {
            None => {
                proof {
                    assert forall|v: T| old(self).timers().count((*timer_id, v)) == 0 by {
                        lemma_wheels_none(old(self).wheels@, *timer_id, v);
                    }
                }
                None
            },
            Some((w, i, j)) => {
                let ghost ws = self.wheels@;
                proof {
                    lemma_wheels_entry(ws, w as int, i as int, j as int);
                    assert(ws[w as int].wf());
                    assert forall|nw: OneTimerWheel<T>|
                        nw.slots@.len() == ws[w as int].slots@.len()
                        && (forall|k: int| 0 <= k < nw.slots@.len() && k != i ==> nw.slots@[k] == ws[w as int].slots@[k])
                        && nw.slots@[i as int]@.len() == ws[w as int].slots@[i as int]@.len()
                        && (forall|k: int| 0 <= k < nw.slots@[i as int]@.len() && k != j
                            ==> nw.slots@[i as int]@[k] == ws[w as int].slots@[i as int]@[k])
                        implies #[trigger] wheels_bag(ws.update(w as int, nw)) == wheels_bag(ws).remove(
                            (ws[w as int].slots@[i as int]@[j as int].id, ws[w as int].slots@[i as int]@[j as int].val),
                        ).insert((nw.slots@[i as int]@[j as int].id, nw.slots@[i as int]@[j as int].val)) by {
                        lemma_wheels_set_entry(ws, w as int, i as int, j as int, nw);
                    }
                }
                let wheel = &mut self.wheels[w];
                let slot = &mut wheel.slots[i];
                let ent = &mut slot[j];
                Some(&mut ent.val)
            },
        }
    }

    /// The time to the first due timer, in base steps, that the state of
    /// the wheels gives.
    pub closed spec fn next_delay(&self) -> int {
        delay_from(self.wheels@, 0, 0) / (self.one_step as int)
    }

    /// The first slot past the hand of wheel `w` that holds a timer, counted
    /// from the hand.
    fn first_busy_slot(&self, w: usize) -> (r: Option<u64>)
        requires
            self.wf(),
            w < self.wheels@.len(),
        ensures
            r matches Some(i) ==> first_busy(self.wheels@[w as int], 0) == Some(i as int)
                && i < self.wheels@[w as int].spec_num(),
            r is None ==> first_busy(self.wheels@[w as int], 0) is None,
    {
        let wheel = &self.wheels[w];
        let ghost wh = *wheel;
        proof {
            assert(self.wheels@[w as int].wf());
        }
        let num = wheel.num;
        let index = wheel.index;
        let mut i: u64 = 0;
        while i < num
            invariant
                wh == *wheel,
                w < self.wheels@.len(),
                wh == self.wheels@[w as int],
                wh.wf(),
                num == wh.num,
                index == wh.index,
                i <= num,
                first_busy(wh, 0) == first_busy(wh, i as int),
            decreases num - i,
        {
            let idx = (index + i) % num;
            if wheel.slots[idx as usize].len() > 0 {
                return Some(i);
            }
            i = i + 1;
        }
        None
    }

    /// Sets the time to the first due timer from the state of the wheels:
    /// the end of the first busy slot of the finest wheel that has one, or
    /// the span of the coarsest wheel when all are empty.
    pub fn calc_delay_id(&mut self)
        requires
            old(self).wf(),
        ensures
            final(self).wf(),
            final(self).spec_delay_id() == old(self).next_delay(),
            final(self).next_delay() == old(self).next_delay(),
            final(self).timers() == old(self).timers(),
            final(self).spec_wheels() == old(self).spec_wheels(),
            final(self).spec_one_step() == old(self).spec_one_step(),
            final(self).spec_next_id() == old(self).spec_next_id(),
            final(self).spec_max_id() == old(self).spec_max_id(),
            final(self).spec_elapsed() == old(self).spec_elapsed(),
    {
        let mut next_delay_id: u64 = 0;
        let mut w: usize = 0;
        while w < self.wheels.len()
            invariant
                self.wf(),
                *self == *old(self),
                w <= self.wheels@.len(),
                delay_from(self.wheels@, 0, 0) == delay_from(self.wheels@, w as int, next_delay_id as int),
            decreases self.wheels@.len() - w,
        {
            let ghost wh = self.wheels@[w as int];
            proof {
                assert(wh.wf());
            }
            let step = self.wheels[w].step;
            let num = self.wheels[w].num;
            match self.first_busy_slot(w) {
                Some(i) => {
                    proof {
                        assert((i + 1) * step <= num * step) by (nonlinear_arith)
                            requires
                                i < num,
                                step >= 1,
                        {
                        }
                    }
                    self.delay_id = (i + 1) * step / self.one_step;
                    return;
                },
                None => {},
            }
            next_delay_id = self.wheels[w].capation;
            w = w + 1;
        }
        self.delay_id = next_delay_id / self.one_step;
    }

    /// The time passed beyond the last whole base step.
    pub closed spec fn spec_elapsed(&self) -> u64 {
        self.all_deltatime
    }

    /// The timers that turning the wheels on by `steps` base steps brings
    /// due (see `fired`).
    pub closed spec fn fired_by(&self, steps: u64) -> Seq<(u64, T)> {
        fired(self.wheels@, 0, steps, 0)
    }

    /// Whether every wheel is well formed.
    pub closed spec fn wheels_wf(&self) -> bool {
        forall|u: int| 0 <= u < self.wheels@.len() ==> (#[trigger] self.wheels@[u]).wf()
    }

    /// Moves the hand of wheel `w` to slot `i`.
    fn set_index(&mut self, w: usize, i: u64)
        requires
            w < old(self).wheels@.len(),
            old(self).wheels@[w as int].wf(),
            i < old(self).wheels@[w as int].spec_num(),
        ensures
            final(self).wheels@.len() == old(self).wheels@.len(),
            forall|u: int| 0 <= u < old(self).wheels@.len() && u != w ==> #[trigger] final(self).wheels@[u] == old(self).wheels@[u],
            final(self).wheels@[w as int].wf(),
            final(self).wheels@[w as int].spec_num() == old(self).wheels@[w as int].spec_num(),
            final(self).wheels@[w as int].spec_step() == old(self).wheels@[w as int].spec_step(),
            final(self).wheels@[w as int].spec_fix_step() == old(self).wheels@[w as int].spec_fix_step(),
            final(self).wheels@[w as int].spec_index() == i,
            final(self).wheels@[w as int].slots@ == old(self).wheels@[w as int].slots@,
            final(self).timers() == old(self).timers(),
            final(self).one_step == old(self).one_step,
            final(self).len == old(self).len,
            final(self).delay_id == old(self).delay_id,
            final(self).next_timer_id == old(self).next_timer_id,
            final(self).max_timer_id == old(self).max_timer_id,
            final(self).all_deltatime == old(self).all_deltatime,
    {
        let ghost ws = self.wheels@;
        let wheel = &mut self.wheels[w];
        wheel.index = i;
        proof {
            let nw = self.wheels@[w as int];
            assert(nw.timers() == ws[w as int].timers());
            lemma_wheels_update(ws, w as int, nw);
            assert(self.wheels@ == ws.update(w as int, nw));
            assert(nw.slots@ == ws[w as int].slots@);
            assert forall|y: (u64, T)| #[trigger] self.timers().count(y) == old(self).timers().count(y) by {
                assert(wheels_bag(ws.update(w as int, nw)).add(ws[w as int].timers()).count(y)
                    == wheels_bag(ws).add(nw.timers()).count(y));
            }
            assert(self.timers() =~= old(self).timers());
        }
    }

    /// Moves the hand of wheel `w` on by `offset` slots, gives the timers
    /// of the slots it passes (at most one turn and one slot) to `result`,
    /// and, unless `w` is the finest wheel, hands the timers of the slot it
    /// stops at down to the finer wheel: those whose delay within a slot,
    /// less `remainder`, is over go to `result`, the others to the finer
    /// wheel. Gives how many turns the hand made, and where it stopped plus
    /// `remainder`.
    #[verifier::rlimit(100)]
    #[verifier::spinoff_prover]
    fn update_index(&mut self, w: usize, offset: u64, remainder: u64, result: &mut Vec<(u64, T)>) -> (r: (u64, u64))
        requires
            w < old(self).wheels@.len(),
            old(self).wheels_wf(),
            offset <= u64::MAX / 2,
        ensures
            final(self).wheels_wf(),
            final(self).wheels@.len() == old(self).wheels@.len(),
            forall|u: int| 0 <= u < old(self).wheels@.len() ==> {
                &&& (#[trigger] final(self).wheels@[u]).spec_num() == old(self).wheels@[u].spec_num()
                &&& final(self).wheels@[u].spec_step() == old(self).wheels@[u].spec_step()
                &&& final(self).wheels@[u].spec_fix_step() == old(self).wheels@[u].spec_fix_step()
                &&& u != w ==> final(self).wheels@[u].spec_index() == old(self).wheels@[u].spec_index()
            },
            final(self).wheels@[w as int].spec_index() == (old(self).wheels@[w as int].spec_index() + offset)
                % (old(self).wheels@[w as int].spec_num() as int),
            final(self).timers().add(final(result)@.to_multiset()) == old(self).timers().add(old(result)@.to_multiset()),
            final(result)@.len() >= old(result)@.len(),
            final(result)@.subrange(0, old(result)@.len() as int) == old(result)@,
            final(result)@ == old(result)@ + swept(old(self).wheels@[w as int],
                if offset < old(self).wheels@[w as int].spec_num() { offset as nat }
                else { old(self).wheels@[w as int].spec_num() as nat }) + if w > 0 {
                    due_part(hand_slot(old(self).wheels@[w as int], offset), old(self).wheels@[w as int].spec_step(), remainder)
                } else {
                    Seq::empty()
                },
            forall|u: int| w < u < old(self).wheels@.len() ==> #[trigger] final(self).wheels@[u] == old(self).wheels@[u],
            r.0 == (old(self).wheels@[w as int].spec_index() + offset) / (old(self).wheels@[w as int].spec_num() as int),
            r.0 <= offset,
            r.1 == if (old(self).wheels@[w as int].spec_index() + offset) % (old(self).wheels@[w as int].spec_num() as int)
                + remainder <= u64::MAX {
                ((old(self).wheels@[w as int].spec_index() + offset) % (old(self).wheels@[w as int].spec_num() as int)
                    + remainder) as u64
            } else {
                u64::MAX
            },
            final(self).one_step == old(self).one_step,
            final(self).len == old(self).len,
            final(self).delay_id == old(self).delay_id,
            final(self).next_timer_id == old(self).next_timer_id,
            final(self).max_timer_id == old(self).max_timer_id,
            final(self).all_deltatime == old(self).all_deltatime,
    {
        broadcast use vstd::seq_lib::group_to_multiset_ensures;

        let ghost base = old(self).timers().add(old(result)@.to_multiset());
        let ghost olen = old(result)@.len();
        proof {
            assert(old(self).wheels@[w as int].wf());
        }
        let num = self.wheels[w].num;
        let index = self.wheels[w].index;
        let step = self.wheels[w].step;
        let next = index + offset;
        let ghost ow = old(self).wheels@[w as int];
        let mut all: u64 = 0;
        let mut idx: u64 = index;
        proof {
            assert(old(result)@ + swept(ow, 0) =~= result@);
        }
        while idx < next && all <= num
            invariant
                Self::same_shape(old(self), self),
                self.wheels_wf(),
                self.len == old(self).len,
                w < self.wheels@.len(),
                ow == old(self).wheels@[w as int],
                ow.wf(),
                num == self.wheels@[w as int].spec_num(),
                num == ow.num,
                index == ow.index,
                1 <= num,
                index <= idx <= next,
                all == idx - index,
                all <= num + 1,
                self.wheels@[w as int].slots@.len() == num,
                forall|i: int| 0 <= i < num ==> {
                    &&& (i - index) % (num as int) < all ==> (#[trigger] self.wheels@[w as int].slots@[i])@.len() == 0
                    &&& (i - index) % (num as int) >= all ==> self.wheels@[w as int].slots@[i] == ow.slots@[i]
                },
                result@ == old(result)@ + swept(ow, if all < num { all as nat } else { num as nat }),
                forall|u: int| w < u < self.wheels@.len() ==> #[trigger] self.wheels@[u] == old(self).wheels@[u],
                self.timers().add(result@.to_multiset()) == base,
                result@.len() >= olen,
                result@.subrange(0, olen as int) == old(result)@,
            decreases next - idx,
        {
            let ghost a = all as int;
            let ghost pre = self.wheels@[w as int];
            all = all + 1;
            let slot = (idx % num) as usize;
            proof {
                assert(self.wheels@[w as int].wf());
                lemma_ring_step(index as int, num as int, a);
                assert(slot as int == (index + a) % (num as int));
            }
            let list = self.take_slot(w, slot);
            let ghost before = result@;
            self.drain_pairs(list, result);
            proof {
                lemma_slot_pairs(list@);
                assert(result@ == before + pairs(list@));
                vstd::seq_lib::lemma_multiset_commutative(before, pairs(list@));
                assert(self.timers().add(result@.to_multiset()) =~= base);
                assert(result@.subrange(0, olen as int) =~= before.subrange(0, olen as int));
                assert forall|u: int| 0 <= u < self.wheels@.len() implies (#[trigger] self.wheels@[u]).wf() by {
                    if u != w {
                    }
                }
                let cur = self.wheels@[w as int];
                assert forall|i: int| 0 <= i < num implies {
                    &&& (i - index) % (num as int) < all ==> (#[trigger] cur.slots@[i])@.len() == 0
                    &&& (i - index) % (num as int) >= all ==> cur.slots@[i] == ow.slots@[i]
                } by {
                    lemma_ring_offset(index as int, num as int, i);
                    if i != slot as int {
                        assert(cur.slots@[i] == pre.slots@[i]);
                        assert((i - index) % (num as int) != a);
                    }
                }
                if a < num {
                    assert(list@ == ow.slots@[slot as int]@);
                    assert(swept(ow, (a + 1) as nat) == swept(ow, a as nat) + pairs(ow.slots@[((ow.index + a) % (ow.num as int))]@));
                    assert(result@ =~= old(result)@ + swept(ow, (a + 1) as nat));
                } else {
                    assert(list@.len() == 0);
                    assert(pairs(list@) =~= Seq::<(u64, T)>::empty());
                    assert(result@ =~= before);
                }
            }
            idx = idx + 1;
        }
        proof {
            assert(self.wheels@[w as int].wf());
            assert(all == (if offset <= num { offset as int } else { num + 1 }));
        }
        let hand = next % num;
        self.set_index(w, hand);
        proof {
            assert forall|u: int| 0 <= u < self.wheels@.len() implies (#[trigger] self.wheels@[u]).wf() by {
            }
        }
        let ghost swept_part = result@;
        let ghost mid = self.wheels@[w as int];
        proof {
            lemma_ring_offset(index as int, num as int, hand as int);
            if offset < num {
                lemma_ring_step(index as int, num as int, offset as int);
            }
            assert(mid.slots@[hand as int]@ =~= hand_slot(ow, offset)) by {
                if offset < num {
                    assert(mid.slots@[hand as int] == ow.slots@[hand as int]);
                } else {
                    assert(mid.slots@[hand as int]@.len() == 0);
                }
            }
        }
        if w > 0 {
            let list = self.take_slot(w, hand as usize);
            self.hand_down(w - 1, list, step, remainder, result);
        }
        proof {
            assert(swept_part.subrange(0, olen as int) == old(result)@);
            assert(result@.subrange(0, swept_part.len() as int) =~= swept_part) by {
                if w > 0 {
                }
            }
            if w == 0 {
                assert(result@ =~= result@ + Seq::<(u64, T)>::empty());
            }
            assert(next / num <= offset) by (nonlinear_arith)
                requires
                    next == index + offset,
                    index < num,
                    num >= 1,
            {
            }
        }
        (next / num, (next % num).saturating_add(remainder))
    }

    /// Appends the `(id, value)` pairs of `list` to `result`, in order.
    fn drain_pairs(&self, list: Vec<WheelEntry<T>>, result: &mut Vec<(u64, T)>)
        ensures
            final(result)@ == old(result)@ + pairs(list@),
    {
        let ghost l = list@;
        for e in it: list.into_iter()
            invariant
                it.seq() == l,
                result@ == old(result)@ + pairs(l.take(it.index() as int)),
        {
            let ghost k = it.index();
            proof {
                assert(pairs(l.take(k + 1)) =~= pairs(l.take(k as int)).push((e.id, e.val)));
            }
            result.push((e.id, e.val));
        }
        proof {
            assert(l.take(l.len() as int) =~= l);
        }
    }

    /// Hands the timers of `list`, taken from a slot `step` base steps wide,
    /// down to wheel `c`: each waits its delay within such a slot less
    /// `remainder`; those with nothing left to wait go to `result`, the
    /// others into wheel `c` at that delay, taken modulo its slot count.
    fn hand_down(&mut self, c: usize, list: Vec<WheelEntry<T>>, step: u64, remainder: u64, result: &mut Vec<(u64, T)>)
        requires
            c < old(self).wheels@.len(),
            old(self).wheels_wf(),
            step >= 1,
        ensures
            Self::same_shape(old(self), final(self)),
            final(self).wheels_wf(),
            final(self).len == old(self).len,
            final(self).timers().add(final(result)@.to_multiset())
                == old(self).timers().add(old(result)@.to_multiset()).add(slot_bag(list@)),
            final(result)@.len() >= old(result)@.len(),
            final(result)@.subrange(0, old(result)@.len() as int) == old(result)@,
            final(result)@ == old(result)@ + due_part(list@, step, remainder),
            forall|u: int| c < u < old(self).wheels@.len() ==> #[trigger] final(self).wheels@[u] == old(self).wheels@[u],
    {
        broadcast use vstd::seq_lib::group_to_multiset_ensures;

        let ghost l = list@;
        let ghost base = old(self).timers().add(old(result)@.to_multiset()).add(slot_bag(l));
        let ghost olen = old(result)@.len();
        proof {
            assert(l.skip(0) =~= l);
            assert(l.take(0) =~= Seq::<WheelEntry<T>>::empty());
            assert(old(result)@ + due_part(l.take(0), step, remainder) =~= old(result)@);
        }
        for e in it: list.into_iter()
            invariant
                it.seq() == l,
                c < self.wheels@.len(),
                self.wheels_wf(),
                Self::same_shape(old(self), self),
                self.len == old(self).len,
                step >= 1,
                self.timers().add(result@.to_multiset()).add(slot_bag(l.skip(it.index() as int))) == base,
                result@.len() >= olen,
                result@.subrange(0, olen as int) == old(result)@,
                result@ == old(result)@ + due_part(l.take(it.index() as int), step, remainder),
                forall|u: int| c < u < self.wheels@.len() ==> #[trigger] self.wheels@[u] == old(self).wheels@[u],
        {
            let ghost k = it.index() as int;
            let ghost before = result@;
            proof {
                assert(l.take(k + 1).drop_last() =~= l.take(k));
                assert(l.take(k + 1).last() == l[k]);
            }
            proof {
                lemma_slot_remove(l.skip(k), 0);
                assert(l.skip(k).remove(0) =~= l.skip(k + 1));
                assert(l.skip(k)[0] == e);
            }
            let when = (e.when % step).saturating_sub(remainder);
            if when == 0 {
                result.push((e.id, e.val));
                proof {
                    assert(result@ == before.push((e.id, e.val)));
                    vstd::seq_lib::to_multiset_build(before, (e.id, e.val));
                    assert(result@.to_multiset() =~= before.to_multiset().insert((e.id, e.val)));
                    assert(result@.subrange(0, olen as int) =~= before.subrange(0, olen as int));
                    assert(e.when % step <= remainder);
                    assert(result@ =~= old(result)@ + due_part(l.take(k + 1), step, remainder));
                }
            } else {
                proof {
                    assert(self.wheels@[c as int].wf());
                    assert(!(e.when % step <= remainder));
                    assert(due_part(l.take(k + 1), step, remainder) == due_part(l.take(k), step, remainder));
                }
                let cn = self.wheels[c].num;
                let off = when % cn;
                let ghost pre = *self;
                self.add_timer_with_offset(c, WheelEntry { val: e.val, when, id: e.id }, off);
                proof {
                    assert forall|u: int| 0 <= u < self.wheels@.len() implies (#[trigger] self.wheels@[u]).wf() by {
                        assert(pre.wheels@[u].wf());
                    }
                }
            }
            proof {
                assert(self.timers().add(result@.to_multiset()).add(slot_bag(l.skip(k + 1))) =~= base);
            }
        }
        proof {
            assert(slot_bag(l.skip(l.len() as int)) =~= Multiset::<(u64, T)>::empty()) by {
                assert(l.skip(l.len() as int).len() == 0);
            }
            assert(l.take(l.len() as int) =~= l);
        }
    }

    /// What turning the wheels from `a` to time `now` gives: nothing, and
    /// only the time kept, when no timer can be due yet (fewer base steps
    /// than the time to the first due timer); else exactly the timers that
    /// turning the wheels on by the whole base steps brings due (see
    /// `fired`), with `b` keeping the rest, the time beyond the last whole base step,
    /// and the time to its first due timer.
    pub open spec fn turned(a: Self, b: Self, now: u64, r: Option<Vec<(u64, T)>>) -> bool {
        &&& b.wf()
        &&& (r is None <==> now / a.spec_one_step() < a.spec_delay_id())
        &&& r is None ==> {
            &&& b.timers() == a.timers()
            &&& b.spec_elapsed() == now
            &&& b.spec_delay_id() == a.spec_delay_id()
        }
        &&& r matches Some(v) ==> {
            &&& b.timers().add(v@.to_multiset()) == a.timers()
            &&& v@ == a.fired_by(now / a.spec_one_step())
            &&& b.spec_elapsed() == now % a.spec_one_step()
            &&& b.spec_delay_id() == b.next_delay()
        }
        &&& b.spec_wheels() == a.spec_wheels()
        &&& b.spec_one_step() == a.spec_one_step()
        &&& b.spec_next_id() == a.spec_next_id()
        &&& b.spec_max_id() == a.spec_max_id()
    }

    /// Turns the wheels to time `now`, counted in the unit of a base step
    /// from the last turn, and gives the timers due, unless none can be.
    pub fn update_now(&mut self, now: u64) -> (r: Option<Vec<(u64, T)>>)
        requires
            old(self).wf(),
            now / old(self).spec_one_step() <= u64::MAX / 2,
        ensures
            Self::turned(*old(self), *final(self), now, r),
    {
        broadcast use vstd::seq_lib::group_to_multiset_ensures;

        self.all_deltatime = now;
        let mut offset = now / self.one_step;
        if offset < self.delay_id {
            proof {
                assert(self.timers() == old(self).timers());
            }
            return None;
        }
        proof {
            assert(offset * self.one_step <= now) by (nonlinear_arith)
                requires
                    offset == now / self.one_step,
                    self.one_step >= 1,
            {
            }
        }
        self.all_deltatime = now - offset * self.one_step;
        proof {
            let d = self.all_deltatime;
            let st = self.one_step;
            assert(d == now % st) by (nonlinear_arith)
                requires
                    offset == now / st,
                    st >= 1,
                    d == now - offset * st,
            {
            }
            assert(self.timers() == old(self).timers());
        }
        let mut remainder: u64 = 0;
        let mut result: Vec<(u64, T)> = Vec::new();
        let mut w: usize = 0;
        let mut go = true;
        let ghost steps = offset;
        proof {
            assert(result@.to_multiset() =~= Multiset::<(u64, T)>::empty());
            assert(self.timers().add(result@.to_multiset()) =~= old(self).timers());
            assert(self.wheels@ == old(self).wheels@);
            assert(old(self).fired_by(steps) =~= result@ + fired(old(self).wheels@, 0, offset, remainder));
        }
        while go && w < self.wheels.len()
            invariant
                w <= self.wheels@.len(),
                self.wheels@.len() == old(self).wheels@.len(),
                self.wheels_wf(),
                self.len == old(self).len,
                self.one_step == old(self).one_step,
                self.one_step >= 1,
                self.next_timer_id == old(self).next_timer_id,
                self.max_timer_id == old(self).max_timer_id,
                self.all_deltatime == now % old(self).one_step,
                offset <= u64::MAX / 2,
                self.timers().add(result@.to_multiset()) == old(self).timers(),
                steps == now / old(self).one_step,
                w == 0 ==> go && offset == steps && remainder == 0 && result@.len() == 0,
                forall|u: int| w <= u < self.wheels@.len() ==> #[trigger] self.wheels@[u] == old(self).wheels@[u],
                go ==> old(self).fired_by(steps) == result@ + fired(old(self).wheels@, w as int, offset, remainder),
                !go ==> old(self).fired_by(steps) == result@,
            decreases self.wheels@.len() - w,
        {
            let ghost before = result@;
            let ghost ws = old(self).wheels@;
            let ghost off0 = offset;
            let ghost rem0 = remainder;
            proof {
                assert(self.wheels@[w as int] == ws[w as int]);
            }
            let (o, rem) = self.update_index(w, offset, remainder, &mut result);
            proof {
                let wh = ws[w as int];
                let here = swept(wh, if off0 < wh.num { off0 as nat } else { wh.num as nat }) + if w > 0 {
                    due_part(hand_slot(wh, off0), wh.step, rem0)
                } else {
                    Seq::empty()
                };
                assert(result@ =~= before + here);
                if o == 0 {
                    assert(fired(ws, w as int, off0, rem0) == here);
                    assert(old(self).fired_by(steps) =~= result@);
                } else {
                    assert(fired(ws, w as int, off0, rem0) == here + fired(ws, w + 1, o, rem));
                    assert(old(self).fired_by(steps) =~= result@ + fired(ws, w + 1, o, rem));
                }
            }
            offset = o;
            remainder = rem;
            if offset == 0 {
                go = false;
            }
            w = w + 1;
        }
        proof {
            assert(self.timers().len() + result@.len() == old(self).timers().len());
            if go {
                assert(fired(old(self).wheels@, w as int, offset, remainder) == Seq::<(u64, T)>::empty());
                assert(old(self).fired_by(steps) =~= result@);
            }
        }
        self.len = self.len - result.len();
        self.calc_delay_id();
        Some(result)
    }

    /// Turns the wheels on by `delta`, in the unit of a base step, and gives
    /// the timers due, unless none can be.
    pub fn update_deltatime(&mut self, delta: u64) -> (r: Option<Vec<(u64, T)>>)
        requires
            old(self).wf(),
            old(self).spec_elapsed().wrapping_add(delta) / old(self).spec_one_step() <= u64::MAX / 2,
        ensures
            Self::turned(*old(self), *final(self), old(self).spec_elapsed().wrapping_add(delta), r),
    {
        let now = self.all_deltatime.wrapping_add(delta);
        self.update_now(now)
    }
}

} // verus!
