use vstd::prelude::*;

use crate::timer::Timer;
use std::collections::HashMap;

verus! {

broadcast use vstd::std_specs::hash::group_hash_axioms;

/// Whether the timer due at `w1` with id `i1` comes before the one due at
/// `w2` with id `i2`: the earlier time first, and of two due at one time,
/// the one added later.
pub open spec fn due_before(w1: u64, i1: u64, w2: u64, i2: u64) -> bool {
    w1 < w2 || (w1 == w2 && i1 > i2)
}

/// Whether the timers `s`, each `(when, id, value)`, are in the order in
/// which they fall due, with distinct ids.
pub open spec fn in_due_order<T>(s: Seq<(u64, u64, T)>) -> bool {
    &&& forall|a: int, b: int| 0 <= a < b < s.len() ==> due_before(#[trigger] s[a].0, s[a].1, #[trigger] s[b].0, s[b].1)
    &&& forall|a: int, b: int| 0 <= a < s.len() && 0 <= b < s.len() && a != b ==> #[trigger] s[a].1 != #[trigger] s[b].1
}

/// Whether `p` is the place for a timer due at `when` among `s`: after
/// those due earlier, before the rest.
pub open spec fn place_for<T>(s: Seq<(u64, u64, T)>, when: u64, p: int) -> bool {
    &&& 0 <= p <= s.len()
    &&& forall|k: int| 0 <= k < p ==> #[trigger] s[k].0 < when
    &&& p < s.len() ==> s[p].0 >= when
}

/// The place for a timer due at `when` among `s`.
pub open spec fn insert_place<T>(s: Seq<(u64, u64, T)>, when: u64) -> int {
    choose|p: int| place_for(s, when, p)
}

/// Every time has a place among any timers.
pub proof fn lemma_place_exists<T>(s: Seq<(u64, u64, T)>, when: u64)
    ensures
        place_for(s, when, insert_place(s, when)),
    decreases s.len(),
{
    if s.len() == 0 {
        assert(place_for(s, when, 0));
    } else {
        let t = s.drop_last();
        lemma_place_exists(t, when);
        let q = insert_place(t, when);
        if q < t.len() {
            assert(t[q] == s[q]);
            assert forall|k: int| 0 <= k < q implies #[trigger] s[k].0 < when by {
                assert(t[k] == s[k]);
            }
            assert(place_for(s, when, q));
        } else if s.last().0 >= when {
            assert forall|k: int| 0 <= k < t.len() implies #[trigger] s[k].0 < when by {
                assert(t[k] == s[k]);
            }
            assert(place_for(s, when, t.len() as int));
        } else {
            assert forall|k: int| 0 <= k < s.len() implies #[trigger] s[k].0 < when by {
                if k < t.len() {
                    assert(t[k] == s[k]);
                }
            }
            assert(place_for(s, when, s.len() as int));
        }
    }
}

/// The number of leading timers of `s` due at or before `now`.
pub open spec fn due_prefix<T>(s: Seq<(u64, u64, T)>, now: u64, c: int) -> bool {
    &&& 0 <= c <= s.len()
    &&& forall|k: int| 0 <= k < c ==> #[trigger] s[k].0 <= now
    &&& c < s.len() ==> s[c].0 > now
}

/// Timers kept in the order in which they fall due, each under the id it
/// was given when added.
#[verifier::reject_recursive_types(T)]
pub struct TimerRBTree<T: Timer> {
    tree: Vec<(u64, u64, T)>,
    map: HashMap<u64, u64>,
    cur_step: u64,
    next_timer_id: u64,
}

impl<T: Timer> View for TimerRBTree<T> {
    type V = Seq<(u64, u64, T)>;

    /// The timers as `(when, id, value)`, the first due first.
    closed spec fn view(&self) -> Seq<(u64, u64, T)> {
        self.tree@
    }
}

impl<T: Timer> TimerRBTree<T> {
    /// The time up to which timers have been taken out.
    pub closed spec fn now(&self) -> u64 {
        self.cur_step
    }

    /// The id the next timer added will get.
    pub closed spec fn next_id(&self) -> u64 {
        self.next_timer_id
    }

    pub closed spec fn wf(&self) -> bool {
        &&& in_due_order(self.tree@)
        &&& forall|k: int| 0 <= k < self.tree@.len() ==> #[trigger] self.tree@[k].1 < self.next_timer_id
        &&& forall|k: int| 0 <= k < self.tree@.len() ==> #[trigger] self.map@.contains_key(self.tree@[k].1)
            && self.map@[self.tree@[k].1] == self.tree@[k].0
    }

    /// What a well-formed set of timers keeps: they are in due order, and
    /// each id is below the next one given.
    pub proof fn lemma_wf(&self)
        requires
            self.wf(),
        ensures
            in_due_order(self@),
            forall|k: int| 0 <= k < self@.len() ==> #[trigger] self@[k].1 < self.next_id(),
    {
    }

    proof fn lemma_wf_frame(a: &Self, b: &Self)
        requires
            a.wf(),
            a.tree@ == b.tree@,
            a.map@ == b.map@,
            a.next_timer_id == b.next_timer_id,
        ensures
            b.wf(),
    {
    }

    /// No timers, the time at 0.
    pub fn new() -> (r: Self)
        ensures
            r.wf(),
            r@ == Seq::<(u64, u64, T)>::empty(),
            r.now() == 0,
            r.next_id() == 0,
    {
        TimerRBTree { tree: Vec::new(), map: HashMap::new(), cur_step: 0, next_timer_id: 0 }
    }

    /// The id the next added timer gets.
    pub fn next_timer_id(&self) -> (r: u64)
        ensures
            r == self.next_id(),
    {
        self.next_timer_id
    }

    /// The number of timers.
    pub fn len(&self) -> (r: usize)
        ensures
            r == self@.len(),
    {
        self.tree.len()
    }

    pub fn is_empty(&self) -> (r: bool)
        ensures
            r == (self@.len() == 0),
    {
        self.tree.len() == 0
    }

    /// Drops all timers, and sets the time and the ids back to 0.
    pub fn clear(&mut self)
        ensures
            final(self).wf(),
            final(self)@ == Seq::<(u64, u64, T)>::empty(),
            final(self).now() == 0,
            final(self).next_id() == 0,
    {
        self.tree.clear();
        self.map.clear();
        self.cur_step = 0;
        self.next_timer_id = 0;
    }

    /// Adds `val`, due at `when`, and gives the id it gets.
    pub fn add_timer_at(&mut self, val: T, due: u64) -> (id: u64)
        requires
            old(self).wf(),
            old(self).next_id() < u64::MAX,
        ensures
            final(self).wf(),
            id == old(self).next_id(),
            final(self).next_id() == old(self).next_id() + 1,
            final(self).now() == old(self).now(),
            place_for(old(self)@, due, insert_place(old(self)@, due)),
            final(self)@ == old(self)@.insert(insert_place(old(self)@, due), (due, id, val)),
    {
        let id = self.next_timer_id;
        self.next_timer_id = self.next_timer_id + 1;
        let mut p: usize = 0;
        while p < self.tree.len() && self.tree[p].0 < due
            invariant
                p <= self.tree@.len(),
                forall|k: int| 0 <= k < p ==> #[trigger] self.tree@[k].0 < due,
                self.tree@ == old(self).tree@,
                self.map@ == old(self).map@,
                self.next_timer_id == id + 1,
                id == old(self).next_timer_id,
                self.cur_step == old(self).cur_step,
            decreases self.tree@.len() - p,
        {
            p = p + 1;
        }
        let ghost before = self.tree@;
        self.tree.insert(p, (due, id, val));
        self.map.insert(id, due);
        proof {
            let s = self.tree@;
            assert(s == before.insert(p as int, (due, id, val)));
            assert forall|a: int, b: int| 0 <= a < b < s.len() implies due_before(#[trigger] s[a].0, s[a].1, #[trigger] s[b].0, s[b].1) by {
                if b < p {
                } else if a < p && b == p {
                } else if a < p {
                    assert(s[b] == before[b - 1]);
                } else if a == p {
                    assert(s[b] == before[b - 1]);
                    assert(before[p as int].0 >= due);
                    if b - 1 > p {
                        assert(due_before(before[p as int].0, before[p as int].1, before[b - 1].0, before[b - 1].1));
                    }
                } else {
                    assert(s[a] == before[a - 1]);
                    assert(s[b] == before[b - 1]);
                }
            }
            assert forall|a: int, b: int| 0 <= a < s.len() && 0 <= b < s.len() && a != b implies #[trigger] s[a].1 != #[trigger] s[b].1 by {
                if a != p && b != p {
                    let a2 = if a < p { a } else { a - 1 };
                    let b2 = if b < p { b } else { b - 1 };
                    assert(s[a] == before[a2]);
                    assert(s[b] == before[b2]);
                } else if a == p {
                    let b2 = if b < p { b } else { b - 1 };
                    assert(s[b] == before[b2]);
                } else {
                    let a2 = if a < p { a } else { a - 1 };
                    assert(s[a] == before[a2]);
                }
            }
            assert forall|k: int| 0 <= k < s.len() implies #[trigger] s[k].1 < self.next_timer_id by {
                if k != p {
                    let k2 = if k < p { k } else { k - 1 };
                    assert(s[k] == before[k2]);
                }
            }
            assert forall|k: int| 0 <= k < s.len() implies #[trigger] self.map@.contains_key(s[k].1) && self.map@[s[k].1] == s[k].0 by {
                if k != p {
                    let k2 = if k < p { k } else { k - 1 };
                    assert(s[k] == before[k2]);
                }
            }
            assert(place_for(before, due, p as int));
            let q = insert_place(before, due);
            assert(place_for(before, due, q));
            if q < p {
                assert(before[q].0 < due);
            } else if q > p {
                assert(before[p as int].0 < due);
            }
            assert(q == p);
        }
        id
    }

    /// Adds `val`, due at the time it tells, and gives the id it gets.
    pub fn add_timer(&mut self, val: T) -> (id: u64)
        requires
            old(self).wf(),
            old(self).next_id() < u64::MAX,
        ensures
            final(self).wf(),
            id == old(self).next_id(),
            final(self).next_id() == old(self).next_id() + 1,
            final(self).now() == old(self).now(),
            exists|w: u64| final(self)@ == old(self)@.insert(insert_place(old(self)@, w), (w, id, val)),
    {
        let due = val.when();
        self.add_timer_at(val, due)
    }

    /// Adds back each timer of `again`, in order, as `add_timer` does: they
    /// get the next ids in turn.
    pub fn rearm(&mut self, again: Vec<T>)
        requires
            old(self).wf(),
            old(self).next_id() + again@.len() <= u64::MAX,
        ensures
            final(self).wf(),
            final(self).next_id() == old(self).next_id() + again@.len(),
            final(self).now() == old(self).now(),
            final(self)@.len() == old(self)@.len() + again@.len(),
    {
        let ghost a = again@;
        for e in it: again.into_iter()
            invariant
                it.seq() == a,
                self.wf(),
                old(self).next_id() + a.len() <= u64::MAX,
                self.next_id() == old(self).next_id() + it.index(),
                self.now() == old(self).now(),
                self@.len() == old(self)@.len() + it.index(),
        {
            let ghost before = self@;
            let _ = self.add_timer(e);
            proof {
                let w = choose|w: u64| self@ == before.insert(insert_place(before, w), (w, (old(self).next_id() + it.index()) as u64, e));
                lemma_place_exists(before, w);
            }
        }
    }

    /// The place of the timer with id `timer_id`, if there is one.
    fn find(&self, timer_id: u64) -> (r: Option<usize>)
        requires
            self.wf(),
        ensures
            r matches Some(k) ==> k < self@.len() && self@[k as int].1 == timer_id,
            r is None ==> forall|k: int| 0 <= k < self@.len() ==> #[trigger] self@[k].1 != timer_id,
    {
        let when = match self.map.get(&timer_id) {
            Some(w) => *w,
            None => {
                proof {
                    assert forall|k: int| 0 <= k < self@.len() implies #[trigger] self@[k].1 != timer_id by {
                        assert(self.map@.contains_key(self.tree@[k].1));
                    }
                }
                return None;
            },
        };
        let mut k: usize = 0;
        while k < self.tree.len()
            invariant
                k <= self.tree@.len(),
                forall|j: int| 0 <= j < k ==> !(#[trigger] self.tree@[j].1 == timer_id && self.tree@[j].0 == when),
            decreases self.tree@.len() - k,
        {
            if self.tree[k].1 == timer_id && self.tree[k].0 == when {
                return Some(k);
            }
            k = k + 1;
        }
        proof {
            assert forall|j: int| 0 <= j < self@.len() implies #[trigger] self@[j].1 != timer_id by {
                if self.tree@[j].1 == timer_id {
                    assert(self.map@[self.tree@[j].1] == self.tree@[j].0);
                }
            }
        }
        None
    }

    /// Removes the timer with id `timer_id` and gives its value, if there is
    /// one.
    pub fn del_timer(&mut self, timer_id: u64) -> (r: Option<T>)
        requires
            old(self).wf(),
        ensures
            final(self).wf(),
            final(self).now() == old(self).now(),
            final(self).next_id() == old(self).next_id(),
            (r is Some) <==> exists|k: int| 0 <= k < old(self)@.len() && old(self)@[k].1 == timer_id,
            r is None ==> final(self)@ == old(self)@,
            r matches Some(v) ==> exists|k: int| 0 <= k < old(self)@.len() && old(self)@[k].1 == timer_id
                && v == old(self)@[k].2 && final(self)@ == old(self)@.remove(k),
    {
        match self.find(timer_id) {
            None => None,
            Some(k) => {
                let ghost before = self.tree@;
                let e = self.tree.remove(k);
                let _ = self.map.remove(&timer_id);
                proof {
                    let s = self.tree@;
                    assert(before == old(self).tree@);
                    assert(self.map@ == old(self).map@.remove(timer_id));
                    assert(s == before.remove(k as int));
                    assert forall|a: int, b: int| 0 <= a < b < s.len() implies due_before(#[trigger] s[a].0, s[a].1, #[trigger] s[b].0, s[b].1) by {
                        let a2 = if a < k { a } else { a + 1 };
                        let b2 = if b < k { b } else { b + 1 };
                        assert(s[a] == before[a2]);
                        assert(s[b] == before[b2]);
                    }
                    assert forall|a: int, b: int| 0 <= a < s.len() && 0 <= b < s.len() && a != b implies #[trigger] s[a].1 != #[trigger] s[b].1 by {
                        let a2 = if a < k { a } else { a + 1 };
                        let b2 = if b < k { b } else { b + 1 };
                        assert(s[a] == before[a2]);
                        assert(s[b] == before[b2]);
                    }
                    assert forall|j: int| 0 <= j < s.len() implies #[trigger] s[j].1 < self.next_timer_id
                        && self.map@.contains_key(s[j].1) && self.map@[s[j].1] == s[j].0 by {
                        let j2 = if j < k { j } else { j + 1 };
                        assert(s[j] == before[j2]);
                        assert(before[k as int].1 == timer_id);
                        assert(before[j2].1 != before[k as int].1);
                        assert(old(self).map@.contains_key(before[j2].1));
                    }
                }
                Some(e.2)
            },
        }
    }

    /// The value of the timer with id `timer_id`, if there is one.
    pub fn get_timer(&self, timer_id: &u64) -> (r: Option<&T>)
        requires
            self.wf(),
        ensures
            (r is Some) <==> exists|k: int| 0 <= k < self@.len() && self@[k].1 == *timer_id,
            r matches Some(v) ==> exists|k: int| 0 <= k < self@.len() && self@[k].1 == *timer_id && *v == self@[k].2,
    {
        match self.find(*timer_id) {
            None => None,
            Some(k) => Some(&self.tree[k].2),
        }
    }

    /// The value of the timer with id `timer_id`, for change, if there is
    /// one; its time stays as it was.
    pub fn get_mut_timer(&mut self, timer_id: &u64) -> (r: Option<&mut T>)
        requires
            old(self).wf(),
        ensures
            (r is Some) <==> exists|k: int| 0 <= k < old(self)@.len() && old(self)@[k].1 == *timer_id,
            r is None ==> *final(self) == *old(self),
            r matches Some(v) ==> exists|k: int| 0 <= k < old(self)@.len() && old(self)@[k].1 == *timer_id
                && *v == old(self)@[k].2
                && final(self)@ == old(self)@.update(k, (old(self)@[k].0, old(self)@[k].1, *final(v))),
            final(self).wf(),
            final(self).now() == old(self).now(),
            final(self).next_id() == old(self).next_id(),
    {
        match self.find(*timer_id) {
            None => None,
            Some(k) => {
                let e = &mut self.tree[k];
                Some(&mut e.2)
            },
        }
    }

    /// The time of the first timer due, if there is one.
    pub fn tick_first(&self) -> (r: Option<u64>)
        ensures
            r is None <==> self@.len() == 0,
            r matches Some(w) ==> w == self@[0].0,
    {
        if self.tree.len() == 0 {
            None
        } else {
            Some(self.tree[0].0)
        }
    }

    /// Takes out the first timer due, if it is due at or before `tm`.
    pub fn tick_time(&mut self, tm: u64) -> (r: Option<T>)
        requires
            old(self).wf(),
        ensures
            final(self).wf(),
            final(self).now() == old(self).now(),
            final(self).next_id() == old(self).next_id(),
            (r is Some) <==> old(self)@.len() > 0 && old(self)@[0].0 <= tm,
            r is None ==> final(self)@ == old(self)@,
            r matches Some(v) ==> v == old(self)@[0].2 && final(self)@ == old(self)@.drop_first(),
    {
        if self.tree.len() == 0 || tm < self.tree[0].0 {
            return None;
        }
        let ghost before = self.tree@;
        let e = self.tree.remove(0);
        proof {
            let s = self.tree@;
            assert(s =~= before.drop_first());
            assert forall|a: int, b: int| 0 <= a < b < s.len() implies due_before(#[trigger] s[a].0, s[a].1, #[trigger] s[b].0, s[b].1) by {
                assert(s[a] == before[a + 1]);
                assert(s[b] == before[b + 1]);
            }
            assert forall|a: int, b: int| 0 <= a < s.len() && 0 <= b < s.len() && a != b implies #[trigger] s[a].1 != #[trigger] s[b].1 by {
                assert(s[a] == before[a + 1]);
                assert(s[b] == before[b + 1]);
            }
            assert forall|j: int| 0 <= j < s.len() implies #[trigger] s[j].1 < self.next_timer_id
                && self.map@.contains_key(s[j].1) && self.map@[s[j].1] == s[j].0 by {
                assert(s[j] == before[j + 1]);
            }
        }
        Some(e.2)
    }

    /// Sets the time to `now` and takes out, in due order, the values of
    /// all timers due at or before it.
    pub fn update_now(&mut self, now: u64) -> (r: Option<Vec<T>>)
        requires
            old(self).wf(),
        ensures
            final(self).wf(),
            final(self).now() == now,
            final(self).next_id() == old(self).next_id(),
            r matches Some(v) && due_prefix(old(self)@, now, v@.len() as int)
                && (forall|k: int| 0 <= k < v@.len() ==> #[trigger] v@[k] == old(self)@[k].2)
                && final(self)@ == old(self)@.skip(v@.len() as int),
    {
        let ghost s0 = self.tree@;
        let mut result: Vec<T> = Vec::new();
        self.cur_step = now;
        proof {
            Self::lemma_wf_frame(old(self), self);
        }
        loop
            invariant
                self.wf(),
                self.cur_step == now,
                self.next_timer_id == old(self).next_id(),
                s0 == old(self)@,
                result@.len() <= s0.len(),
                self.tree@ == s0.skip(result@.len() as int),
                forall|k: int| 0 <= k < result@.len() ==> #[trigger] s0[k].0 <= now,
                forall|k: int| 0 <= k < result@.len() ==> #[trigger] result@[k] == s0[k].2,
            ensures
                self.wf(),
                self.cur_step == now,
                self.next_timer_id == old(self).next_id(),
                due_prefix(s0, now, result@.len() as int),
                self.tree@ == s0.skip(result@.len() as int),
                forall|k: int| 0 <= k < result@.len() ==> #[trigger] result@[k] == s0[k].2,
            decreases self.tree@.len(),
        {
            let ghost n = result@.len() as int;
            match self.tick_first() {
                Some(w) => {
                    if now < w {
                        break;
                    }
                },
                None => {
                    break;
                },
            }
            proof {
                assert(self.tree@[0] == s0[n]);
            }
            let v = self.tick_time(now);
            match v {
                Some(x) => {
                    result.push(x);
                    proof {
                        assert(self.tree@ =~= s0.skip(n + 1));
                    }
                },
                None => {
                    break;
                },
            }
        }
        Some(result)
    }

    /// Moves the time on by `delta`, wrapping round, and takes out the timers
    /// due by then, as `update_now` does.
    pub fn update_deltatime(&mut self, delta: u64) -> (r: Option<Vec<T>>)
        requires
            old(self).wf(),
        ensures
            final(self).wf(),
            final(self).now() == old(self).now().wrapping_add(delta),
            final(self).next_id() == old(self).next_id(),
            r matches Some(v) && due_prefix(old(self)@, old(self).now().wrapping_add(delta), v@.len() as int)
                && (forall|k: int| 0 <= k < v@.len() ==> #[trigger] v@[k] == old(self)@[k].2)
                && final(self)@ == old(self)@.skip(v@.len() as int),
    {
        let now = self.cur_step.wrapping_add(delta);
        self.update_now(now)
    }

    /// Timers leave in due order: once `update_now(now)` has taken out the
    /// leading timers due by `now`, every timer left is due after `now`, and
    /// the ones taken out came in due order.
    pub proof fn law_left_timers_due_later(s: Seq<(u64, u64, T)>, now: u64, c: int)
        requires
            in_due_order(s),
            due_prefix(s, now, c),
        ensures
            forall|k: int| c <= k < s.len() ==> (#[trigger] s[k]).0 > now,
            forall|a: int, b: int| 0 <= a < b < c ==> due_before(#[trigger] s[a].0, s[a].1, #[trigger] s[b].0, s[b].1),
    {
        assert forall|k: int| c <= k < s.len() implies (#[trigger] s[k]).0 > now by {
            if k > c {
                assert(due_before(s[c].0, s[c].1, s[k].0, s[k].1));
            }
        }
    }
}

} // verus!
