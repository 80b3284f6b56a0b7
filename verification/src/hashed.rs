//! The timer executor built over the hashed timing wheel: monotonic id
//! allocation, the fired-id set, and the waker registry.
//!
//! [`TimerExecutorImpl`] is the core that expects exclusive access;
//! [`TimerExecutor`] adds the duration-to-tick conversion and hands out
//! [`Timeout`] handles. A caller that wants a background driver wraps an
//! executor in a lock, ticks it on a fixed cadence, and invokes the wakers
//! each tick returns; [`driver_should_continue`] is the driver's stop
//! decision.

use std::collections::HashMap;
use std::collections::HashSet;

use vstd::prelude::*;

use crate::timewheel::after_ticks;
use crate::timewheel::fires_at;
use crate::timewheel::lemma_add_keeps_distinct;
use crate::timewheel::lemma_add_preserves_absent;
use crate::timewheel::lemma_no_fire_before_deadline;
use crate::timewheel::lemma_tick_keeps_distinct;
use crate::timewheel::lemma_tick_preserves_absent;
use crate::timewheel::lemma_wf_after_tick;
use crate::timewheel::wheel_distinct;
use crate::timewheel::TimeWheel;
use crate::timewheel::WheelEntry;
use crate::timewheel::WheelView;

verus! {

use vstd::arithmetic::div_mod::{
    lemma_basic_div,
    lemma_div_by_self,
    lemma_div_is_ordered,
    lemma_div_nonincreasing,
    lemma_div_is_strictly_smaller,
    lemma_div_pos_is_pos,
    lemma_fundamental_div_mod,
    lemma_fundamental_div_mod_converse_div,
    lemma_mod_division_less_than_divisor,
    lemma_mod_multiples_vanish,
    lemma_mod_self_0,
    lemma_small_mod,
};

broadcast use vstd::std_specs::hash::group_hash_axioms;

/// The result of polling a timer: either its firing has been observed and
/// consumed, or the poll registered a waker and the caller should suspend.
#[derive(Clone, Copy, PartialEq, Eq, Structural, Debug)]
pub enum TimerPoll {
    Ready,
    Pending,
}

/// The mathematical state of an executor: the id counter, the wheel, the
/// registered wakers, and the fired ids not yet consumed by a poll.
pub ghost struct ExecView<W> {
    pub timer_id_seq: u64,
    pub wheel: WheelView,
    pub wakers: Map<u64, W>,
    pub fired: Set<u64>,
}

/// The fired set after recording `ids`, first to last.
pub open spec fn fired_after(f: Set<u64>, ids: Seq<u64>) -> Set<u64>
    decreases ids.len(),
{
    if ids.len() == 0 {
        f
    } else {
        fired_after(f.insert(ids.first()), ids.drop_first())
    }
}

/// The waker registry after the registrations for `ids` are taken out,
/// first to last.
pub open spec fn wakers_after<W>(m: Map<u64, W>, ids: Seq<u64>) -> Map<u64, W>
    decreases ids.len(),
{
    if ids.len() == 0 {
        m
    } else {
        wakers_after(m.remove(ids.first()), ids.drop_first())
    }
}

/// Of the ids in `ids`, taken first to last, those that find a registration
/// in `m` at their turn; an id seen twice finds its registration only once.
pub open spec fn wake_ids_of<W>(m: Map<u64, W>, ids: Seq<u64>) -> Seq<u64>
    decreases ids.len(),
{
    if ids.len() == 0 {
        Seq::empty()
    } else if m.contains_key(ids.first()) {
        seq![ids.first()] + wake_ids_of(m.remove(ids.first()), ids.drop_first())
    } else {
        wake_ids_of(m, ids.drop_first())
    }
}

/// The ids of a wake list.
pub open spec fn ids_of<W>(ws: Seq<(u64, W)>) -> Seq<u64> {
    ws.map_values(|p: (u64, W)| p.0)
}

impl<W> ExecView<W> {
    /// A well-formed executor sits on a well-formed wheel.
    pub open spec fn wf(self) -> bool {
        self.wheel.wf()
    }

    /// The id the next created timer gets.
    pub open spec fn next_id(self) -> u64 {
        (self.timer_id_seq + 1) as u64
    }

    /// The executor after creating one timer with `delay_ticks`: the counter
    /// advances and the new id enters the wheel.
    pub open spec fn after_create(self, delay_ticks: u64) -> ExecView<W> {
        ExecView {
            timer_id_seq: self.next_id(),
            wheel: self.wheel.after_add(delay_ticks, self.next_id()),
            ..self
        }
    }

    /// Whether a poll for `id` observes Ready: exactly when `id` has fired
    /// and has not been consumed.
    pub open spec fn poll_ready(self, id: u64) -> bool {
        self.fired.contains(id)
    }

    /// The executor after a poll for `id`: a Ready poll consumes the firing;
    /// a Pending poll registers `w`, displacing any earlier registration.
    pub open spec fn after_poll(self, id: u64, w: W) -> ExecView<W> {
        if self.poll_ready(id) {
            ExecView { fired: self.fired.remove(id), ..self }
        } else {
            ExecView { wakers: self.wakers.insert(id, w), ..self }
        }
    }

    /// The ids whose wakers the next tick hands back to be invoked.
    pub open spec fn tick_wake_ids(self) -> Seq<u64> {
        wake_ids_of(self.wakers, self.wheel.tick_fired())
    }

    /// The executor after one tick: the wheel advances, every id it fires is
    /// recorded, and the registration of each fired id is taken out.
    pub open spec fn after_tick(self) -> ExecView<W> {
        let ids = self.wheel.tick_fired();
        ExecView {
            wheel: self.wheel.after_tick(),
            fired: fired_after(self.fired, ids),
            wakers: wakers_after(self.wakers, ids),
            ..self
        }
    }

    /// The id-lifecycle invariant: every id the wheel or the fired set holds
    /// was allocated; the wheel carries at most one entry per id; and no id
    /// is both pending in the wheel and fired-but-unconsumed.
    pub open spec fn inv(self) -> bool {
        &&& self.wf()
        &&& wheel_distinct(self.wheel)
        &&& forall|t: int, i: int|
            0 <= t < self.wheel.slots.len() && 0 <= i < self.wheel.slots[t].len() ==> 1 <= (
            #[trigger] self.wheel.slots[t][i]).timer_id <= self.timer_id_seq
        &&& forall|id: u64| #[trigger] self.fired.contains(id) ==> 1 <= id <= self.timer_id_seq
        &&& forall|t: int, i: int|
            0 <= t < self.wheel.slots.len() && 0 <= i < self.wheel.slots[t].len()
                ==> !self.fired.contains((#[trigger] self.wheel.slots[t][i]).timer_id)
    }

    /// A retired id: it was allocated, its firing (if any) has been
    /// consumed, and it is pending nowhere.
    pub open spec fn retired(self, id: u64) -> bool {
        &&& 1 <= id <= self.timer_id_seq
        &&& !self.fired.contains(id)
        &&& self.wheel.id_absent(id)
    }
}

/// Membership in the fired set after recording `ids`.
proof fn lemma_fired_after_membership(f: Set<u64>, ids: Seq<u64>, x: u64)
    ensures
        fired_after(f, ids).contains(x) <==> f.contains(x) || ids.contains(x),
    decreases ids.len(),
{
    broadcast use vstd::seq_lib::lemma_seq_contains;

    if ids.len() == 0 {
        assert(!ids.contains(x));
    } else {
        lemma_fired_after_membership(f.insert(ids.first()), ids.drop_first(), x);
        assert(ids.contains(x) <==> (x == ids[0] || ids.drop_first().contains(x))) by {
            if ids.contains(x) {
                let i = choose|i: int| 0 <= i < ids.len() && ids[i] == x;
                if i > 0 {
                    assert(ids.drop_first()[i - 1] == x);
                }
            }
            if ids.drop_first().contains(x) {
                let i = choose|i: int| 0 <= i < ids.drop_first().len() && ids.drop_first()[i] == x;
                assert(ids[i + 1] == x);
            }
        }
    }
}

/// Membership in the waker registry after the registrations for `ids` are
/// taken out.
proof fn lemma_wakers_after_dom<W>(m: Map<u64, W>, ids: Seq<u64>, x: u64)
    ensures
        wakers_after(m, ids).dom().contains(x) <==> m.dom().contains(x) && !ids.contains(x),
        wakers_after(m, ids).dom().contains(x) ==> wakers_after(m, ids)[x] == m[x],
    decreases ids.len(),
{
    broadcast use vstd::seq_lib::lemma_seq_contains;

    if ids.len() == 0 {
        assert(!ids.contains(x));
    } else {
        lemma_wakers_after_dom(m.remove(ids.first()), ids.drop_first(), x);
        assert(ids.contains(x) <==> (x == ids[0] || ids.drop_first().contains(x))) by {
            if ids.contains(x) {
                let i = choose|i: int| 0 <= i < ids.len() && ids[i] == x;
                if i > 0 {
                    assert(ids.drop_first()[i - 1] == x);
                }
            }
            if ids.drop_first().contains(x) {
                let i = choose|i: int| 0 <= i < ids.drop_first().len() && ids.drop_first()[i] == x;
                assert(ids[i + 1] == x);
            }
        }
    }
}

/// Membership in a wake list: exactly the ids fired while registered.
proof fn lemma_wake_ids_membership<W>(m: Map<u64, W>, ids: Seq<u64>, x: u64)
    ensures
        wake_ids_of(m, ids).contains(x) <==> m.dom().contains(x) && ids.contains(x),
    decreases ids.len(),
{
    broadcast use vstd::seq_lib::lemma_seq_contains, vstd::seq_lib::lemma_seq_concat_contains_all_elements;

    if ids.len() == 0 {
        assert(!ids.contains(x));
    } else {
        assert(ids.contains(x) <==> (x == ids[0] || ids.drop_first().contains(x))) by {
            if ids.contains(x) {
                let i = choose|i: int| 0 <= i < ids.len() && ids[i] == x;
                if i > 0 {
                    assert(ids.drop_first()[i - 1] == x);
                }
            }
            if ids.drop_first().contains(x) {
                let i = choose|i: int| 0 <= i < ids.drop_first().len() && ids.drop_first()[i] == x;
                assert(ids[i + 1] == x);
            }
        }
        assert(seq![ids.first()].contains(x) <==> x == ids.first()) by {
            if x == ids.first() {
                assert(seq![ids.first()][0] == x);
            }
        }
        if m.contains_key(ids.first()) {
            lemma_wake_ids_membership(m.remove(ids.first()), ids.drop_first(), x);
        } else {
            lemma_wake_ids_membership(m, ids.drop_first(), x);
        }
    }
}

/// A wake list never names an id twice: the registration is taken out the
/// moment the id first finds it.
proof fn lemma_wake_ids_no_dup<W>(m: Map<u64, W>, ids: Seq<u64>)
    ensures
        wake_ids_of(m, ids).no_duplicates(),
    decreases ids.len(),
{
    broadcast use vstd::seq_lib::lemma_seq_contains;

    if ids.len() > 0 {
        if m.contains_key(ids.first()) {
            lemma_wake_ids_no_dup(m.remove(ids.first()), ids.drop_first());
            let rest = wake_ids_of(m.remove(ids.first()), ids.drop_first());
            let l = seq![ids.first()] + rest;
            assert forall|i: int, j: int| 0 <= i < j < l.len() implies l[i] != l[j] by {
                if i == 0 {
                    assert(l[j] == rest[j - 1]);
                    assert(rest.contains(rest[j - 1]));
                    lemma_wake_ids_membership(m.remove(ids.first()), ids.drop_first(), rest[j - 1]);
                } else {
                    assert(l[i] == rest[i - 1] && l[j] == rest[j - 1]);
                }
            }
        } else {
            lemma_wake_ids_no_dup(m, ids.drop_first());
        }
    }
}

/// Creating a timer preserves the id-lifecycle invariant, and the new id was
/// carried by nothing beforehand.
pub proof fn lemma_inv_create<W>(s: ExecView<W>, n: u64)
    requires
        s.inv(),
        n >= 1,
        s.timer_id_seq < u64::MAX,
    ensures
        s.after_create(n).inv(),
        s.wheel.id_absent(s.next_id()),
{
    let id = s.next_id();
    let v = s.wheel;
    let z = s.after_create(n);
    let w = z.wheel;
    let slot = v.slot_for(n);
    lemma_mod_division_less_than_divisor(v.cursor + n, v.size());
    assert(v.id_absent(id));
    lemma_add_keeps_distinct(v, n, id);
    assert forall|t: int, i: int|
        0 <= t < w.slots.len() && 0 <= i < w.slots[t].len() implies 1 <= (
    #[trigger] w.slots[t][i]).timer_id <= z.timer_id_seq && !z.fired.contains(
        w.slots[t][i].timer_id,
    ) by {
        if t != slot || i < v.slots[slot].len() {
            assert(w.slots[t][i] == v.slots[t][i]);
        } else {
            assert(w.slots[t][i].timer_id == id);
        }
    }
}

/// Polling preserves the id-lifecycle invariant.
pub proof fn lemma_inv_poll<W>(s: ExecView<W>, id: u64, w: W)
    requires
        s.inv(),
    ensures
        s.after_poll(id, w).inv(),
{
}

/// Ticking preserves the id-lifecycle invariant.
pub proof fn lemma_inv_tick<W>(s: ExecView<W>)
    requires
        s.inv(),
    ensures
        s.after_tick().inv(),
{
    let v = s.wheel;
    let z = s.after_tick();
    let ids = v.tick_fired();
    lemma_wf_after_tick(v);
    lemma_tick_keeps_distinct(v);
    assert forall|x: u64| #[trigger] z.fired.contains(x) implies 1 <= x <= z.timer_id_seq by {
        lemma_fired_after_membership(s.fired, ids, x);
        if ids.contains(x) {
            assert(!v.id_absent(x));
            let (t0, i0): (int, int) = choose|t0: int, i0: int|
                0 <= t0 < v.slots.len() && 0 <= i0 < v.slots[t0].len() && (
                #[trigger] v.slots[t0][i0]).timer_id == x;
        }
    }
    assert forall|t: int, i: int|
        0 <= t < z.wheel.slots.len() && 0 <= i < z.wheel.slots[t].len() implies 1 <= (
    #[trigger] z.wheel.slots[t][i]).timer_id <= z.timer_id_seq && !z.fired.contains(
        z.wheel.slots[t][i].timer_id,
    ) by {
        let x = z.wheel.slots[t][i].timer_id;
        let (t0, i0): (int, int) = choose|t0: int, i0: int|
            0 <= t0 < v.slots.len() && 0 <= i0 < v.slots[t0].len() && (
            #[trigger] z.wheel.slots[t][i]).timer_id == (#[trigger] v.slots[t0][i0]).timer_id;
        lemma_fired_after_membership(s.fired, ids, x);
        if ids.contains(x) {
            assert(z.wheel.id_absent(x));
            assert(false);
        }
    }
}

/// One-shot consumption, first half: after a poll observes Ready for an id,
/// that id is retired — consumed, and pending nowhere.
pub proof fn lemma_ready_poll_retires<W>(s: ExecView<W>, id: u64, w: W)
    requires
        s.inv(),
        s.poll_ready(id),
    ensures
        s.after_poll(id, w).retired(id),
        s.after_poll(id, w).inv(),
{
    lemma_inv_poll(s, id, w);
    assert forall|t: int, i: int|
        0 <= t < s.wheel.slots.len() && 0 <= i < s.wheel.slots[t].len() implies (
    #[trigger] s.wheel.slots[t][i]).timer_id != id by {
        assert(!s.fired.contains(s.wheel.slots[t][i].timer_id));
    }
}

/// One-shot consumption, second half: a retired id stays retired when a
/// timer is created.
pub proof fn lemma_retired_after_create<W>(s: ExecView<W>, id: u64, n: u64)
    requires
        s.inv(),
        s.retired(id),
        n >= 1,
        s.timer_id_seq < u64::MAX,
    ensures
        s.after_create(n).retired(id),
{
    lemma_add_preserves_absent(s.wheel, n, s.next_id(), id);
}

/// One-shot consumption, second half: a retired id stays retired when any
/// timer is polled.
pub proof fn lemma_retired_after_poll<W>(s: ExecView<W>, id: u64, other: u64, w: W)
    requires
        s.retired(id),
    ensures
        s.after_poll(other, w).retired(id),
{
}

/// One-shot consumption, second half: a retired id stays retired when the
/// wheel ticks.
pub proof fn lemma_retired_after_tick<W>(s: ExecView<W>, id: u64)
    requires
        s.wf(),
        s.retired(id),
    ensures
        s.after_tick().retired(id),
{
    lemma_tick_preserves_absent(s.wheel, id);
    lemma_fired_after_membership(s.fired, s.wheel.tick_fired(), id);
}

/// One-shot consumption, last half: a retired id never again polls Ready.
pub proof fn lemma_retired_never_ready<W>(s: ExecView<W>, id: u64)
    requires
        s.retired(id),
    ensures
        !s.poll_ready(id),
{
}

/// Polled before anything has fired, a timer reports Pending and its waker
/// is registered.
pub proof fn lemma_poll_before_any_firing<W>(s: ExecView<W>, id: u64, w: W)
    requires
        s.fired == Set::<u64>::empty(),
    ensures
        !s.poll_ready(id),
        s.after_poll(id, w).wakers == s.wakers.insert(id, w),
{
}

/// When a tick fires an id whose waker is registered, that waker is handed
/// back — once, the wake list being duplicate-free — its registration is
/// gone, and the firing is recorded for a later poll to consume.
pub proof fn lemma_waker_invoked_once<W>(s: ExecView<W>, id: u64)
    requires
        s.inv(),
        s.wakers.dom().contains(id),
        s.wheel.tick_fired().contains(id),
    ensures
        s.tick_wake_ids().contains(id),
        s.tick_wake_ids().no_duplicates(),
        !s.after_tick().wakers.dom().contains(id),
        s.after_tick().poll_ready(id),
        s.after_tick().wheel.id_absent(id),
        s.after_tick().inv(),
{
    lemma_inv_tick(s);
    lemma_tick_keeps_distinct(s.wheel);
    lemma_wake_ids_membership(s.wakers, s.wheel.tick_fired(), id);
    lemma_wake_ids_no_dup(s.wakers, s.wheel.tick_fired());
    lemma_wakers_after_dom(s.wakers, s.wheel.tick_fired(), id);
    lemma_fired_after_membership(s.fired, s.wheel.tick_fired(), id);
}

/// The earliest tick the timing guarantee permits a timer with wall-clock
/// delay `duration_ms` to fire: `max(1, ceil(duration_ms / tick_ms))`.
pub open spec fn min_ticks(duration_ms: u64, tick_ms: u64) -> int
    recommends
        tick_ms >= 1,
{
    let c = (duration_ms + tick_ms - 1) as int / tick_ms as int;
    if c == 0 {
        1
    } else {
        c
    }
}

/// An entry never fires before its insertion delay has elapsed.
proof fn lemma_fires_at_ge(n: u64, l: int)
    requires
        n >= 1,
        l >= 1,
    ensures
        fires_at(n, l) >= n,
{
    let q0 = (n - 1) as int / l;
    let q = n as int / l;
    lemma_fundamental_div_mod(n - 1, l);
    lemma_mod_division_less_than_divisor(n - 1, l);
    lemma_div_is_ordered(n - 1, n as int, l);
    assert((q - q0) * l >= 0) by (nonlinear_arith)
        requires
            q >= q0,
            l >= 1,
    ;
    assert(fires_at(n, l) - n == (q - q0) * l) by (nonlinear_arith)
        requires
            n - 1 == l * q0 + (n - 1) % l,
            fires_at(n, l) == (n - 1) % l + 1 + q * l,
    ;
}

/// The executor's round-up conversion lands exactly on the deadline the
/// timing guarantee names, so an entry of that many ticks never fires before
/// it.
proof fn lemma_conversion_keeps_deadline(d: u64, t: u64, l: int)
    requires
        t >= 1,
        l >= 1,
    ensures
        ticks_for(d, t) >= 1,
        ticks_for(d, t) as int == min_ticks(d, t),
        fires_at(ticks_for(d, t), l) >= min_ticks(d, t),
{
    let n = ticks_for(d, t);
    let q = d as int / t as int;
    let c = (d + t - 1) as int / t as int;
    lemma_div_pos_is_pos(d as int, t as int);
    lemma_fundamental_div_mod(d as int, t as int);
    lemma_mod_division_less_than_divisor(d as int, t as int);
    if d == 0 {
        lemma_basic_div((t - 1) as int, t as int);
        assert(c == 0);
    } else if d <= t {
        assert((d + t - 1) as int == 1 * t + (d - 1)) by (nonlinear_arith);
        lemma_fundamental_div_mod_converse_div((d + t - 1) as int, t as int, 1, (d - 1) as int);
        assert(c == 1);
        assert(min_ticks(d, t) == 1);
        if d < t {
            lemma_basic_div(d as int, t as int);
        } else {
            lemma_div_by_self(t as int);
            lemma_mod_self_0(t as int);
        }
        assert(n == 1);
    } else if d % t == 0 {
        assert((d + t - 1) as int == q * t + (t - 1)) by (nonlinear_arith)
            requires
                d as int == t * q + 0,
        ;
        lemma_fundamental_div_mod_converse_div((d + t - 1) as int, t as int, q, (t - 1) as int);
        assert(c == q);
        lemma_div_by_self(t as int);
        lemma_div_is_ordered(t as int, d as int, t as int);
        lemma_div_nonincreasing(d as int, t as int);
        assert(1 <= q <= d);
        assert(n as int == q);
    } else {
        let r = d as int % t as int;
        assert((d + t - 1) as int == (q + 1) * t + (r - 1)) by (nonlinear_arith)
            requires
                d as int == t * q + r,
                1 <= r < t,
        ;
        lemma_fundamental_div_mod_converse_div((d + t - 1) as int, t as int, q + 1, r - 1);
        assert(c == q + 1);
        lemma_div_by_self(t as int);
        lemma_div_is_ordered(t as int, d as int, t as int);
        lemma_mod_multiples_vanish(d as int, 0, 1);
        lemma_small_mod(0nat, 1nat);
        lemma_div_is_strictly_smaller(d as int, t as int);
        assert(1 <= q < d);
        assert(n as int == q + 1);
    }
    lemma_fires_at_ge(n, l);
}

/// Under an idealized fixed-cadence driver, a timer created with wall-clock
/// delay `duration_ms` is not observed among the fired ids of any tick
/// earlier than `max(1, ceil(duration_ms / tick_ms))`: it never resolves
/// before the requested duration, rounded up to tick granularity.
pub proof fn lemma_timer_never_fires_early<W>(
    s: ExecView<W>,
    duration_ms: u64,
    tick_ms: u64,
    j: nat,
)
    requires
        s.inv(),
        s.timer_id_seq < u64::MAX,
        tick_ms >= 1,
        j + 1 < min_ticks(duration_ms, tick_ms),
    ensures
        !after_ticks(s.after_create(ticks_for(duration_ms, tick_ms)).wheel, j).tick_fired()
            .contains(s.next_id()),
{
    let n = ticks_for(duration_ms, tick_ms);
    lemma_conversion_keeps_deadline(duration_ms, tick_ms, s.wheel.size());
    lemma_inv_create(s, n);
    lemma_no_fire_before_deadline(s.wheel, n, s.next_id(), j);
}

/// An id the wheel no longer carries never enters a wake list again.
pub proof fn lemma_absent_id_never_woken<W>(s: ExecView<W>, id: u64)
    requires
        s.wf(),
        s.wheel.id_absent(id),
    ensures
        !s.tick_wake_ids().contains(id),
        s.after_tick().wheel.id_absent(id),
{
    lemma_tick_preserves_absent(s.wheel, id);
    lemma_wake_ids_membership(s.wakers, s.wheel.tick_fired(), id);
}

/// The executor core: assumes the caller gives it exclusive access (one
/// critical section per call).
pub struct TimerExecutorImpl<W> {
    timer_id_seq: u64,
    wheel: TimeWheel,
    wakers: HashMap<u64, W>,
    fired: HashSet<u64>,
}

impl<W> View for TimerExecutorImpl<W> {
    type V = ExecView<W>;

    closed spec fn view(&self) -> ExecView<W> {
        ExecView {
            timer_id_seq: self.timer_id_seq,
            wheel: self.wheel@,
            wakers: self.wakers@,
            fired: self.fired@,
        }
    }
}

impl<W> TimerExecutorImpl<W> {
    /// A fresh executor over a wheel of `size` slots: no timers yet, nothing
    /// fired, no wakers registered.
    pub fn new(size: usize) -> (e: TimerExecutorImpl<W>)
        requires
            size >= 1,
        ensures
            e@.wf(),
            e@.inv(),
            e@.timer_id_seq == 0,
            e@.wakers == Map::<u64, W>::empty(),
            e@.fired == Set::<u64>::empty(),
            e@.wheel.cursor == 0,
            e@.wheel.slots.len() == size,
            forall|i: int| 0 <= i < size ==> e@.wheel.slots[i] == Seq::<WheelEntry>::empty(),
    {
        TimerExecutorImpl {
            timer_id_seq: 0,
            wheel: TimeWheel::new(size),
            wakers: HashMap::new(),
            fired: HashSet::new(),
        }
    }

    /// Whether the id space is used up; `create_timer` demands that it is
    /// not, and a caller that cannot know otherwise tests this first.
    pub fn ids_exhausted(&self) -> (r: bool)
        ensures
            r <==> self@.timer_id_seq == u64::MAX,
    {
        self.timer_id_seq == u64::MAX
    }

    /// Allocate the next id and insert it into the wheel to fire after
    /// `duration_ticks` ticks (at least one; the caller clamps).
    pub fn create_timer(&mut self, duration_ticks: u64) -> (id: u64)
        requires
            old(self)@.wf(),
            duration_ticks >= 1,
            old(self)@.timer_id_seq < u64::MAX,
        ensures
            id == old(self)@.next_id(),
            final(self)@ == old(self)@.after_create(duration_ticks),
            final(self)@.wf(),
    {
        self.timer_id_seq = self.timer_id_seq + 1;
        let id = self.timer_id_seq;
        self.wheel.add(duration_ticks, id);
        id
    }

    /// Poll `timer`: if its firing is recorded and unconsumed, consume it
    /// and report Ready — never again for this id. Otherwise register
    /// `waker` (displacing any earlier registration) and report Pending.
    pub fn poll(&mut self, timer: u64, waker: W) -> (r: TimerPoll)
        ensures
            r == TimerPoll::Ready <==> old(self)@.poll_ready(timer),
            final(self)@ == old(self)@.after_poll(timer, waker),
    {
        if self.fired.remove(&timer) {
            proof {
                assert(self@ =~= old(self)@.after_poll(timer, waker));
            }
            TimerPoll::Ready
        } else {
            self.wakers.insert(timer, waker);
            proof {
                assert(self.fired@ =~= old(self).fired@);
                assert(self@ =~= old(self)@.after_poll(timer, waker));
            }
            TimerPoll::Pending
        }
    }

    /// Tick the wheel once: every id it fires is recorded in the fired set,
    /// and each fired id that has a waker registered gives up its
    /// registration, handed back in firing order for the caller to invoke.
    pub fn tick(&mut self) -> (wakes: Vec<(u64, W)>)
        requires
            old(self)@.wf(),
        ensures
            final(self)@ == old(self)@.after_tick(),
            ids_of(wakes@) == old(self)@.tick_wake_ids(),
            forall|j: int|
                0 <= j < wakes@.len() ==> old(self)@.wakers.dom().contains(
                    (#[trigger] wakes@[j]).0,
                ) && wakes@[j].1 == old(self)@.wakers[wakes@[j].0],
            final(self)@.wf(),
    {
        let fired_ids = self.wheel.tick();
        let ghost ids = fired_ids@;
        let ghost m0 = old(self)@.wakers;
        let ghost f0 = old(self)@.fired;
        let mut wakes: Vec<(u64, W)> = Vec::new();
        let n = fired_ids.len();
        let mut i: usize = 0;
        proof {
            assert(ids.skip(0) =~= ids);
            assert(ids_of(wakes@) =~= Seq::<u64>::empty());
            assert(Seq::<u64>::empty() + wake_ids_of(m0, ids) =~= wake_ids_of(m0, ids));
        }
        while i < n
            invariant
                i <= n,
                n == ids.len(),
                fired_ids@ == ids,
                self.wheel@ == old(self)@.wheel.after_tick(),
                self.timer_id_seq == old(self)@.timer_id_seq,
                m0 == old(self)@.wakers,
                f0 == old(self)@.fired,
                ids == old(self)@.wheel.tick_fired(),
                fired_after(f0, ids) == fired_after(self.fired@, ids.skip(i as int)),
                wakers_after(m0, ids) == wakers_after(self.wakers@, ids.skip(i as int)),
                wake_ids_of(m0, ids) == ids_of(wakes@) + wake_ids_of(
                    self.wakers@,
                    ids.skip(i as int),
                ),
                forall|k: u64| #[trigger]
                    self.wakers@.dom().contains(k) ==> m0.dom().contains(k) && self.wakers@[k]
                        == m0[k],
                forall|j: int|
                    0 <= j < wakes@.len() ==> m0.dom().contains((#[trigger] wakes@[j]).0)
                        && wakes@[j].1 == m0[wakes@[j].0],
            decreases n - i,
        {
            let id = fired_ids[i];
            let ghost rest = ids.skip(i as int);
            proof {
                assert(rest.first() == id);
                assert(rest.drop_first() =~= ids.skip(i + 1));
            }
            let ghost fired_before = self.fired@;
            let ghost wakers_before = self.wakers@;
            let ghost wakes_before = wakes@;
            self.fired.insert(id);
            proof {
                assert(fired_after(fired_before, rest) == fired_after(
                    self.fired@,
                    ids.skip(i + 1),
                ));
            }
            let w = self.wakers.remove(&id);
            if let Some(w) = w {
                wakes.push((id, w));
                proof {
                    assert(self.wakers@ == wakers_before.remove(id));
                    assert(ids_of(wakes@) =~= ids_of(wakes_before).push(id));
                    assert(ids_of(wakes_before).push(id) =~= ids_of(wakes_before) + seq![id]);
                    assert(wake_ids_of(wakers_before, rest) == seq![id] + wake_ids_of(
                        self.wakers@,
                        ids.skip(i + 1),
                    ));
                    assert(ids_of(wakes_before) + (seq![id] + wake_ids_of(
                        self.wakers@,
                        ids.skip(i + 1),
                    )) =~= (ids_of(wakes_before) + seq![id]) + wake_ids_of(
                        self.wakers@,
                        ids.skip(i + 1),
                    ));
                    assert(wakers_before.dom().contains(id));
                    assert(w == wakers_before[id]);
                    assert(m0.dom().contains(id) && m0[id] == w);
                    assert forall|k: u64| #[trigger]
                        self.wakers@.dom().contains(k) implies m0.dom().contains(k)
                        && self.wakers@[k] == m0[k] by {
                        assert(k != id);
                        assert(wakers_before.dom().contains(k));
                        assert(self.wakers@[k] == wakers_before[k]);
                    }
                    assert forall|j: int| 0 <= j < wakes@.len() implies m0.dom().contains(
                        (#[trigger] wakes@[j]).0,
                    ) && wakes@[j].1 == m0[wakes@[j].0] by {
                        if j < wakes_before.len() {
                            assert(wakes@[j] == wakes_before[j]);
                        } else {
                            assert(wakes@[j] == (id, w));
                            assert(wakes@[j].0 == id && wakes@[j].1 == w);
                        }
                    }
                }
            } else {
                proof {
                    assert(self.wakers@ =~= wakers_before);
                    assert(wake_ids_of(wakers_before, rest) == wake_ids_of(
                        self.wakers@,
                        ids.skip(i + 1),
                    ));
                    assert forall|k: u64| #[trigger]
                        self.wakers@.dom().contains(k) implies m0.dom().contains(k)
                        && self.wakers@[k] == m0[k] by {
                        assert(wakers_before.dom().contains(k));
                        assert(self.wakers@[k] == wakers_before[k]);
                    }
                }
            }
            i = i + 1;
        }
        proof {
            assert(ids.skip(n as int) =~= Seq::<u64>::empty());
            assert(fired_after(f0, ids) == self.fired@);
            assert(wakers_after(m0, ids) == self.wakers@);
            assert(ids_of(wakes@) + wake_ids_of(self.wakers@, ids.skip(n as int)) =~= ids_of(
                wakes@,
            ));
            assert(self@ =~= old(self)@.after_tick());
        }
        wakes
    }
}

/// The tick count a wall-clock duration converts to: division by the tick
/// duration rounded up, clamped to a minimum of one tick, so a timer never
/// fires before the requested duration and never on the tick it was created.
pub open spec fn ticks_for(duration_ms: u64, tick_ms: u64) -> u64
    recommends
        tick_ms >= 1,
{
    let q = duration_ms as int / tick_ms as int;
    if q == 0 {
        1u64
    } else if duration_ms as int % tick_ms as int == 0 {
        q as u64
    } else {
        (q + 1) as u64
    }
}

/// The executor façade: owns the core together with the wall-clock duration
/// of one tick, and hands out [`Timeout`] handles. A caller that shares it
/// across threads puts it behind a lock and drives [`TimerExecutor::tick`]
/// on that cadence.
pub struct TimerExecutor<W> {
    tick_duration_ms: u64,
    inner: TimerExecutorImpl<W>,
}

impl<W> View for TimerExecutor<W> {
    type V = ExecView<W>;

    closed spec fn view(&self) -> ExecView<W> {
        self.inner@
    }
}

impl<W> TimerExecutor<W> {
    /// The wall-clock milliseconds of one tick.
    pub closed spec fn tick_ms(&self) -> u64 {
        self.tick_duration_ms
    }

    /// A fresh executor over a wheel of `wheel_size` slots whose driver is
    /// expected to tick every `tick_duration_ms` milliseconds.
    pub fn new(wheel_size: usize, tick_duration_ms: u64) -> (e: TimerExecutor<W>)
        requires
            wheel_size >= 1,
            tick_duration_ms >= 1,
        ensures
            e@.wf(),
            e@.inv(),
            e.tick_ms() == tick_duration_ms,
            e@.timer_id_seq == 0,
            e@.wakers == Map::<u64, W>::empty(),
            e@.fired == Set::<u64>::empty(),
            e@.wheel.cursor == 0,
            e@.wheel.slots.len() == wheel_size,
            forall|i: int| 0 <= i < wheel_size ==> e@.wheel.slots[i] == Seq::<WheelEntry>::empty(),
    {
        TimerExecutor { tick_duration_ms, inner: TimerExecutorImpl::new(wheel_size) }
    }

    /// The configured tick duration in milliseconds.
    pub fn tick_duration_ms(&self) -> (t: u64)
        ensures
            t == self.tick_ms(),
    {
        self.tick_duration_ms
    }

    /// Whether the id space is used up; `timeout` demands that it is not,
    /// and a caller that cannot know otherwise tests this first.
    pub fn ids_exhausted(&self) -> (r: bool)
        ensures
            r <==> self@.timer_id_seq == u64::MAX,
    {
        self.inner.ids_exhausted()
    }

    /// Create a new timeout: the duration is converted to ticks by division
    /// against the tick duration rounded up, clamped to a minimum of one
    /// tick, and a handle bound to the new timer's id is returned.
    pub fn timeout(&mut self, duration_ms: u64) -> (t: Timeout)
        requires
            old(self)@.wf(),
            old(self).tick_ms() >= 1,
            old(self)@.timer_id_seq < u64::MAX,
        ensures
            t.id() == old(self)@.next_id(),
            final(self)@ == old(self)@.after_create(ticks_for(duration_ms, old(self).tick_ms())),
            final(self).tick_ms() == old(self).tick_ms(),
            final(self)@.wf(),
    {
        let q = duration_ms / self.tick_duration_ms;
        let r = duration_ms % self.tick_duration_ms;
        let ticks: u64 = if q == 0 {
            1
        } else {
            proof {
                let d = duration_ms as int;
                let t = self.tick_duration_ms as int;
                if d % t != 0 {
                    // a remainder forces a divisor of at least two, so the
                    // rounded-up quotient still fits
                    lemma_mod_multiples_vanish(d, 0, 1);
                    lemma_small_mod(0nat, 1nat);
                    lemma_div_is_strictly_smaller(d, t);
                }
            }
            if r != 0 {
                q + 1
            } else {
                q
            }
        };
        let timer_id = self.inner.create_timer(ticks);
        Timeout { timer_id }
    }

    /// Poll the timer `handle` is bound to; see [`TimerExecutorImpl::poll`].
    pub fn poll(&mut self, handle: &Timeout, waker: W) -> (r: TimerPoll)
        ensures
            r == TimerPoll::Ready <==> old(self)@.poll_ready(handle.id()),
            final(self)@ == old(self)@.after_poll(handle.id(), waker),
            final(self).tick_ms() == old(self).tick_ms(),
    {
        self.inner.poll(handle.timer_id, waker)
    }

    /// Tick once; see [`TimerExecutorImpl::tick`].
    pub fn tick(&mut self) -> (wakes: Vec<(u64, W)>)
        requires
            old(self)@.wf(),
        ensures
            final(self)@ == old(self)@.after_tick(),
            ids_of(wakes@) == old(self)@.tick_wake_ids(),
            forall|j: int|
                0 <= j < wakes@.len() ==> old(self)@.wakers.dom().contains(
                    (#[trigger] wakes@[j]).0,
                ) && wakes@[j].1 == old(self)@.wakers[wakes@[j].0],
            final(self).tick_ms() == old(self).tick_ms(),
            final(self)@.wf(),
    {
        self.inner.tick()
    }
}

/// A cloneable handle representing interest in one timer id's firing; clones
/// share the id and so share its single firing.
#[derive(Clone, Copy, PartialEq, Eq, Structural, Debug)]
pub struct Timeout {
    timer_id: u64,
}

impl Timeout {
    /// The timer id this handle is bound to.
    pub closed spec fn id(&self) -> u64 {
        self.timer_id
    }

    /// The timer id this handle is bound to.
    pub fn timer_id(&self) -> (id: u64)
        ensures
            id == self.id(),
    {
        self.timer_id
    }

    /// Poll this handle against the executor that created it: the sole
    /// suspension point. Ready consumes the firing; Pending registers
    /// `waker`, displacing any earlier registration for the same id.
    pub fn poll<W>(&self, executor: &mut TimerExecutor<W>, waker: W) -> (r: TimerPoll)
        ensures
            r == TimerPoll::Ready <==> old(executor)@.poll_ready(self.id()),
            final(executor)@ == old(executor)@.after_poll(self.id(), waker),
            final(executor).tick_ms() == old(executor).tick_ms(),
    {
        executor.poll(self, waker)
    }
}

/// The background driver's stop decision, from the number of strong owners
/// of the shared executor state: it keeps ticking exactly while an owner
/// besides the driver's own reference remains.
pub fn driver_should_continue(owner_count: usize) -> (r: bool)
    ensures
        r <==> owner_count > 1,
{
    owner_count > 1
}

} // verus!
