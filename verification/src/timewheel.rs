//! The hashed timing wheel: a circular array of buckets that tracks delayed
//! items with O(1) insertion and a per-tick cost bounded by one bucket's
//! occupancy.

use vstd::prelude::*;

verus! {

use vstd::arithmetic::div_mod::{
    lemma_add_mod_noop_right,
    lemma_div_nonincreasing,
    lemma_div_pos_is_pos,
    lemma_fundamental_div_mod,
    lemma_fundamental_div_mod_converse_mod,
    lemma_mod_division_less_than_divisor,
    lemma_mod_multiples_vanish,
    lemma_mod_sub_multiples_vanish,
    lemma_small_mod,
};

/// One pending item in a wheel slot: the timer's id together with how many
/// further full revolutions of the wheel must pass before it fires.
#[derive(Clone, Copy, PartialEq, Eq, Structural, Debug)]
pub struct WheelEntry {
    pub timer_id: u64,
    pub rounds: u64,
}

/// The mathematical state of a timing wheel: the bucket of each slot, and
/// the cursor naming the slot most recently scanned.
pub ghost struct WheelView {
    pub slots: Seq<Seq<WheelEntry>>,
    pub cursor: int,
}

/// The ids of the entries of `b` whose rounds have run out, in bucket order.
pub open spec fn fired_of(b: Seq<WheelEntry>) -> Seq<u64>
    decreases b.len(),
{
    if b.len() == 0 {
        Seq::empty()
    } else if b.last().rounds == 0 {
        fired_of(b.drop_last()).push(b.last().timer_id)
    } else {
        fired_of(b.drop_last())
    }
}

/// The entries of `b` that stay for another revolution, each with one round
/// fewer, in bucket order.
pub open spec fn kept_of(b: Seq<WheelEntry>) -> Seq<WheelEntry>
    decreases b.len(),
{
    if b.len() == 0 {
        Seq::empty()
    } else if b.last().rounds > 0 {
        kept_of(b.drop_last()).push(
            WheelEntry { timer_id: b.last().timer_id, rounds: (b.last().rounds - 1) as u64 },
        )
    } else {
        kept_of(b.drop_last())
    }
}

impl WheelView {
    /// The number of slots.
    pub open spec fn size(self) -> int {
        self.slots.len() as int
    }

    /// A well-formed wheel has at least one slot and its cursor in range.
    pub open spec fn wf(self) -> bool {
        &&& self.slots.len() >= 1
        &&& 0 <= self.cursor < self.slots.len()
    }

    /// The slot an entry inserted with `delay` ticks lands in.
    pub open spec fn slot_for(self, delay: u64) -> int {
        (self.cursor + delay as int) % self.size()
    }

    /// The rounds an entry inserted with `delay` ticks starts with.
    pub open spec fn rounds_for(self, delay: u64) -> u64 {
        (delay as int / self.size()) as u64
    }

    /// The wheel after inserting `id` with a delay of `delay` ticks: the
    /// entry is appended to its target slot's bucket and nothing else moves.
    pub open spec fn after_add(self, delay: u64, id: u64) -> WheelView {
        let s = self.slot_for(delay);
        WheelView {
            slots: self.slots.update(
                s,
                self.slots[s].push(WheelEntry { timer_id: id, rounds: self.rounds_for(delay) }),
            ),
            cursor: self.cursor,
        }
    }

    /// The slot the next tick scans.
    pub open spec fn tick_cursor(self) -> int {
        (self.cursor + 1) % self.size()
    }

    /// The ids the next tick fires, in bucket order.
    pub open spec fn tick_fired(self) -> Seq<u64> {
        fired_of(self.slots[self.tick_cursor()])
    }

    /// The wheel after one tick: the cursor advances one slot, and the
    /// scanned bucket keeps exactly its entries with rounds remaining, each
    /// decremented once.
    pub open spec fn after_tick(self) -> WheelView {
        let c = self.tick_cursor();
        WheelView { slots: self.slots.update(c, kept_of(self.slots[c])), cursor: c }
    }
}

/// A hashed timing wheel over `u64` item ids.
pub struct TimeWheel {
    slots: Vec<Vec<WheelEntry>>,
    cursor: usize,
}

impl View for TimeWheel {
    type V = WheelView;

    closed spec fn view(&self) -> WheelView {
        WheelView {
            slots: self.slots@.map_values(|b: Vec<WheelEntry>| b@),
            cursor: self.cursor as int,
        }
    }
}

impl TimeWheel {
    /// Build a wheel of `size` empty buckets with the cursor on slot 0.
    pub fn new(size: usize) -> (w: TimeWheel)
        requires
            size >= 1,
        ensures
            w@.wf(),
            w@.slots.len() == size,
            w@.cursor == 0,
            forall|i: int| 0 <= i < size ==> w@.slots[i] == Seq::<WheelEntry>::empty(),
    {
        let mut slots: Vec<Vec<WheelEntry>> = Vec::new();
        let mut i: usize = 0;
        while i < size
            invariant
                i <= size,
                slots@.len() == i,
                forall|j: int| 0 <= j < i ==> slots@[j]@ == Seq::<WheelEntry>::empty(),
            decreases size - i,
        {
            slots.push(Vec::new());
            i = i + 1;
        }
        TimeWheel { slots, cursor: 0 }
    }

    /// Insert `item` to fire after `delay` ticks (a zero delay is clamped up
    /// to one tick by the caller): the entry is appended to the bucket of
    /// slot `(cursor + delay) mod size` with `delay / size` rounds remaining.
    pub fn add(&mut self, delay: u64, item: u64)
        requires
            old(self)@.wf(),
            delay >= 1,
        ensures
            final(self)@ == old(self)@.after_add(delay, item),
            final(self)@.wf(),
    {
        let len = self.slots.len();
        let len64 = len as u64;
        let c64 = self.cursor as u64;
        let dm: u64 = delay % len64;
        let slot64: u64 = if dm < len64 - c64 {
            c64 + dm
        } else {
            dm - (len64 - c64)
        };
        let slot: usize = slot64 as usize;
        let rounds: u64 = delay / len64;
        proof {
            let l = len as int;
            let c = self.cursor as int;
            let d = delay as int;
            lemma_add_mod_noop_right(c, d, l);
            if dm < len64 - c64 {
                lemma_small_mod((c + dm) as nat, l as nat);
            } else {
                lemma_mod_sub_multiples_vanish(c + dm, l);
                lemma_small_mod((c + dm - l) as nat, l as nat);
            }
            assert(slot64 as int == old(self)@.slot_for(delay));
            assert(rounds == old(self)@.rounds_for(delay));
        }
        self.slots[slot].push(WheelEntry { timer_id: item, rounds });
        proof {
            assert(self@.slots =~= old(self)@.after_add(delay, item).slots);
            assert(self@ == old(self)@.after_add(delay, item));
        }
    }

    /// Advance the cursor one slot and scan the bucket there: entries out of
    /// rounds are removed and their ids returned in bucket order; the rest
    /// stay with one round fewer. Only the scanned bucket changes.
    pub fn tick(&mut self) -> (fired: Vec<u64>)
        requires
            old(self)@.wf(),
        ensures
            final(self)@ == old(self)@.after_tick(),
            fired@ == old(self)@.tick_fired(),
            final(self)@.wf(),
    {
        let len = self.slots.len();
        let nc: usize = if self.cursor + 1 == len {
            0
        } else {
            self.cursor + 1
        };
        proof {
            let l = len as int;
            let c = self.cursor as int;
            if c + 1 == l {
                assert((c + 1) % l == 0) by {
                    lemma_mod_sub_multiples_vanish(c + 1, l);
                    lemma_small_mod(0nat, l as nat);
                }
            } else {
                lemma_small_mod((c + 1) as nat, l as nat);
            }
            assert(nc as int == old(self)@.tick_cursor());
        }
        let ghost b: Seq<WheelEntry> = self@.slots[nc as int];
        let mut fired: Vec<u64> = Vec::new();
        let mut kept: Vec<WheelEntry> = Vec::new();
        let bucket_len = self.slots[nc].len();
        let mut i: usize = 0;
        while i < bucket_len
            invariant
                i <= bucket_len,
                bucket_len == b.len(),
                self == old(self),
                0 <= nc < self.slots@.len(),
                b == self@.slots[nc as int],
                fired@ == fired_of(b.take(i as int)),
                kept@ == kept_of(b.take(i as int)),
            decreases bucket_len - i,
        {
            let e = self.slots[nc][i];
            proof {
                assert(b.take(i + 1).drop_last() =~= b.take(i as int));
                assert(b.take(i + 1).last() == b[i as int]);
            }
            if e.rounds == 0 {
                fired.push(e.timer_id);
            } else {
                kept.push(WheelEntry { timer_id: e.timer_id, rounds: e.rounds - 1 });
            }
            i = i + 1;
        }
        proof {
            assert(b.take(b.len() as int) =~= b);
        }
        self.cursor = nc;
        self.slots[nc] = kept;
        proof {
            assert(self@.slots =~= old(self)@.after_tick().slots);
            assert(self@ == old(self)@.after_tick());
        }
        fired
    }
}

impl WheelView {
    /// No entry anywhere in the wheel carries `id`.
    pub open spec fn id_absent(self, id: u64) -> bool {
        forall|t: int, i: int|
            0 <= t < self.slots.len() && 0 <= i < self.slots[t].len() ==> (#[trigger] self.slots[t][i]).timer_id
                != id
    }

    /// `id` occupies slot `s` with `r` rounds remaining, and every entry of
    /// the wheel that carries `id` is that one.
    pub open spec fn id_only_at(self, id: u64, s: int, r: u64) -> bool {
        &&& 0 <= s < self.slots.len()
        &&& self.slots[s].contains(WheelEntry { timer_id: id, rounds: r })
        &&& forall|t: int, i: int|
            0 <= t < self.slots.len() && 0 <= i < self.slots[t].len() && (#[trigger] self.slots[t][i]).timer_id
                == id ==> t == s && self.slots[t][i].rounds == r
    }

    /// How many ticks from now the entry at slot `s` with `r` rounds
    /// remaining fires: the cursor reaches `s` after between 1 and `size`
    /// ticks, plus one full revolution for every remaining round.
    pub open spec fn ticks_to_fire(self, s: int, r: u64) -> int {
        ((s - (self.cursor + 1)) % self.size()) + 1 + (r as int) * self.size()
    }

    /// The single pending entry for `id` fires in exactly `m` more ticks.
    pub open spec fn id_fires_in(self, id: u64, m: int) -> bool {
        exists|s: int, r: u64| #[trigger] self.id_only_at(id, s, r) && self.ticks_to_fire(s, r) == m
    }
}

/// The tick number at which an entry inserted now with a delay of `n` ticks
/// fires, on a wheel of `size` slots: `n` itself unless `n` is a positive
/// multiple of `size`, in which case the wheel's slot/rounds split makes it
/// one revolution later, at `n + size`.
pub open spec fn fires_at(n: u64, size: int) -> int
    recommends
        n >= 1,
        size >= 1,
{
    ((n - 1) % size) + 1 + ((n as int) / size) * size
}

/// A bucket entry out of rounds puts its id into the bucket's fired ids.
proof fn lemma_fired_of_has(b: Seq<WheelEntry>, e: WheelEntry)
    requires
        b.contains(e),
        e.rounds == 0,
    ensures
        fired_of(b).contains(e.timer_id),
    decreases b.len(),
{
    broadcast use vstd::seq_lib::lemma_seq_contains, vstd::seq_lib::lemma_seq_contains_after_push;

    if b.last() == e {
        assert(fired_of(b).last() == e.timer_id);
        assert(fired_of(b).contains(e.timer_id));
    } else {
        let i = choose|i: int| 0 <= i < b.len() && b[i] == e;
        assert(b.drop_last()[i] == e);
        assert(b.drop_last().contains(e));
        lemma_fired_of_has(b.drop_last(), e);
    }
}

/// Every fired id comes from a bucket entry with that id and no rounds left.
proof fn lemma_fired_of_src(b: Seq<WheelEntry>, id: u64)
    requires
        fired_of(b).contains(id),
    ensures
        exists|i: int|
            0 <= i < b.len() && (#[trigger] b[i]).timer_id == id && b[i].rounds == 0,
    decreases b.len(),
{
    broadcast use vstd::seq_lib::lemma_seq_contains, vstd::seq_lib::lemma_seq_contains_after_push, vstd::seq_lib::lemma_seq_empty_contains_nothing;

    if b.len() == 0 {
    } else if b.last().rounds == 0 && b.last().timer_id == id {
        assert((#[trigger] b[b.len() - 1]).timer_id == id && b[b.len() - 1].rounds == 0);
    } else {
        assert(fired_of(b.drop_last()).contains(id));
        lemma_fired_of_src(b.drop_last(), id);
        let i = choose|i: int|
            0 <= i < b.drop_last().len() && (#[trigger] b.drop_last()[i]).timer_id == id
                && b.drop_last()[i].rounds == 0;
        assert((#[trigger] b[i]).timer_id == id && b[i].rounds == 0);
    }
}

/// A bucket entry with rounds remaining stays, decremented, among the kept
/// entries.
proof fn lemma_kept_of_has(b: Seq<WheelEntry>, e: WheelEntry)
    requires
        b.contains(e),
        e.rounds >= 1,
    ensures
        kept_of(b).contains(WheelEntry { timer_id: e.timer_id, rounds: (e.rounds - 1) as u64 }),
    decreases b.len(),
{
    broadcast use vstd::seq_lib::lemma_seq_contains, vstd::seq_lib::lemma_seq_contains_after_push;

    if b.last() == e {
        assert(kept_of(b).last() == (WheelEntry { timer_id: e.timer_id, rounds: (e.rounds - 1) as u64 }));
        assert(kept_of(b).contains(WheelEntry { timer_id: e.timer_id, rounds: (e.rounds - 1) as u64 }));
    } else {
        let i = choose|i: int| 0 <= i < b.len() && b[i] == e;
        assert(b.drop_last()[i] == e);
        assert(b.drop_last().contains(e));
        lemma_kept_of_has(b.drop_last(), e);
    }
}

/// Every kept entry is a bucket entry with rounds remaining, decremented.
proof fn lemma_kept_of_src(b: Seq<WheelEntry>, j: int)
    requires
        0 <= j < kept_of(b).len(),
    ensures
        exists|i: int|
            0 <= i < b.len() && (#[trigger] b[i]).rounds >= 1 && kept_of(b)[j] == (WheelEntry {
                timer_id: b[i].timer_id,
                rounds: (b[i].rounds - 1) as u64,
            }),
    decreases b.len(),
{
    if b.len() == 0 {
    } else if b.last().rounds > 0 && j == kept_of(b).len() - 1 {
        assert((#[trigger] b[b.len() - 1]).rounds >= 1 && kept_of(b)[j] == (WheelEntry {
            timer_id: b[b.len() - 1].timer_id,
            rounds: (b[b.len() - 1].rounds - 1) as u64,
        }));
    } else {
        lemma_kept_of_src(b.drop_last(), j);
        let i = choose|i: int|
            0 <= i < b.drop_last().len() && (#[trigger] b.drop_last()[i]).rounds >= 1 && kept_of(
                b.drop_last(),
            )[j] == (WheelEntry {
                timer_id: b.drop_last()[i].timer_id,
                rounds: (b.drop_last()[i].rounds - 1) as u64,
            });
        assert((#[trigger] b[i]).rounds >= 1 && kept_of(b)[j] == (WheelEntry {
            timer_id: b[i].timer_id,
            rounds: (b[i].rounds - 1) as u64,
        }));
    }
}

/// Inserting a fresh id with a delay of `n` ticks leaves exactly one entry
/// for it, due to fire at tick `fires_at(n, size)`.
pub proof fn lemma_add_starts_tracking(v: WheelView, n: u64, id: u64)
    requires
        v.wf(),
        v.id_absent(id),
        n >= 1,
    ensures
        v.after_add(n, id).wf(),
        v.after_add(n, id).id_fires_in(id, fires_at(n, v.size())),
        fires_at(n, v.size()) >= 1,
    decreases n,
{
    broadcast use vstd::seq_lib::lemma_seq_contains;

    let l = v.size();
    let c = v.cursor;
    let s = v.slot_for(n);
    let e = WheelEntry { timer_id: id, rounds: v.rounds_for(n) };
    let w = v.after_add(n, id);
    lemma_mod_division_less_than_divisor(c + n, l);
    lemma_div_pos_is_pos(n as int, l);
    lemma_div_nonincreasing(n as int, l);
    lemma_mod_division_less_than_divisor(n - 1, l);
    assert(e.rounds as int == n as int / l);
    // the pushed entry is the only one carrying `id`
    assert(w.slots[s][v.slots[s].len() as int] == e);
    assert(w.slots[s].contains(e));
    assert forall|t: int, i: int|
        0 <= t < w.slots.len() && 0 <= i < w.slots[t].len() && (#[trigger] w.slots[t][i]).timer_id
            == id implies t == s && w.slots[t][i].rounds == e.rounds by {
        if t != s || i < v.slots[s].len() {
            assert(w.slots[t][i] == v.slots[t][i]);
        }
    }
    assert(w.id_only_at(id, s, e.rounds));
    // it fires at tick `fires_at(n, l)`
    let q = (c + n) / l;
    lemma_fundamental_div_mod(c + n, l);
    assert(s - c - 1 == l * (-q) + (n - 1)) by (nonlinear_arith)
        requires
            c + n == l * q + s,
    ;
    lemma_mod_multiples_vanish(-q, n - 1, l);
    assert(w.ticks_to_fire(s, e.rounds) == fires_at(n, l));
    assert((e.rounds as int) * l >= 0) by (nonlinear_arith)
        requires
            e.rounds as int >= 0,
            l >= 1,
    ;
}

/// Inserting an entry for one id does not disturb another id's absence.
pub proof fn lemma_add_preserves_absent(v: WheelView, n: u64, id: u64, other: u64)
    requires
        v.wf(),
        v.id_absent(other),
        id != other,
    ensures
        v.after_add(n, id).id_absent(other),
{
    let s = v.slot_for(n);
    let w = v.after_add(n, id);
    lemma_mod_division_less_than_divisor(v.cursor + n, v.size());
    assert forall|t: int, i: int|
        0 <= t < w.slots.len() && 0 <= i < w.slots[t].len() implies (#[trigger] w.slots[t][i]).timer_id
        != other by {
        if t != s || i < v.slots[s].len() {
            assert(w.slots[t][i] == v.slots[t][i]);
        }
    }
}

/// Inserting an entry for one id does not disturb another id's pending
/// entry or its distance to firing.
pub proof fn lemma_add_preserves_tracked(v: WheelView, n: u64, id: u64, other: u64, m: int)
    requires
        v.wf(),
        v.id_fires_in(other, m),
        id != other,
    ensures
        v.after_add(n, id).id_fires_in(other, m),
{
    broadcast use vstd::seq_lib::lemma_seq_contains;

    let s0 = v.slot_for(n);
    let w = v.after_add(n, id);
    lemma_mod_division_less_than_divisor(v.cursor + n, v.size());
    let (s, r): (int, u64) = choose|s: int, r: u64|
        #[trigger] v.id_only_at(other, s, r) && v.ticks_to_fire(s, r) == m;
    let e = WheelEntry { timer_id: other, rounds: r };
    let i0 = choose|i: int| 0 <= i < v.slots[s].len() && v.slots[s][i] == e;
    assert(w.slots[s][i0] == e);
    assert(w.slots[s].contains(e));
    assert forall|t: int, i: int|
        0 <= t < w.slots.len() && 0 <= i < w.slots[t].len() && (#[trigger] w.slots[t][i]).timer_id
            == other implies t == s && w.slots[t][i].rounds == r by {
        if t != s0 || i < v.slots[s0].len() {
            assert(w.slots[t][i] == v.slots[t][i]);
        }
    }
    assert(w.id_only_at(other, s, r));
    assert(w.ticks_to_fire(s, r) == m);
}

/// One tick of a well-formed wheel is well-formed.
pub proof fn lemma_wf_after_tick(v: WheelView)
    requires
        v.wf(),
    ensures
        v.after_tick().wf(),
{
    lemma_mod_division_less_than_divisor(v.cursor + 1, v.size());
}

/// A pending entry that is at least two ticks from firing survives a tick
/// unharmed — it does not fire, and it is then one tick closer.
pub proof fn lemma_tick_step(v: WheelView, id: u64, m: int)
    requires
        v.wf(),
        v.id_fires_in(id, m),
        m >= 2,
    ensures
        v.after_tick().wf(),
        v.after_tick().id_fires_in(id, m - 1),
        !v.tick_fired().contains(id),
{
    broadcast use vstd::seq_lib::lemma_seq_contains;

    let l = v.size();
    let c = v.cursor;
    let nc = v.tick_cursor();
    let w = v.after_tick();
    lemma_wf_after_tick(v);
    lemma_mod_division_less_than_divisor(c + 1, l);
    let (s, r): (int, u64) = choose|s: int, r: u64|
        #[trigger] v.id_only_at(id, s, r) && v.ticks_to_fire(s, r) == m;
    let g = (s - c - 1) % l;
    lemma_mod_division_less_than_divisor(s - c - 1, l);
    let e = (c + 1) / l;
    lemma_fundamental_div_mod(c + 1, l);
    // the gap seen from the advanced cursor is one less, modulo a revolution
    assert(s - nc - 1 == l * e + (s - c - 2)) by (nonlinear_arith)
        requires
            c + 1 == l * e + nc,
    ;
    lemma_mod_multiples_vanish(e, s - c - 2, l);
    assert((s - nc - 1) % l == (s - c - 2) % l);
    if s == nc {
        // the scanned slot: the entry still has rounds, so it is kept once
        // decremented, and fires a full revolution later
        assert(s - c - 1 == l * (-e) + 0) by (nonlinear_arith)
            requires
                c + 1 == l * e + nc,
                s == nc,
        ;
        lemma_mod_multiples_vanish(-e, 0, l);
        lemma_small_mod(0nat, l as nat);
        assert(g == 0);
        assert((r as int) * l >= 1) by (nonlinear_arith)
            requires
                g + 1 + (r as int) * l >= 2,
                g == 0,
        ;
        assert(r >= 1) by (nonlinear_arith)
            requires
                (r as int) * l >= 1,
                r as int >= 0,
                l >= 1,
        ;
        // it does not fire on this tick
        if v.tick_fired().contains(id) {
            lemma_fired_of_src(v.slots[nc], id);
            let i = choose|i: int|
                0 <= i < v.slots[nc].len() && (#[trigger] v.slots[nc][i]).timer_id == id
                    && v.slots[nc][i].rounds == 0;
            assert(false);
        }
        // the decremented entry is the only one for `id` afterwards
        let e2 = WheelEntry { timer_id: id, rounds: (r - 1) as u64 };
        lemma_kept_of_has(v.slots[s], WheelEntry { timer_id: id, rounds: r });
        assert(w.slots[s].contains(e2));
        assert forall|t: int, i: int|
            0 <= t < w.slots.len() && 0 <= i < w.slots[t].len() && (#[trigger] w.slots[t][i]).timer_id
                == id implies t == s && w.slots[t][i].rounds == e2.rounds by {
            if t == nc {
                lemma_kept_of_src(v.slots[nc], i);
            } else {
                assert(w.slots[t][i] == v.slots[t][i]);
            }
        }
        assert(w.id_only_at(id, s, e2.rounds));
        assert(s - nc - 1 == (-1) * l + (l - 1)) by (nonlinear_arith)
            requires
                s == nc,
        ;
        lemma_fundamental_div_mod_converse_mod(s - nc - 1, l, -1, l - 1);
        assert((s - nc - 1) % l == l - 1);
        assert(w.ticks_to_fire(s, e2.rounds) == m - 1) by (nonlinear_arith)
            requires
                w.ticks_to_fire(s, e2.rounds) == (l - 1) + 1 + ((r - 1) as int) * l,
                m == 1 + (r as int) * l,
                r >= 1,
        ;
    } else {
        // some other slot is scanned: the entry is untouched and one tick
        // closer to firing
        if g == 0 {
            let q = (s - c - 1) / l;
            lemma_fundamental_div_mod(s - c - 1, l);
            assert(s - nc == l * (q + e)) by (nonlinear_arith)
                requires
                    s - c - 1 == l * q + 0,
                    c + 1 == l * e + nc,
            ;
            assert(q + e == 0) by (nonlinear_arith)
                requires
                    s - nc == l * (q + e),
                    -l < s - nc < l,
                    l >= 1,
            ;
            assert(false);
        }
        lemma_fundamental_div_mod(s - c - 1, l);
        assert(s - c - 2 == ((s - c - 1) / l) * l + (g - 1)) by (nonlinear_arith)
            requires
                s - c - 1 == l * ((s - c - 1) / l) + g,
        ;
        lemma_fundamental_div_mod_converse_mod(s - c - 2, l, (s - c - 1) / l, g - 1);
        assert((s - c - 2) % l == g - 1);
        assert(w.slots[s] == v.slots[s]);
        assert forall|t: int, i: int|
            0 <= t < w.slots.len() && 0 <= i < w.slots[t].len() && (#[trigger] w.slots[t][i]).timer_id
                == id implies t == s && w.slots[t][i].rounds == r by {
            if t == nc {
                lemma_kept_of_src(v.slots[nc], i);
            } else {
                assert(w.slots[t][i] == v.slots[t][i]);
            }
        }
        assert(w.id_only_at(id, s, r));
        assert(w.ticks_to_fire(s, r) == m - 1);
        if v.tick_fired().contains(id) {
            lemma_fired_of_src(v.slots[nc], id);
            assert(false);
        }
    }
}

/// A pending entry one tick from firing fires on the next tick, and the
/// wheel is then rid of its id.
pub proof fn lemma_tick_fires(v: WheelView, id: u64)
    requires
        v.wf(),
        v.id_fires_in(id, 1),
    ensures
        v.after_tick().wf(),
        v.tick_fired().contains(id),
        v.after_tick().id_absent(id),
{
    broadcast use vstd::seq_lib::lemma_seq_contains;

    let l = v.size();
    let c = v.cursor;
    let nc = v.tick_cursor();
    let w = v.after_tick();
    lemma_wf_after_tick(v);
    lemma_mod_division_less_than_divisor(c + 1, l);
    let (s, r): (int, u64) = choose|s: int, r: u64|
        #[trigger] v.id_only_at(id, s, r) && v.ticks_to_fire(s, r) == 1;
    let g = (s - c - 1) % l;
    lemma_mod_division_less_than_divisor(s - c - 1, l);
    assert((r as int) * l >= 0 && (g == 0 ==> (r as int) * l == 0) && ((r as int) * l == 0 ==> r
        == 0)) by (nonlinear_arith)
        requires
            r as int >= 0,
            l >= 1,
            g + 1 + (r as int) * l == 1,
            g >= 0,
    ;
    assert(g == 0 && r == 0);
    // the entry sits in the slot this tick scans
    let q = (s - c - 1) / l;
    let e = (c + 1) / l;
    lemma_fundamental_div_mod(s - c - 1, l);
    lemma_fundamental_div_mod(c + 1, l);
    assert(s - nc == l * (q + e)) by (nonlinear_arith)
        requires
            s - c - 1 == l * q + 0,
            c + 1 == l * e + nc,
    ;
    assert(q + e == 0) by (nonlinear_arith)
        requires
            s - nc == l * (q + e),
            -l < s - nc < l,
            l >= 1,
    ;
    assert(s == nc);
    lemma_fired_of_has(v.slots[nc], WheelEntry { timer_id: id, rounds: 0 });
    assert forall|t: int, i: int|
        0 <= t < w.slots.len() && 0 <= i < w.slots[t].len() implies (#[trigger] w.slots[t][i]).timer_id
        != id by {
        if t == nc {
            lemma_kept_of_src(v.slots[nc], i);
        } else {
            assert(w.slots[t][i] == v.slots[t][i]);
        }
    }
}

/// The wheel after `k` ticks.
pub open spec fn after_ticks(v: WheelView, k: nat) -> WheelView
    decreases k,
{
    if k == 0 {
        v
    } else {
        after_ticks(v.after_tick(), (k - 1) as nat)
    }
}

/// A pending entry `m` ticks from firing neither fires nor is lost during
/// the first `m - 1` ticks.
pub proof fn lemma_tracked_through_ticks(v: WheelView, id: u64, m: int, k: nat)
    requires
        v.wf(),
        v.id_fires_in(id, m),
        k <= m - 1,
    ensures
        after_ticks(v, k).wf(),
        after_ticks(v, k).id_fires_in(id, m - k),
        forall|j: nat| j < k ==> !(#[trigger] after_ticks(v, j)).tick_fired().contains(id),
    decreases k,
{
    if k > 0 {
        lemma_tick_step(v, id, m);
        lemma_tracked_through_ticks(v.after_tick(), id, m - 1, (k - 1) as nat);
        assert forall|j: nat| j < k implies !(#[trigger] after_ticks(v, j)).tick_fired().contains(
            id,
        ) by {
            if j > 0 {
                assert(after_ticks(v, j) == after_ticks(v.after_tick(), (j - 1) as nat));
            }
        }
    }
}

/// A timer inserted as a fresh id with a delay of `n` ticks is not observed
/// among the fired ids of any of the first `fires_at(n, size) - 1` ticks:
/// it never fires early.
pub proof fn lemma_no_fire_before_deadline(v: WheelView, n: u64, id: u64, j: nat)
    requires
        v.wf(),
        v.id_absent(id),
        n >= 1,
        j + 1 < fires_at(n, v.size()),
    ensures
        !after_ticks(v.after_add(n, id), j).tick_fired().contains(id),
{
    lemma_add_starts_tracking(v, n, id);
    lemma_tracked_through_ticks(v.after_add(n, id), id, fires_at(n, v.size()), (j + 1) as nat);
}

/// A timer inserted as a fresh id with a delay of `n` ticks is fired by
/// tick number `fires_at(n, size)` exactly.
pub proof fn lemma_fires_at_deadline(v: WheelView, n: u64, id: u64)
    requires
        v.wf(),
        v.id_absent(id),
        n >= 1,
    ensures
        after_ticks(v.after_add(n, id), (fires_at(n, v.size()) - 1) as nat).tick_fired().contains(
            id,
        ),
        after_ticks(v.after_add(n, id), fires_at(n, v.size()) as nat).id_absent(id),
{
    let w = v.after_add(n, id);
    let m = fires_at(n, v.size());
    lemma_add_starts_tracking(v, n, id);
    lemma_tracked_through_ticks(w, id, m, (m - 1) as nat);
    lemma_tick_fires(after_ticks(w, (m - 1) as nat), id);
    assert(after_ticks(w, m as nat) == after_ticks(w, (m - 1) as nat).after_tick()) by {
        lemma_after_ticks_unfold_back(w, m as nat);
    }
}

/// Unfold `after_ticks` from the back: `k` ticks are `k - 1` ticks and one
/// more.
proof fn lemma_after_ticks_unfold_back(v: WheelView, k: nat)
    requires
        k >= 1,
    ensures
        after_ticks(v, k) == after_ticks(v, (k - 1) as nat).after_tick(),
    decreases k,
{
    if k == 1 {
        assert(after_ticks(v, 1) == after_ticks(v.after_tick(), 0nat));
    } else {
        lemma_after_ticks_unfold_back(v.after_tick(), (k - 1) as nat);
        assert(after_ticks(v, k) == after_ticks(v.after_tick(), (k - 1) as nat));
        assert(after_ticks(v, (k - 1) as nat) == after_ticks(v.after_tick(), (k - 2) as nat));
    }
}

/// Two timers inserted as fresh ids to fire on the same tick both appear in
/// that tick's fired ids, whichever was inserted first.
pub proof fn lemma_same_tick_fairness(v: WheelView, n1: u64, id1: u64, n2: u64, id2: u64)
    requires
        v.wf(),
        v.id_absent(id1),
        v.id_absent(id2),
        id1 != id2,
        n1 >= 1,
        n2 >= 1,
        fires_at(n1, v.size()) == fires_at(n2, v.size()),
    ensures
        ({
            let w = after_ticks(
                v.after_add(n1, id1).after_add(n2, id2),
                (fires_at(n1, v.size()) - 1) as nat,
            );
            w.tick_fired().contains(id1) && w.tick_fired().contains(id2)
        }),
{
    let l = v.size();
    let m = fires_at(n1, l);
    let w1 = v.after_add(n1, id1);
    let w2 = w1.after_add(n2, id2);
    lemma_add_starts_tracking(v, n1, id1);
    lemma_add_preserves_absent(v, n1, id1, id2);
    lemma_add_starts_tracking(w1, n2, id2);
    lemma_add_preserves_tracked(w1, n2, id2, id1, m);
    lemma_tracked_through_ticks(w2, id1, m, (m - 1) as nat);
    lemma_tracked_through_ticks(w2, id2, m, (m - 1) as nat);
    lemma_tick_fires(after_ticks(w2, (m - 1) as nat), id1);
    lemma_tick_fires(after_ticks(w2, (m - 1) as nat), id2);
}

/// A bucket whose entries carry pairwise distinct ids fires without
/// duplicates.
proof fn lemma_fired_of_no_dup(b: Seq<WheelEntry>)
    requires
        forall|i: int, j: int|
            0 <= i < j < b.len() ==> (#[trigger] b[i]).timer_id != (#[trigger] b[j]).timer_id,
    ensures
        fired_of(b).no_duplicates(),
    decreases b.len(),
{
    broadcast use vstd::seq_lib::lemma_seq_contains, vstd::seq_lib::lemma_seq_contains_after_push;

    if b.len() > 0 {
        lemma_fired_of_no_dup(b.drop_last());
        if b.last().rounds == 0 {
            if fired_of(b.drop_last()).contains(b.last().timer_id) {
                lemma_fired_of_src(b.drop_last(), b.last().timer_id);
                let i = choose|i: int|
                    0 <= i < b.drop_last().len() && (#[trigger] b.drop_last()[i]).timer_id
                        == b.last().timer_id && b.drop_last()[i].rounds == 0;
                assert((#[trigger] b[i]).timer_id == (#[trigger] b[b.len() - 1]).timer_id);
                assert(false);
            }
        }
    }
}

/// Ids are carried by at most one entry each, over the whole wheel.
pub open spec fn wheel_distinct(v: WheelView) -> bool {
    forall|t1: int, i1: int, t2: int, i2: int|
        0 <= t1 < v.slots.len() && 0 <= i1 < v.slots[t1].len() && 0 <= t2 < v.slots.len() && 0 <= i2
            < v.slots[t2].len() && (t1 != t2 || i1 != i2) ==> (#[trigger] v.slots[t1][i1]).timer_id
            != (#[trigger] v.slots[t2][i2]).timer_id
}

/// A bucket with pairwise distinct ids keeps pairwise distinct ids, and
/// every kept id is the id of some bucket entry.
proof fn lemma_kept_of_distinct(b: Seq<WheelEntry>)
    requires
        forall|i: int, j: int|
            0 <= i < j < b.len() ==> (#[trigger] b[i]).timer_id != (#[trigger] b[j]).timer_id,
    ensures
        forall|i: int, j: int|
            0 <= i < j < kept_of(b).len() ==> (#[trigger] kept_of(b)[i]).timer_id != (
            #[trigger] kept_of(b)[j]).timer_id,
    decreases b.len(),
{
    if b.len() > 0 {
        lemma_kept_of_distinct(b.drop_last());
        assert forall|i: int, j: int| 0 <= i < j < kept_of(b).len() implies (
        #[trigger] kept_of(b)[i]).timer_id != (#[trigger] kept_of(b)[j]).timer_id by {
            if b.last().rounds > 0 && j == kept_of(b).len() - 1 {
                lemma_kept_of_src(b.drop_last(), i);
                let i0 = choose|i0: int|
                    0 <= i0 < b.drop_last().len() && (#[trigger] b.drop_last()[i0]).rounds >= 1
                        && kept_of(b.drop_last())[i] == (WheelEntry {
                        timer_id: b.drop_last()[i0].timer_id,
                        rounds: (b.drop_last()[i0].rounds - 1) as u64,
                    });
                assert((#[trigger] b[i0]).timer_id != (#[trigger] b[b.len() - 1]).timer_id);
            } else {
                assert(kept_of(b)[i] == kept_of(b.drop_last())[i]);
                assert(kept_of(b)[j] == kept_of(b.drop_last())[j]);
            }
        }
    }
}

/// An id no entry carries neither fires on a tick nor appears afterwards.
pub proof fn lemma_tick_preserves_absent(v: WheelView, id: u64)
    requires
        v.wf(),
        v.id_absent(id),
    ensures
        v.after_tick().id_absent(id),
        !v.tick_fired().contains(id),
{
    let nc = v.tick_cursor();
    let w = v.after_tick();
    lemma_mod_division_less_than_divisor(v.cursor + 1, v.size());
    if v.tick_fired().contains(id) {
        lemma_fired_of_src(v.slots[nc], id);
        assert(false);
    }
    assert forall|t: int, i: int|
        0 <= t < w.slots.len() && 0 <= i < w.slots[t].len() implies (#[trigger] w.slots[t][i]).timer_id
        != id by {
        if t == nc {
            lemma_kept_of_src(v.slots[nc], i);
        } else {
            assert(w.slots[t][i] == v.slots[t][i]);
        }
    }
}

/// Inserting an id no entry carries keeps ids pairwise distinct.
pub proof fn lemma_add_keeps_distinct(v: WheelView, n: u64, id: u64)
    requires
        v.wf(),
        wheel_distinct(v),
        v.id_absent(id),
    ensures
        wheel_distinct(v.after_add(n, id)),
{
    let s = v.slot_for(n);
    let w = v.after_add(n, id);
    lemma_mod_division_less_than_divisor(v.cursor + n, v.size());
    assert forall|t1: int, i1: int, t2: int, i2: int|
        0 <= t1 < w.slots.len() && 0 <= i1 < w.slots[t1].len() && 0 <= t2 < w.slots.len() && 0 <= i2
            < w.slots[t2].len() && (t1 != t2 || i1 != i2) implies (
    #[trigger] w.slots[t1][i1]).timer_id != (#[trigger] w.slots[t2][i2]).timer_id by {
        if t1 != s || i1 < v.slots[s].len() {
            assert(w.slots[t1][i1] == v.slots[t1][i1]);
        }
        if t2 != s || i2 < v.slots[s].len() {
            assert(w.slots[t2][i2] == v.slots[t2][i2]);
        }
    }
}

/// A tick of a wheel whose ids are pairwise distinct: the fired ids are
/// pairwise distinct, each of them leaves the wheel entirely, every
/// remaining entry's id was already carried before, and distinctness is
/// kept.
pub proof fn lemma_tick_keeps_distinct(v: WheelView)
    requires
        v.wf(),
        wheel_distinct(v),
    ensures
        wheel_distinct(v.after_tick()),
        v.tick_fired().no_duplicates(),
        forall|x: u64| #[trigger]
            v.tick_fired().contains(x) ==> !v.id_absent(x) && v.after_tick().id_absent(x),
        forall|t: int, i: int|
            0 <= t < v.after_tick().slots.len() && 0 <= i < v.after_tick().slots[t].len()
                ==> exists|t0: int, i0: int|
                0 <= t0 < v.slots.len() && 0 <= i0 < v.slots[t0].len() && (
                #[trigger] v.after_tick().slots[t][i]).timer_id == (
                #[trigger] v.slots[t0][i0]).timer_id,
{
    let nc = v.tick_cursor();
    let w = v.after_tick();
    let b = v.slots[nc];
    lemma_mod_division_less_than_divisor(v.cursor + 1, v.size());
    lemma_fired_of_no_dup(b);
    lemma_kept_of_distinct(b);
    assert forall|x: u64| #[trigger]
        v.tick_fired().contains(x) implies !v.id_absent(x) && w.id_absent(x) by {
        lemma_fired_of_src(b, x);
        let i0 = choose|i0: int|
            0 <= i0 < b.len() && (#[trigger] b[i0]).timer_id == x && b[i0].rounds == 0;
        assert(!v.id_absent(x));
        assert forall|t: int, i: int|
            0 <= t < w.slots.len() && 0 <= i < w.slots[t].len() implies (
        #[trigger] w.slots[t][i]).timer_id != x by {
            if t == nc {
                lemma_kept_of_src(b, i);
                let i1 = choose|i1: int|
                    0 <= i1 < b.len() && (#[trigger] b[i1]).rounds >= 1 && kept_of(b)[i]
                        == (WheelEntry {
                        timer_id: b[i1].timer_id,
                        rounds: (b[i1].rounds - 1) as u64,
                    });
                assert(i1 != i0);
            } else {
                assert(w.slots[t][i] == v.slots[t][i]);
            }
        }
    }
    assert forall|t: int, i: int|
        0 <= t < w.slots.len() && 0 <= i < w.slots[t].len() implies exists|t0: int, i0: int|
        0 <= t0 < v.slots.len() && 0 <= i0 < v.slots[t0].len() && (
        #[trigger] w.slots[t][i]).timer_id == (#[trigger] v.slots[t0][i0]).timer_id by {
        if t == nc {
            lemma_kept_of_src(b, i);
            let i1 = choose|i1: int|
                0 <= i1 < b.len() && (#[trigger] b[i1]).rounds >= 1 && kept_of(b)[i]
                    == (WheelEntry { timer_id: b[i1].timer_id, rounds: (b[i1].rounds - 1) as u64 });
            assert(0 <= nc < v.slots.len() && 0 <= i1 < v.slots[nc].len() && w.slots[t][i].timer_id
                == v.slots[nc][i1].timer_id);
        } else {
            assert(0 <= t < v.slots.len() && 0 <= i < v.slots[t].len() && w.slots[t][i].timer_id
                == v.slots[t][i].timer_id);
        }
    }
    assert forall|t1: int, i1: int, t2: int, i2: int|
        0 <= t1 < w.slots.len() && 0 <= i1 < w.slots[t1].len() && 0 <= t2 < w.slots.len() && 0 <= i2
            < w.slots[t2].len() && (t1 != t2 || i1 != i2) implies (
    #[trigger] w.slots[t1][i1]).timer_id != (#[trigger] w.slots[t2][i2]).timer_id by {
        if t1 == nc && t2 == nc {
        } else if t1 == nc {
            lemma_kept_of_src(b, i1);
            let s1 = choose|s1: int|
                0 <= s1 < b.len() && (#[trigger] b[s1]).rounds >= 1 && kept_of(b)[i1]
                    == (WheelEntry { timer_id: b[s1].timer_id, rounds: (b[s1].rounds - 1) as u64 });
            assert(w.slots[t2][i2] == v.slots[t2][i2]);
            assert((#[trigger] v.slots[nc][s1]).timer_id != (#[trigger] v.slots[t2][i2]).timer_id);
        } else if t2 == nc {
            lemma_kept_of_src(b, i2);
            let s2 = choose|s2: int|
                0 <= s2 < b.len() && (#[trigger] b[s2]).rounds >= 1 && kept_of(b)[i2]
                    == (WheelEntry { timer_id: b[s2].timer_id, rounds: (b[s2].rounds - 1) as u64 });
            assert(w.slots[t1][i1] == v.slots[t1][i1]);
            assert((#[trigger] v.slots[t1][i1]).timer_id != (#[trigger] v.slots[nc][s2]).timer_id);
        } else {
            assert(w.slots[t1][i1] == v.slots[t1][i1]);
            assert(w.slots[t2][i2] == v.slots[t2][i2]);
        }
    }
}

} // verus!
