//! Multi-touch gesture recognition over raw evdev events (protocol B slots).
//!
//! Wordle only uses the short single-finger tap, in screen pixels; horizontal
//! lifts map to page gestures used by other apps. A contact counts only when it
//! was the sole finger down from touch-down to lift (palm rejection). There is
//! deliberately no quit gesture.

use vstd::prelude::*;
use crate::evdev::{RawEvent, EV_ABS, EV_SYN, SYN_DROPPED};
use crate::render::{H, W};
use crate::surface::trunc_div;

verus! {

pub const ABS_MT_SLOT: u16 = 47;
pub const ABS_MT_POSITION_X: u16 = 53;
pub const ABS_MT_POSITION_Y: u16 = 54;
pub const ABS_MT_TRACKING_ID: u16 = 57;
/// Number of contact slots tracked; events for other slots are ignored.
pub const MAX_SLOTS: usize = 16;
/// Minimum horizontal travel (raw units) for a lift to count as a page swipe.
pub const SWIPE_MIN: i32 = 280;
/// A long, deliberate forward drag (about half the panel).
pub const SWIPE_LONG: i32 = 1000;
/// Max travel (raw units) for a lift to still count as a tap.
pub const TAP_MAX: i32 = 60;
/// A coordinate not reported yet for the current contact of a slot.
pub const UNSET: i32 = i32::MIN;
/// Contacts still down with no event for longer than this (nanoseconds) mean
/// that a lift was dropped.
pub const STUCK_TIMEOUT_NS: u64 = 2_000_000_000;

/// What the touch surface reported.
#[derive(Debug, Clone, Copy, PartialEq, Eq, Structural)]
pub enum Gesture {
    /// Nothing recognized.
    Nothing,
    /// Swipe right: show the previous (older) page.
    PrevPage,
    /// Swipe left: show the next (newer) page.
    NextPage,
    /// A long, deliberate forward drag: start a fresh page.
    NewPage,
    /// A short single-finger tap at `(x, y)` in screen pixels.
    Tap(i32, i32),
}

/// The tracker's state: per slot whether a contact is down and where it
/// started and last was (raw units), the selected slot, and the peak number of
/// contacts down at once since the surface was last clear.
pub struct Contacts {
    pub slots: Seq<bool>,
    pub start_x: Seq<i32>,
    pub last_x: Seq<i32>,
    pub start_y: Seq<i32>,
    pub last_y: Seq<i32>,
    pub x_max: i32,
    pub y_max: i32,
    pub cur: usize,
    pub cur_valid: bool,
    pub peak: usize,
}

/// Every slot table has `MAX_SLOTS` entries and the selected slot is one of them.
pub open spec fn contacts_ok(m: Contacts) -> bool {
    &&& m.slots.len() == MAX_SLOTS
    &&& m.start_x.len() == MAX_SLOTS
    &&& m.last_x.len() == MAX_SLOTS
    &&& m.start_y.len() == MAX_SLOTS
    &&& m.last_y.len() == MAX_SLOTS
    &&& m.cur < MAX_SLOTS
    &&& m.peak <= MAX_SLOTS
}

/// A clear surface for a panel whose axes end at `x_max`, `y_max`.
pub open spec fn fresh(x_max: i32, y_max: i32) -> Contacts {
    Contacts {
        slots: Seq::new(MAX_SLOTS as nat, |i: int| false),
        start_x: Seq::new(MAX_SLOTS as nat, |i: int| UNSET),
        last_x: Seq::new(MAX_SLOTS as nat, |i: int| UNSET),
        start_y: Seq::new(MAX_SLOTS as nat, |i: int| UNSET),
        last_y: Seq::new(MAX_SLOTS as nat, |i: int| UNSET),
        x_max,
        y_max,
        cur: 0,
        cur_valid: true,
        peak: 0,
    }
}

/// The number of contacts down.
pub open spec fn count_down(s: Seq<bool>) -> nat
    decreases s.len(),
{
    if s.len() == 0 {
        0
    } else {
        count_down(s.drop_last()) + if s.last() {
            1nat
        } else {
            0nat
        }
    }
}

pub open spec fn abs(v: int) -> int {
    if v < 0 {
        -v
    } else {
        v
    }
}

/// A raw coordinate on an axis ending at `max` mapped to a screen axis of
/// `span` pixels (in 64-bit arithmetic, truncated to `i32`).
pub open spec fn to_screen(v: i32, max: i32, span: int) -> i32 {
    trunc_div(v * span, if max >= 1 {
        max as int
    } else {
        1
    }) as i32
}

/// The gesture of lifting the contact of slot `c`, with `fingers` contacts
/// still down and `peak` the most down at once: only a clean single-finger
/// contact counts; a long leftward drag starts a new page, a shorter one pages
/// forward, a rightward one pages back, and one that stayed within `TAP_MAX`
/// on both axes is a tap at its last position. Travel is the exact difference
/// of the raw positions (computed in 64 bits).
pub open spec fn lift_gesture(m: Contacts, c: int, fingers: int, peak: int) -> Option<Gesture> {
    let sx = m.start_x[c];
    let lx = m.last_x[c];
    let sy = m.start_y[c];
    let ly = m.last_y[c];
    if fingers == 0 && peak <= 1 && sx != UNSET && lx != UNSET {
        let dx = lx - sx;
        let dy = if sy != UNSET {
            ly - sy
        } else {
            0
        };
        if dx <= -SWIPE_LONG {
            Some(Gesture::NewPage)
        } else if dx <= -SWIPE_MIN {
            Some(Gesture::NextPage)
        } else if dx >= SWIPE_MIN {
            Some(Gesture::PrevPage)
        } else if abs(dx) <= TAP_MAX && abs(dy) <= TAP_MAX && sy != UNSET {
            Some(Gesture::Tap(to_screen(lx, m.x_max, W as int), to_screen(ly, m.y_max, H as int)))
        } else {
            None
        }
    } else {
        None
    }
}

/// The state after a tracking-id event on the selected slot: a contact goes
/// down (`value != -1`, its coordinates forgotten if it is new) or up; the peak
/// follows the number down and restarts once the surface is clear.
pub open spec fn track(m: Contacts, value: i32) -> Contacts {
    let c = m.cur as int;
    let now = value != -1;
    let renew = now && !m.slots[c];
    let slots = m.slots.update(c, now);
    let fingers = count_down(slots);
    let peak = if fingers > m.peak {
        fingers
    } else {
        m.peak as nat
    };
    Contacts {
        slots,
        start_x: if renew { m.start_x.update(c, UNSET) } else { m.start_x },
        last_x: if renew { m.last_x.update(c, UNSET) } else { m.last_x },
        start_y: if renew { m.start_y.update(c, UNSET) } else { m.start_y },
        last_y: if renew { m.last_y.update(c, UNSET) } else { m.last_y },
        x_max: m.x_max,
        y_max: m.y_max,
        cur: m.cur,
        cur_valid: m.cur_valid,
        peak: (if fingers == 0 { 0 } else { peak }) as usize,
    }
}

/// The state after one event.
pub open spec fn touch_step(m: Contacts, e: RawEvent) -> Contacts {
    let c = m.cur as int;
    if e.etype == EV_SYN {
        if e.code == SYN_DROPPED {
            fresh(m.x_max, m.y_max)
        } else {
            m
        }
    } else if e.etype != EV_ABS {
        m
    } else if e.code == ABS_MT_SLOT {
        if 0 <= e.value < MAX_SLOTS {
            Contacts { cur: e.value as usize, cur_valid: true, ..m }
        } else {
            Contacts { cur_valid: false, ..m }
        }
    } else if !m.cur_valid {
        m
    } else if e.code == ABS_MT_POSITION_X {
        Contacts {
            start_x: if m.start_x[c] == UNSET { m.start_x.update(c, e.value) } else { m.start_x },
            last_x: m.last_x.update(c, e.value),
            ..m
        }
    } else if e.code == ABS_MT_POSITION_Y {
        Contacts {
            start_y: if m.start_y[c] == UNSET { m.start_y.update(c, e.value) } else { m.start_y },
            last_y: m.last_y.update(c, e.value),
            ..m
        }
    } else if e.code == ABS_MT_TRACKING_ID {
        track(m, e.value)
    } else {
        m
    }
}

/// The gesture one event completes, if any: the lift of a contact.
pub open spec fn touch_gesture(m: Contacts, e: RawEvent) -> Option<Gesture> {
    let c = m.cur as int;
    if e.etype == EV_ABS && e.code == ABS_MT_TRACKING_ID && m.cur_valid && e.value == -1 && m.slots[c] {
        let after = track(m, e.value);
        lift_gesture(m, c, count_down(after.slots) as int, (if count_down(after.slots) > m.peak {
            count_down(after.slots)
        } else {
            m.peak as nat
        }) as int)
    } else {
        None
    }
}

/// The state after the first `n` events.
pub open spec fn contacts_after(m: Contacts, evs: Seq<RawEvent>, n: int) -> Contacts
    decreases n,
{
    if n <= 0 {
        m
    } else {
        touch_step(contacts_after(m, evs, n - 1), evs[n - 1])
    }
}

/// The last gesture completed among the first `n` events, or `g` if none.
pub open spec fn gesture_after(m: Contacts, evs: Seq<RawEvent>, n: int, g: Gesture) -> Gesture
    decreases n,
{
    if n <= 0 {
        g
    } else {
        match touch_gesture(contacts_after(m, evs, n - 1), evs[n - 1]) {
            Some(x) => x,
            None => gesture_after(m, evs, n - 1, g),
        }
    }
}

proof fn lemma_count_bound(s: Seq<bool>)
    ensures
        count_down(s) <= s.len(),
    decreases s.len(),
{
    if s.len() > 0 {
        lemma_count_bound(s.drop_last());
    }
}

proof fn lemma_step_ok(m: Contacts, e: RawEvent)
    requires
        contacts_ok(m),
    ensures
        contacts_ok(touch_step(m, e)),
{
    lemma_count_bound(m.slots.update(m.cur as int, e.value != -1));
}

/// The multi-touch tracker of the touch panel.
pub struct TouchTracker {
    slots: Vec<bool>,
    start_x: Vec<i32>,
    last_x: Vec<i32>,
    start_y: Vec<i32>,
    last_y: Vec<i32>,
    x_max: i32,
    y_max: i32,
    cur: usize,
    /// False while the selected slot is past the table: its events are ignored
    /// rather than aliased onto another slot.
    cur_valid: bool,
    /// Peak number of contacts down at once since the surface was last clear:
    /// a fingertip is one contact, a resting palm makes several.
    peak: usize,
}

impl View for TouchTracker {
    type V = Contacts;

    closed spec fn view(&self) -> Contacts {
        Contacts {
            slots: self.slots@,
            start_x: self.start_x@,
            last_x: self.last_x@,
            start_y: self.start_y@,
            last_y: self.last_y@,
            x_max: self.x_max,
            y_max: self.y_max,
            cur: self.cur,
            cur_valid: self.cur_valid,
            peak: self.peak,
        }
    }
}

fn no_contacts() -> (v: Vec<bool>)
    ensures
        v@ == Seq::new(MAX_SLOTS as nat, |i: int| false),
{
    let mut v: Vec<bool> = Vec::new();
    while v.len() < MAX_SLOTS
        invariant
            v@.len() <= MAX_SLOTS,
            forall|i: int| 0 <= i < v@.len() ==> !#[trigger] v@[i],
        decreases MAX_SLOTS - v@.len(),
    {
        v.push(false);
    }
    assert(v@ =~= Seq::new(MAX_SLOTS as nat, |i: int| false));
    v
}

fn unset_coords() -> (v: Vec<i32>)
    ensures
        v@ == Seq::new(MAX_SLOTS as nat, |i: int| UNSET),
{
    let mut v: Vec<i32> = Vec::new();
    while v.len() < MAX_SLOTS
        invariant
            v@.len() <= MAX_SLOTS,
            forall|i: int| 0 <= i < v@.len() ==> #[trigger] v@[i] == UNSET,
        decreases MAX_SLOTS - v@.len(),
    {
        v.push(UNSET);
    }
    assert(v@ =~= Seq::new(MAX_SLOTS as nat, |i: int| UNSET));
    v
}

fn count_true(s: &Vec<bool>) -> (n: usize)
    requires
        s@.len() <= MAX_SLOTS,
    ensures
        n == count_down(s@),
{
    let mut n: usize = 0;
    let mut i: usize = 0;
    while i < s.len()
        invariant
            i <= s@.len() <= MAX_SLOTS,
            n == count_down(s@.take(i as int)),
        decreases s@.len() - i,
    {
        proof {
            lemma_count_bound(s@.take(i as int));
            assert(s@.take(i as int + 1).drop_last() =~= s@.take(i as int));
        }
        if s[i] {
            n = n + 1;
        }
        i += 1;
    }
    assert(s@.take(i as int) =~= s@);
    n
}

fn abs64(v: i64) -> (r: i64)
    requires
        v > i64::MIN,
    ensures
        r == abs(v as int),
{
    if v < 0 {
        -v
    } else {
        v
    }
}

fn screen_of(v: i32, max: i32, span: i32) -> (r: i32)
    requires
        0 < span <= 0x10000,
    ensures
        r == to_screen(v, max, span as int),
{
    let m: i64 = if max >= 1 {
        max as i64
    } else {
        1
    };
    assert(-0x8000_0000 * 0x10000 <= v * span <= 0x8000_0000 * 0x10000) by (nonlinear_arith)
        requires
            -0x8000_0000 <= v < 0x8000_0000,
            0 < span <= 0x10000,
    ;
    let q = (v as i64 * span as i64) / m;
    assert(q == trunc_div(v * span, m as int));
    q as i32
}

impl TouchTracker {
    pub open spec fn wf(&self) -> bool {
        contacts_ok(self@)
    }

    /// A tracker for a panel whose axes end at `x_max` and `y_max` (raw units).
    pub fn new(x_max: i32, y_max: i32) -> (t: Self)
        ensures
            t@ == fresh(x_max, y_max),
            t.wf(),
    {
        TouchTracker {
            slots: no_contacts(),
            start_x: unset_coords(),
            last_x: unset_coords(),
            start_y: unset_coords(),
            last_y: unset_coords(),
            x_max,
            y_max,
            cur: 0,
            cur_valid: true,
            peak: 0,
        }
    }

    /// Drop all multi-touch state, as after a kernel buffer overflow (a lift
    /// may have been lost): the next contacts start from a clear surface.
    pub fn reset_mt(&mut self)
        ensures
            final(self)@ == fresh(old(self)@.x_max, old(self)@.y_max),
            final(self).wf(),
    {
        self.slots = no_contacts();
        self.start_x = unset_coords();
        self.last_x = unset_coords();
        self.start_y = unset_coords();
        self.last_y = unset_coords();
        self.peak = 0;
        self.cur = 0;
        self.cur_valid = true;
    }

    /// The stuck-contact watchdog: with a contact still down and no touch
    /// event for longer than `STUCK_TIMEOUT_NS`, a lift was lost, so the
    /// multi-touch state is dropped. Returns whether it was.
    pub fn expire_stuck(&mut self, idle_ns: u64) -> (cleared: bool)
        ensures
            cleared == ((exists|i: int| 0 <= i < old(self)@.slots.len() && #[trigger] old(self)@.slots[i])
                && idle_ns > STUCK_TIMEOUT_NS),
            cleared ==> final(self)@ == fresh(old(self)@.x_max, old(self)@.y_max),
            !cleared ==> final(self)@ == old(self)@,
            old(self).wf() ==> final(self).wf(),
    {
        if idle_ns > STUCK_TIMEOUT_NS && self.any_down() {
            self.reset_mt();
            true
        } else {
            false
        }
    }

    /// True when some contact is down.
    pub fn any_down(&self) -> (r: bool)
        ensures
            r == (exists|i: int| 0 <= i < self@.slots.len() && #[trigger] self@.slots[i]),
    {
        let mut i: usize = 0;
        while i < self.slots.len()
            invariant
                i <= self.slots@.len(),
                forall|k: int| 0 <= k < i ==> !#[trigger] self.slots@[k],
            decreases self.slots@.len() - i,
        {
            if self.slots[i] {
                assert(self@.slots[i as int]);
                return true;
            }
            i += 1;
        }
        false
    }

    fn lift(&self, fingers: usize) -> (g: Option<Gesture>)
        requires
            self.wf(),
        ensures
            g == lift_gesture(self@, self@.cur as int, fingers as int, self@.peak as int),
    {
        let c = self.cur;
        let sx = self.start_x[c];
        let lx = self.last_x[c];
        let sy = self.start_y[c];
        let ly = self.last_y[c];
        if fingers == 0 && self.peak <= 1 && sx != UNSET && lx != UNSET {
            let dx: i64 = lx as i64 - sx as i64;
            let dy: i64 = if sy != UNSET {
                ly as i64 - sy as i64
            } else {
                0
            };
            if dx <= -(SWIPE_LONG as i64) {
                Some(Gesture::NewPage)
            } else if dx <= -(SWIPE_MIN as i64) {
                Some(Gesture::NextPage)
            } else if dx >= SWIPE_MIN as i64 {
                Some(Gesture::PrevPage)
            } else if abs64(dx) <= TAP_MAX as i64 && abs64(dy) <= TAP_MAX as i64 && sy != UNSET {
                Some(Gesture::Tap(screen_of(lx, self.x_max, W), screen_of(ly, self.y_max, H)))
            } else {
                None
            }
        } else {
            None
        }
    }

    fn step(&mut self, e: RawEvent) -> (g: Option<Gesture>)
        requires
            old(self).wf(),
        ensures
            final(self)@ == touch_step(old(self)@, e),
            g == touch_gesture(old(self)@, e),
            final(self).wf(),
    {
        proof {
            lemma_step_ok(self@, e);
        }
        if e.etype == EV_SYN {
            if e.code == SYN_DROPPED {
                self.reset_mt();
            }
            return None;
        }
        if e.etype != EV_ABS {
            return None;
        }
        if e.code == ABS_MT_SLOT {
            if e.value >= 0 && (e.value as usize) < MAX_SLOTS {
                self.cur = e.value as usize;
                self.cur_valid = true;
            } else {
                self.cur_valid = false;
            }
            return None;
        }
        if !self.cur_valid {
            return None;
        }
        let c = self.cur;
        if e.code == ABS_MT_POSITION_X {
            if self.start_x[c] == UNSET {
                self.start_x.set(c, e.value);
            }
            self.last_x.set(c, e.value);
            return None;
        }
        if e.code == ABS_MT_POSITION_Y {
            if self.start_y[c] == UNSET {
                self.start_y.set(c, e.value);
            }
            self.last_y.set(c, e.value);
            return None;
        }
        if e.code != ABS_MT_TRACKING_ID {
            return None;
        }
        let ghost before = self@;
        let was = self.slots[c];
        let now = e.value != -1;
        self.slots.set(c, now);
        let fingers = count_true(&self.slots);
        proof {
            lemma_count_bound(self.slots@);
        }
        if fingers > self.peak {
            self.peak = fingers;
        }
        let mut g: Option<Gesture> = None;
        if now && !was {
            self.start_x.set(c, UNSET);
            self.last_x.set(c, UNSET);
            self.start_y.set(c, UNSET);
            self.last_y.set(c, UNSET);
        }
        if !now && was {
            g = self.lift(fingers);
        }
        if fingers == 0 {
            self.peak = 0;
        }
        assert(self@.slots =~= track(before, e.value).slots);
        assert(self@.start_x =~= track(before, e.value).start_x);
        assert(self@.last_x =~= track(before, e.value).last_x);
        assert(self@.start_y =~= track(before, e.value).start_y);
        assert(self@.last_y =~= track(before, e.value).last_y);
        g
    }

    /// Feed a batch of events; returns the last gesture completed in the batch,
    /// or `so_far` when none was.
    pub fn feed(&mut self, events: &[RawEvent], so_far: Gesture) -> (g: Gesture)
        requires
            old(self).wf(),
        ensures
            final(self)@ == contacts_after(old(self)@, events@, events@.len() as int),
            g == gesture_after(old(self)@, events@, events@.len() as int, so_far),
            final(self).wf(),
    {
        let ghost start = self@;
        let mut g = so_far;
        let mut i: usize = 0;
        while i < events.len()
            invariant
                i <= events@.len(),
                self.wf(),
                self@ == contacts_after(start, events@, i as int),
                g == gesture_after(start, events@, i as int, so_far),
            decreases events@.len() - i,
        {
            if let Some(x) = self.step(events[i]) {
                g = x;
            }
            i += 1;
        }
        g
    }
}

} // verus!

verus! {

proof fn lemma_touch_prefix(m: Contacts, a: Seq<RawEvent>, b: Seq<RawEvent>, n: int, g: Gesture)
    requires
        0 <= n <= a.len(),
    ensures
        contacts_after(m, a + b, n) == contacts_after(m, a, n),
        gesture_after(m, a + b, n, g) == gesture_after(m, a, n, g),
    decreases n,
{
    if n > 0 {
        lemma_touch_prefix(m, a, b, n - 1, g);
        assert((a + b)[n - 1] == a[n - 1]);
    }
}

proof fn lemma_touch_suffix(m: Contacts, a: Seq<RawEvent>, b: Seq<RawEvent>, k: int, g: Gesture)
    requires
        0 <= k <= b.len(),
    ensures
        contacts_after(m, a + b, a.len() + k) == contacts_after(contacts_after(m, a, a.len() as int), b, k),
        gesture_after(m, a + b, a.len() + k, g) == gesture_after(
            contacts_after(m, a, a.len() as int),
            b,
            k,
            gesture_after(m, a, a.len() as int, g),
        ),
    decreases k,
{
    if k == 0 {
        lemma_touch_prefix(m, a, b, a.len() as int, g);
    } else {
        lemma_touch_suffix(m, a, b, k - 1, g);
        assert((a + b)[a.len() + k - 1] == b[k - 1]);
    }
}

/// Reading the device in pieces changes nothing: feeding `a` and then `b`
/// (passing on the gesture so far) leaves the same state and reports the same
/// gesture as feeding `a + b` at once.
pub proof fn lemma_touch_batches_compose(m: Contacts, a: Seq<RawEvent>, b: Seq<RawEvent>, g: Gesture)
    ensures
        contacts_after(m, a + b, (a + b).len() as int) == contacts_after(
            contacts_after(m, a, a.len() as int),
            b,
            b.len() as int,
        ),
        gesture_after(m, a + b, (a + b).len() as int, g) == gesture_after(
            contacts_after(m, a, a.len() as int),
            b,
            b.len() as int,
            gesture_after(m, a, a.len() as int, g),
        ),
{
    lemma_touch_suffix(m, a, b, b.len() as int, g);
}

/// Palm rejection: an event completes a gesture only when it lifts the last
/// contact down and no second contact was down since the surface was clear.
pub proof fn lemma_gesture_needs_one_clean_finger(m: Contacts, e: RawEvent)
    requires
        contacts_ok(m),
        touch_gesture(m, e) is Some,
    ensures
        m.peak <= 1,
        m.slots[m.cur as int],
        count_down(touch_step(m, e).slots) == 0,
        touch_step(m, e).peak == 0,
{
}

/// After a dropped-events marker nothing is down and nothing is remembered:
/// the tracker is as fresh as a newly opened one.
pub proof fn lemma_dropped_events_reset(m: Contacts, value: i32)
    ensures
        touch_step(m, RawEvent { etype: EV_SYN, code: SYN_DROPPED, value }) == fresh(m.x_max, m.y_max),
        touch_gesture(m, RawEvent { etype: EV_SYN, code: SYN_DROPPED, value }) is None,
{
}

} // verus!

verus! {

/// A raw position within the panel's axis range maps onto the screen axis.
pub proof fn lemma_tap_lands_on_screen(v: i32, max: i32, span: int)
    requires
        1 <= max,
        0 <= v <= max,
        0 < span <= 0x10000,
    ensures
        0 <= to_screen(v, max, span) <= span,
{
    assert(0 <= v * span <= max * span) by (nonlinear_arith)
        requires
            0 <= v <= max,
            0 < span,
    ;
    vstd::arithmetic::div_mod::lemma_div_is_ordered(v * span, max * span, max as int);
    vstd::arithmetic::div_mod::lemma_div_by_multiple(span, max as int);
    vstd::arithmetic::div_mod::lemma_div_pos_is_pos(v * span, max as int);
    assert(max * span == span * max) by (nonlinear_arith);
    assert(v * span / (max as int) <= span);
    assert(0 <= v * span / (max as int) <= 0x10000);
}

} // verus!
