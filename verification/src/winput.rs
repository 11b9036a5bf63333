//! Windowed-mode input: translate the window server's input events into the
//! same `PenSample`s and taps that the raw-device path produces, so the game
//! loop handles both input sources with identical logic.
//!
//! Events arrive in framebuffer-pixel coordinates, so there is no transform to
//! do. Pen pressure arrives as `d` in 0..=100, 0 on release. The window server
//! cannot tell pen from eraser, so this path never reports the eraser tool.

use vstd::prelude::*;
use crate::pen::{PenSample, Tool};

verus! {

pub const INPUT_TOUCH_PRESS: i32 = 0x10;
pub const INPUT_TOUCH_RELEASE: i32 = 0x11;
pub const INPUT_TOUCH_UPDATE: i32 = 0x12;
pub const INPUT_PEN_PRESS: i32 = 0x20;
pub const INPUT_PEN_RELEASE: i32 = 0x21;
pub const INPUT_PEN_UPDATE: i32 = 0x22;

/// Max travel (screen px) from touch-down for the lift to still count as a tap.
pub const TAP_MAX: i32 = 60;

/// One input event of the window server.
#[derive(Debug, Clone, Copy)]
pub struct InputEvent {
    pub input_type: i32,
    pub dev_id: i32,
    pub x: i32,
    pub y: i32,
    pub d: i32,
}

/// The tracked contact `(dev_id, start_x, start_y)` and whether it has moved past `TAP_MAX`.
pub type TouchState = (Option<(i32, i32, i32)>, bool);

/// Pen pressure for a window-server reading `d` in 0..=100: scaled into the
/// game's 0..=4096 range with a floor, so even a light touch clears the game's
/// `> 40` ink gate.
pub open spec fn pen_pressure(d: int) -> int {
    let c = if d < 0 { 0 } else if d > 100 { 100 } else { d };
    if c * 40 + 80 <= 4096 { c * 40 + 80 } else { 4096 }
}

/// The pen sample an event produces, if any.
pub open spec fn sample_of(ev: InputEvent) -> Option<PenSample> {
    if ev.input_type == INPUT_PEN_PRESS || ev.input_type == INPUT_PEN_UPDATE {
        Some(PenSample { x: ev.x, y: ev.y, pressure: pen_pressure(ev.d as int) as i32, tool: Tool::Pen, touching: true })
    } else if ev.input_type == INPUT_PEN_RELEASE {
        Some(PenSample { x: ev.x, y: ev.y, pressure: 0, tool: Tool::Pen, touching: false })
    } else {
        None
    }
}

/// The touch state after one event.
pub open spec fn touch_step(st: TouchState, ev: InputEvent) -> TouchState {
    if ev.input_type == INPUT_TOUCH_PRESS {
        (Some((ev.dev_id, ev.x, ev.y)), false)
    } else if ev.input_type == INPUT_TOUCH_UPDATE {
        match st.0 {
            Some((id, sx, sy)) => if ev.dev_id == id && ((ev.x - sx > TAP_MAX || sx - ev.x > TAP_MAX) || (ev.y - sy
                > TAP_MAX || sy - ev.y > TAP_MAX)) {
                (st.0, true)
            } else {
                st
            },
            None => st,
        }
    } else if ev.input_type == INPUT_TOUCH_RELEASE {
        (None, false)
    } else {
        st
    }
}

/// The tap an event completes, if any: a release of the tracked finger that never moved past `TAP_MAX`.
pub open spec fn tap_of(st: TouchState, ev: InputEvent) -> Option<(i32, i32)> {
    if ev.input_type == INPUT_TOUCH_RELEASE {
        match st.0 {
            Some((id, _, _)) => if ev.dev_id == id && !st.1 { Some((ev.x, ev.y)) } else { None },
            None => None,
        }
    } else {
        None
    }
}

/// The touch state after the first `n` events.
pub open spec fn state_after(st: TouchState, evs: Seq<InputEvent>, n: int) -> TouchState
    decreases n,
{
    if n <= 0 {
        st
    } else {
        touch_step(state_after(st, evs, n - 1), evs[n - 1])
    }
}

/// The pen samples of the first `n` events, in order.
pub open spec fn samples_upto(evs: Seq<InputEvent>, n: int) -> Seq<PenSample>
    decreases n,
{
    if n <= 0 {
        Seq::empty()
    } else {
        match sample_of(evs[n - 1]) {
            Some(s) => samples_upto(evs, n - 1).push(s),
            None => samples_upto(evs, n - 1),
        }
    }
}

/// The last tap completed among the first `n` events.
pub open spec fn tap_upto(st: TouchState, evs: Seq<InputEvent>, n: int) -> Option<(i32, i32)>
    decreases n,
{
    if n <= 0 {
        None
    } else {
        match tap_of(state_after(st, evs, n - 1), evs[n - 1]) {
            Some(t) => Some(t),
            None => tap_upto(st, evs, n - 1),
        }
    }
}

pub struct WinInput {
    /// The single-finger contact being tracked for a tap: (dev_id, start_x, start_y).
    touch: Option<(i32, i32, i32)>,
    /// Set once the tracked finger travels past TAP_MAX; then the lift isn't a tap.
    moved: bool,
}

impl View for WinInput {
    type V = TouchState;

    closed spec fn view(&self) -> TouchState {
        (self.touch, self.moved)
    }
}

impl WinInput {
    pub fn new() -> (w: Self)
        ensures
            w@ == (None::<(i32, i32, i32)>, false),
    {
        WinInput { touch: None, moved: false }
    }

    /// Translate a batch of events into pen samples (for ink) and an optional
    /// tap `(x, y)` in screen pixels (for the on-screen controls): the last tap
    /// completed in the batch.
    pub fn translate(&mut self, events: &[InputEvent]) -> (r: (Vec<PenSample>, Option<(i32, i32)>))
        ensures
            final(self)@ == state_after(old(self)@, events@, events@.len() as int),
            r.0@ == samples_upto(events@, events@.len() as int),
            r.1 == tap_upto(old(self)@, events@, events@.len() as int),
    {
        let ghost st0 = self@;
        let mut samples: Vec<PenSample> = Vec::new();
        let mut tap: Option<(i32, i32)> = None;
        let mut i: usize = 0;
        while i < events.len()
            invariant
                i <= events@.len(),
                self@ == state_after(st0, events@, i as int),
                samples@ == samples_upto(events@, i as int),
                tap == tap_upto(st0, events@, i as int),
            decreases events@.len() - i,
        {
            let ev = events[i];
            let t = ev.input_type;
            if t == INPUT_PEN_PRESS || t == INPUT_PEN_UPDATE {
                // A pen event always means real contact; map the coarse
                // 0..=100 pressure into the game's range, with a floor.
                let d = if ev.d < 0 { 0 } else if ev.d > 100 { 100 } else { ev.d };
                let p = if d * 40 + 80 <= 4096 { d * 40 + 80 } else { 4096 };
                samples.push(PenSample { x: ev.x, y: ev.y, pressure: p, tool: Tool::Pen, touching: true });
            } else if t == INPUT_PEN_RELEASE {
                samples.push(PenSample { x: ev.x, y: ev.y, pressure: 0, tool: Tool::Pen, touching: false });
            } else if t == INPUT_TOUCH_PRESS {
                self.touch = Some((ev.dev_id, ev.x, ev.y));
                self.moved = false;
            } else if t == INPUT_TOUCH_UPDATE {
                if let Some((id, sx, sy)) = self.touch {
                    let ddx = ev.x as i64 - sx as i64;
                    let ddy = ev.y as i64 - sy as i64;
                    if ev.dev_id == id && ((ddx > TAP_MAX as i64 || -ddx > TAP_MAX as i64) || (ddy > TAP_MAX as i64
                        || -ddy > TAP_MAX as i64)) {
                        self.moved = true;
                    }
                }
            } else if t == INPUT_TOUCH_RELEASE {
                if let Some((id, _, _)) = self.touch {
                    if ev.dev_id == id && !self.moved {
                        tap = Some((ev.x, ev.y));
                    }
                }
                self.touch = None;
                self.moved = false;
            }
            i += 1;
        }
        (samples, tap)
    }
}

} // verus!

verus! {

proof fn lemma_prefix_agrees(st: TouchState, a: Seq<InputEvent>, b: Seq<InputEvent>, n: int)
    requires
        0 <= n <= a.len(),
    ensures
        state_after(st, a + b, n) == state_after(st, a, n),
        samples_upto(a + b, n) == samples_upto(a, n),
        tap_upto(st, a + b, n) == tap_upto(st, a, n),
    decreases n,
{
    if n > 0 {
        lemma_prefix_agrees(st, a, b, n - 1);
        assert((a + b)[n - 1] == a[n - 1]);
    }
}

proof fn lemma_suffix_runs(st: TouchState, a: Seq<InputEvent>, b: Seq<InputEvent>, m: int)
    requires
        0 <= m <= b.len(),
    ensures
        state_after(st, a + b, a.len() + m) == state_after(state_after(st, a, a.len() as int), b, m),
        samples_upto(a + b, a.len() + m) == samples_upto(a, a.len() as int) + samples_upto(b, m),
        tap_upto(st, a + b, a.len() + m) == match tap_upto(state_after(st, a, a.len() as int), b, m) {
            Some(t) => Some(t),
            None => tap_upto(st, a, a.len() as int),
        },
    decreases m,
{
    if m == 0 {
        lemma_prefix_agrees(st, a, b, a.len() as int);
        assert(samples_upto(a, a.len() as int) + samples_upto(b, 0) =~= samples_upto(a, a.len() as int));
    } else {
        lemma_suffix_runs(st, a, b, m - 1);
        assert((a + b)[a.len() + m - 1] == b[m - 1]);
        let sa = samples_upto(a, a.len() as int);
        let sb = samples_upto(b, m - 1);
        match sample_of(b[m - 1]) {
            Some(s) => {
                assert((sa + sb).push(s) =~= sa + sb.push(s));
            },
            None => {},
        }
    }
}

/// Splitting a batch changes nothing: translating `a` and then `b` leaves the
/// same touch state and yields the same pen samples, in order, as translating
/// `a + b` at once; the reported tap is the last one, so `b`'s when it has one.
pub proof fn lemma_batches_compose(st: TouchState, a: Seq<InputEvent>, b: Seq<InputEvent>)
    ensures
        state_after(st, a + b, (a + b).len() as int) == state_after(state_after(st, a, a.len() as int), b, b.len() as int),
        samples_upto(a + b, (a + b).len() as int) == samples_upto(a, a.len() as int) + samples_upto(b, b.len() as int),
        tap_upto(st, a + b, (a + b).len() as int) == match tap_upto(state_after(st, a, a.len() as int), b, b.len() as int) {
            Some(t) => Some(t),
            None => tap_upto(st, a, a.len() as int),
        },
{
    lemma_suffix_runs(st, a, b, b.len() as int);
}

/// A finger pressed and lifted with no movement report in between is a tap at
/// the lift point, whatever was tracked before; the contact is then forgotten.
pub proof fn lemma_press_release_taps(st: TouchState, dev: i32, x: i32, y: i32, x2: i32, y2: i32, d1: i32, d2: i32)
    ensures
        ({
            let evs = seq![
                InputEvent { input_type: INPUT_TOUCH_PRESS, dev_id: dev, x: x, y: y, d: d1 },
                InputEvent { input_type: INPUT_TOUCH_RELEASE, dev_id: dev, x: x2, y: y2, d: d2 },
            ];
            &&& tap_upto(st, evs, 2) == Some((x2, y2))
            &&& state_after(st, evs, 2) == (None::<(i32, i32, i32)>, false)
        }),
{
    let evs = seq![
        InputEvent { input_type: INPUT_TOUCH_PRESS, dev_id: dev, x: x, y: y, d: d1 },
        InputEvent { input_type: INPUT_TOUCH_RELEASE, dev_id: dev, x: x2, y: y2, d: d2 },
    ];
    assert(state_after(st, evs, 1) == (Some((dev, x, y)), false));
}

/// A finger that travels more than `TAP_MAX` from where it went down is a drag:
/// its lift is not a tap.
pub proof fn lemma_drag_is_not_tap(st: TouchState, dev: i32, x: i32, y: i32, mx: i32, my: i32, x2: i32, y2: i32)
    requires
        mx - x > TAP_MAX || x - mx > TAP_MAX || my - y > TAP_MAX || y - my > TAP_MAX,
    ensures
        ({
            let evs = seq![
                InputEvent { input_type: INPUT_TOUCH_PRESS, dev_id: dev, x: x, y: y, d: 0 },
                InputEvent { input_type: INPUT_TOUCH_UPDATE, dev_id: dev, x: mx, y: my, d: 0 },
                InputEvent { input_type: INPUT_TOUCH_RELEASE, dev_id: dev, x: x2, y: y2, d: 0 },
            ];
            tap_upto(st, evs, 3) == None::<(i32, i32)>
        }),
{
    let evs = seq![
        InputEvent { input_type: INPUT_TOUCH_PRESS, dev_id: dev, x: x, y: y, d: 0 },
        InputEvent { input_type: INPUT_TOUCH_UPDATE, dev_id: dev, x: mx, y: my, d: 0 },
        InputEvent { input_type: INPUT_TOUCH_RELEASE, dev_id: dev, x: x2, y: y2, d: 0 },
    ];
    assert(state_after(st, evs, 1) == (Some((dev, x, y)), false));
    assert(state_after(st, evs, 2) == (Some((dev, x, y)), true));
    assert(state_after(st, evs, 0) == st);
    assert(tap_of(st, evs[0]) == None::<(i32, i32)>);
    assert(tap_upto(st, evs, 0) == None::<(i32, i32)>);
    assert(tap_upto(st, evs, 1) == None::<(i32, i32)>);
    assert(tap_upto(st, evs, 2) == None::<(i32, i32)>);
}

/// Every pen press or move draws: its sample is touching, with the pen tool and
/// a pressure above the game's `> 40` ink gate and within 0..=4096; a pen
/// release lifts with pressure 0.
pub proof fn lemma_pen_samples_draw(ev: InputEvent)
    ensures
        (ev.input_type == INPUT_PEN_PRESS || ev.input_type == INPUT_PEN_UPDATE) ==> ({
            let s = sample_of(ev).unwrap();
            &&& sample_of(ev) is Some
            &&& s.touching
            &&& s.tool == Tool::Pen
            &&& 40 < s.pressure <= 4096
            &&& s.x == ev.x && s.y == ev.y
        }),
        ev.input_type == INPUT_PEN_RELEASE ==> sample_of(ev) == Some(
            PenSample { x: ev.x, y: ev.y, pressure: 0, tool: Tool::Pen, touching: false },
        ),
{
}

} // verus!

verus! {

/// The state before any event: no contact tracked.
pub open spec fn no_touch() -> TouchState {
    (None::<(i32, i32, i32)>, false)
}

/// Event `e` lies more than `TAP_MAX` from where the press `p` went down.
pub open spec fn far_from(e: InputEvent, p: InputEvent) -> bool {
    (e.x - p.x > TAP_MAX || p.x - e.x > TAP_MAX) || (e.y - p.y > TAP_MAX || p.y - e.y > TAP_MAX)
}

/// Event `p` of history `h` is the latest touch press before position `n`,
/// with no touch release after it.
pub open spec fn tracked_from(h: Seq<InputEvent>, p: int, n: int) -> bool {
    &&& 0 <= p < n <= h.len()
    &&& h[p].input_type == INPUT_TOUCH_PRESS
    &&& forall|q: int| p < q < n ==> #[trigger] h[q].input_type != INPUT_TOUCH_PRESS && h[q].input_type
        != INPUT_TOUCH_RELEASE
}

/// Some move of the finger pressed at `p` travelled past `TAP_MAX` before position `n`.
pub open spec fn moved_since(h: Seq<InputEvent>, p: int, n: int) -> bool {
    exists|u: int| p < u < n && #[trigger] h[u].input_type == INPUT_TOUCH_UPDATE && h[u].dev_id == h[p].dev_id
        && far_from(h[u], h[p])
}

/// Event `j` of history `h` is a tap: a touch release whose latest preceding
/// press (with no release between) is of the same finger, and no move of
/// that finger between them travelled past `TAP_MAX`.
pub open spec fn is_tap_at(h: Seq<InputEvent>, j: int) -> bool {
    &&& 0 <= j < h.len()
    &&& h[j].input_type == INPUT_TOUCH_RELEASE
    &&& exists|p: int| #[trigger] tracked_from(h, p, j) && h[p].dev_id == h[j].dev_id && !moved_since(h, p, j)
}

proof fn lemma_state_from_history(h: Seq<InputEvent>, n: int)
    requires
        0 <= n <= h.len(),
    ensures
        (forall|p: int| !#[trigger] tracked_from(h, p, n)) ==> state_after(no_touch(), h, n) == no_touch(),
        forall|p: int| #[trigger] tracked_from(h, p, n) ==> state_after(no_touch(), h, n) == (Some((h[p].dev_id, h[p].x, h[p].y)),
            moved_since(h, p, n)),
    decreases n,
{
    if n > 0 {
        lemma_state_from_history(h, n - 1);
        let e = h[n - 1];
        let st = state_after(no_touch(), h, n - 1);
        if e.input_type == INPUT_TOUCH_PRESS {
            assert(tracked_from(h, n - 1, n));
            assert(!moved_since(h, n - 1, n));
            assert forall|p: int| #[trigger] tracked_from(h, p, n) implies p == n - 1 by {
                if p < n - 1 {
                    assert(h[n - 1].input_type != INPUT_TOUCH_PRESS);
                }
            }
        } else if e.input_type == INPUT_TOUCH_RELEASE {
            assert forall|p: int| !#[trigger] tracked_from(h, p, n) by {
                if tracked_from(h, p, n) && p < n - 1 {
                    assert(h[n - 1].input_type != INPUT_TOUCH_RELEASE);
                }
            }
        } else {
            assert forall|p: int| #[trigger] tracked_from(h, p, n) <==> tracked_from(h, p, n - 1) by {
                if tracked_from(h, p, n - 1) {
                    assert forall|q: int| p < q < n implies #[trigger] h[q].input_type != INPUT_TOUCH_PRESS
                        && h[q].input_type != INPUT_TOUCH_RELEASE by {
                        if q < n - 1 {
                            assert(p < q < n - 1);
                        }
                    }
                }
                if tracked_from(h, p, n) {
                    assert(p != n - 1);
                    assert forall|q: int| p < q < n - 1 implies #[trigger] h[q].input_type != INPUT_TOUCH_PRESS
                        && h[q].input_type != INPUT_TOUCH_RELEASE by {
                        assert(p < q < n);
                    }
                }
            }
            if forall|p: int| !#[trigger] tracked_from(h, p, n) {
                assert forall|p: int| !#[trigger] tracked_from(h, p, n - 1) by {
                    assert(!tracked_from(h, p, n));
                }
            }
            assert forall|p: int| #[trigger] tracked_from(h, p, n) implies state_after(no_touch(), h, n) == (
            Some((h[p].dev_id, h[p].x, h[p].y)), moved_since(h, p, n)) by {
                assert(tracked_from(h, p, n - 1));
                if moved_since(h, p, n - 1) {
                    let u = choose|u: int| p < u < n - 1 && #[trigger] h[u].input_type == INPUT_TOUCH_UPDATE
                        && h[u].dev_id == h[p].dev_id && far_from(h[u], h[p]);
                    assert(p < u < n);
                }
                if moved_since(h, p, n) && !moved_since(h, p, n - 1) {
                    let u = choose|u: int| p < u < n && #[trigger] h[u].input_type == INPUT_TOUCH_UPDATE
                        && h[u].dev_id == h[p].dev_id && far_from(h[u], h[p]);
                    if u < n - 1 {
                        assert(p < u < n - 1);
                    }
                    assert(u == n - 1);
                }
                if e.input_type == INPUT_TOUCH_UPDATE && e.dev_id == h[p].dev_id && far_from(e, h[p]) {
                    assert(p < n - 1 < n && h[n - 1].input_type == INPUT_TOUCH_UPDATE);
                }
            }
        }
    }
}

proof fn lemma_tap_from_history(h: Seq<InputEvent>, j: int)
    requires
        0 <= j < h.len(),
    ensures
        tap_of(state_after(no_touch(), h, j), h[j]) == if is_tap_at(h, j) {
            Some((h[j].x, h[j].y))
        } else {
            None::<(i32, i32)>
        },
{
    lemma_state_from_history(h, j);
    if h[j].input_type == INPUT_TOUCH_RELEASE {
        if exists|p: int| tracked_from(h, p, j) {
            let p = choose|p: int| tracked_from(h, p, j);
            assert forall|q: int| #[trigger] tracked_from(h, q, j) implies q == p by {
                if q < p {
                    assert(q < p < j);
                } else if p < q {
                    assert(p < q < j);
                }
            }
        }
    }
}

proof fn lemma_last_tap(e: Seq<InputEvent>, b: Seq<InputEvent>, m: int)
    requires
        0 <= m <= b.len(),
    ensures
        match tap_upto(state_after(no_touch(), e, e.len() as int), b, m) {
            Some(t) => exists|j: int|
                e.len() <= j < e.len() + m && #[trigger] is_tap_at(e + b, j) && t == ((e + b)[j].x, (e + b)[j].y) && forall|
                    k: int,
                | j < k < e.len() + m ==> !#[trigger] is_tap_at(e + b, k),
            None => forall|j: int| e.len() <= j < e.len() + m ==> !#[trigger] is_tap_at(e + b, j),
        },
    decreases m,
{
    let h = e + b;
    let s0 = state_after(no_touch(), e, e.len() as int);
    if m > 0 {
        lemma_last_tap(e, b, m - 1);
        lemma_suffix_runs(no_touch(), e, b, m - 1);
        let j = e.len() + m - 1;
        assert(h[j] == b[m - 1]);
        lemma_tap_from_history(h, j);
        match tap_upto(s0, b, m - 1) {
            Some(t) => {
                let j0 = choose|j0: int|
                    e.len() <= j0 < e.len() + m - 1 && #[trigger] is_tap_at(h, j0) && t == (h[j0].x, h[j0].y) && forall|
                        k: int,
                    | j0 < k < e.len() + m - 1 ==> !#[trigger] is_tap_at(h, k);
                if !is_tap_at(h, j) {
                    assert forall|k: int| j0 < k < e.len() + m implies !#[trigger] is_tap_at(h, k) by {
                        if k < j {
                            assert(j0 < k < e.len() + m - 1);
                        }
                    }
                }
            },
            None => {},
        }
    }
}

/// The tap reported over a whole history of events: after `translate` has
/// been fed the events `e` (in any number of calls, starting from `new`),
/// the tap a call on the batch `b` reports is the position of the last event
/// of `b` that is a tap of the history `e + b` (a release of the finger last
/// pressed, with no release between and no move of that finger past
/// `TAP_MAX`), and nothing when no event of `b` is one.
pub proof fn lemma_tap_over_history(e: Seq<InputEvent>, b: Seq<InputEvent>)
    ensures
        match tap_upto(state_after(no_touch(), e, e.len() as int), b, b.len() as int) {
            Some(t) => exists|j: int|
                e.len() <= j < (e + b).len() && #[trigger] is_tap_at(e + b, j) && t == ((e + b)[j].x, (e + b)[j].y)
                    && forall|k: int| j < k < (e + b).len() ==> !#[trigger] is_tap_at(e + b, k),
            None => forall|j: int| e.len() <= j < (e + b).len() ==> !#[trigger] is_tap_at(e + b, j),
        },
{
    lemma_last_tap(e, b, b.len() as int);
}

} // verus!
