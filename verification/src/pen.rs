//! Pen input: samples in screen coordinates with pressure and tool, and the
//! decoder that turns the digitizer's raw evdev frames into such samples.

use vstd::prelude::*;
use crate::evdev::{RawEvent, EV_ABS, EV_KEY, EV_SYN, SYN_DROPPED, SYN_REPORT};
use crate::render::{H, W};
use crate::surface::trunc_div;

verus! {

/// The full-scale digitizer pressure.
pub const MAX_PRESSURE: i32 = 4096;

#[derive(Debug, Clone, Copy, PartialEq, Eq, Structural)]
pub enum Tool {
    Pen,
    Eraser,
}

#[derive(Debug, Clone, Copy)]
pub struct PenSample {
    /// Screen coordinates.
    pub x: i32,
    pub y: i32,
    /// 0..=4096
    pub pressure: i32,
    pub tool: Tool,
    pub touching: bool,
}

} // verus!

verus! {

/// Digitizer axis maxima on the Paper Pro, used when the device does not report its own.
pub const DIGI_MAX_X: i32 = 11180;
pub const DIGI_MAX_Y: i32 = 15340;

pub const ABS_X: u16 = 0;
pub const ABS_Y: u16 = 1;
pub const ABS_PRESSURE: u16 = 24;
pub const BTN_TOOL_PEN: u16 = 320;
pub const BTN_TOOL_RUBBER: u16 = 321;
pub const BTN_TOUCH: u16 = 330;

/// The decoder's state: the axis maxima and the values accumulated since the
/// last frame, with `dirty` set when a frame reported position, pressure,
/// contact or tool.
#[derive(Debug, Clone, Copy)]
pub struct PenState {
    pub x_max: i32,
    pub y_max: i32,
    pub raw_x: i32,
    pub raw_y: i32,
    pub pressure: i32,
    pub tool: Tool,
    pub touching: bool,
    pub dirty: bool,
}

/// A raw digitizer coordinate on an axis ending at `max`, scaled onto a screen
/// axis of `span` pixels and clamped onto it. The product is exact for every
/// raw value (it is computed in 64 bits).
pub open spec fn pen_coord(raw: i32, max: i32, span: int) -> i32 {
    let q = trunc_div(raw * (span - 1), if max >= 1 {
        max as int
    } else {
        1
    });
    (if q < 0 {
        0
    } else if q > span - 1 {
        span - 1
    } else {
        q
    }) as i32
}

/// The sample a frame reports.
pub open spec fn frame_sample(m: PenState) -> PenSample {
    PenSample {
        x: pen_coord(m.raw_x, m.x_max, W as int),
        y: pen_coord(m.raw_y, m.y_max, H as int),
        pressure: m.pressure,
        tool: m.tool,
        touching: m.touching,
    }
}

/// The state after one event. Position, pressure, contact and tool reports
/// mark the frame changed (a pen-tool key marks it only when pressed). A
/// dropped-events marker forgets the contact (a lift may have been lost), so
/// no phantom stroke follows.
pub open spec fn pen_step(m: PenState, e: RawEvent) -> PenState {
    if e.etype == EV_ABS && e.code == ABS_X {
        PenState { raw_x: e.value, dirty: true, ..m }
    } else if e.etype == EV_ABS && e.code == ABS_Y {
        PenState { raw_y: e.value, dirty: true, ..m }
    } else if e.etype == EV_ABS && e.code == ABS_PRESSURE {
        PenState { pressure: e.value, dirty: true, ..m }
    } else if e.etype == EV_KEY && e.code == BTN_TOOL_PEN {
        if e.value == 1 {
            PenState { tool: Tool::Pen, dirty: true, ..m }
        } else {
            m
        }
    } else if e.etype == EV_KEY && e.code == BTN_TOOL_RUBBER {
        PenState { tool: if e.value == 1 { Tool::Eraser } else { Tool::Pen }, dirty: true, ..m }
    } else if e.etype == EV_KEY && e.code == BTN_TOUCH {
        PenState { touching: e.value == 1, dirty: true, ..m }
    } else if e.etype == EV_SYN && e.code == SYN_DROPPED {
        PenState { touching: false, dirty: false, pressure: 0, ..m }
    } else if e.etype == EV_SYN && e.code == SYN_REPORT {
        PenState { dirty: false, ..m }
    } else {
        m
    }
}

/// The sample one event emits: a frame end after a change.
pub open spec fn pen_emit(m: PenState, e: RawEvent) -> Option<PenSample> {
    if e.etype == EV_SYN && e.code == SYN_REPORT && m.dirty {
        Some(frame_sample(m))
    } else {
        None
    }
}

/// The state after the first `n` events.
pub open spec fn pen_after(m: PenState, evs: Seq<RawEvent>, n: int) -> PenState
    decreases n,
{
    if n <= 0 {
        m
    } else {
        pen_step(pen_after(m, evs, n - 1), evs[n - 1])
    }
}

/// The samples emitted by the first `n` events, in order.
pub open spec fn pen_samples(m: PenState, evs: Seq<RawEvent>, n: int) -> Seq<PenSample>
    decreases n,
{
    if n <= 0 {
        Seq::empty()
    } else {
        match pen_emit(pen_after(m, evs, n - 1), evs[n - 1]) {
            Some(s) => pen_samples(m, evs, n - 1).push(s),
            None => pen_samples(m, evs, n - 1),
        }
    }
}

/// The pen digitizer's frame decoder.
pub struct PenDecoder {
    st: PenState,
}

impl View for PenDecoder {
    type V = PenState;

    closed spec fn view(&self) -> PenState {
        self.st
    }
}

fn scale_coord(raw: i32, max: i32, span: i32) -> (r: i32)
    requires
        0 < span <= 0x10000,
    ensures
        r == pen_coord(raw, max, span as int),
{
    let m: i64 = if max >= 1 {
        max as i64
    } else {
        1
    };
    assert(-0x8000_0000 * 0x10000 <= raw * (span - 1) <= 0x8000_0000 * 0x10000) by (nonlinear_arith)
        requires
            -0x8000_0000 <= raw < 0x8000_0000,
            0 < span <= 0x10000,
    ;
    let q = (raw as i64 * (span as i64 - 1)) / m;
    assert(q == trunc_div(raw * (span - 1), m as int));
    if q < 0 {
        0
    } else if q > span as i64 - 1 {
        span - 1
    } else {
        q as i32
    }
}

impl PenDecoder {
    /// A decoder for a digitizer whose axes end at `x_max` and `y_max`:
    /// pen tool, not touching, nothing pending.
    pub fn new(x_max: i32, y_max: i32) -> (d: Self)
        ensures
            d@ == (PenState {
                x_max,
                y_max,
                raw_x: 0,
                raw_y: 0,
                pressure: 0,
                tool: Tool::Pen,
                touching: false,
                dirty: false,
            }),
    {
        PenDecoder {
            st: PenState {
                x_max,
                y_max,
                raw_x: 0,
                raw_y: 0,
                pressure: 0,
                tool: Tool::Pen,
                touching: false,
                dirty: false,
            },
        }
    }

    fn step(&mut self, e: RawEvent) -> (s: Option<PenSample>)
        ensures
            final(self)@ == pen_step(old(self)@, e),
            s == pen_emit(old(self)@, e),
    {
        let mut st = self.st;
        let mut out: Option<PenSample> = None;
        if e.etype == EV_ABS && e.code == ABS_X {
            st.raw_x = e.value;
            st.dirty = true;
        } else if e.etype == EV_ABS && e.code == ABS_Y {
            st.raw_y = e.value;
            st.dirty = true;
        } else if e.etype == EV_ABS && e.code == ABS_PRESSURE {
            st.pressure = e.value;
            st.dirty = true;
        } else if e.etype == EV_KEY && e.code == BTN_TOOL_PEN {
            if e.value == 1 {
                st.tool = Tool::Pen;
                st.dirty = true;
            }
        } else if e.etype == EV_KEY && e.code == BTN_TOOL_RUBBER {
            st.tool = if e.value == 1 {
                Tool::Eraser
            } else {
                Tool::Pen
            };
            st.dirty = true;
        } else if e.etype == EV_KEY && e.code == BTN_TOUCH {
            st.touching = e.value == 1;
            st.dirty = true;
        } else if e.etype == EV_SYN && e.code == SYN_DROPPED {
            st.touching = false;
            st.dirty = false;
            st.pressure = 0;
        } else if e.etype == EV_SYN && e.code == SYN_REPORT {
            if st.dirty {
                out = Some(PenSample {
                    x: scale_coord(st.raw_x, st.x_max, W),
                    y: scale_coord(st.raw_y, st.y_max, H),
                    pressure: st.pressure,
                    tool: st.tool,
                    touching: st.touching,
                });
            }
            st.dirty = false;
        }
        self.st = st;
        out
    }

    /// Decode a batch of events: one sample per frame (`SYN_REPORT`) that
    /// changed state (position, pressure, contact or tool), in order.
    pub fn feed(&mut self, events: &[RawEvent]) -> (samples: Vec<PenSample>)
        ensures
            final(self)@ == pen_after(old(self)@, events@, events@.len() as int),
            samples@ == pen_samples(old(self)@, events@, events@.len() as int),
    {
        let ghost start = self@;
        let mut samples: Vec<PenSample> = Vec::new();
        let mut i: usize = 0;
        while i < events.len()
            invariant
                i <= events@.len(),
                self@ == pen_after(start, events@, i as int),
                samples@ == pen_samples(start, events@, i as int),
            decreases events@.len() - i,
        {
            if let Some(s) = self.step(events[i]) {
                samples.push(s);
            }
            i += 1;
        }
        samples
    }
}

} // verus!

verus! {

proof fn lemma_pen_prefix(m: PenState, a: Seq<RawEvent>, b: Seq<RawEvent>, n: int)
    requires
        0 <= n <= a.len(),
    ensures
        pen_after(m, a + b, n) == pen_after(m, a, n),
        pen_samples(m, a + b, n) == pen_samples(m, a, n),
    decreases n,
{
    if n > 0 {
        lemma_pen_prefix(m, a, b, n - 1);
        assert((a + b)[n - 1] == a[n - 1]);
    }
}

proof fn lemma_pen_suffix(m: PenState, a: Seq<RawEvent>, b: Seq<RawEvent>, k: int)
    requires
        0 <= k <= b.len(),
    ensures
        pen_after(m, a + b, a.len() + k) == pen_after(pen_after(m, a, a.len() as int), b, k),
        pen_samples(m, a + b, a.len() + k) == pen_samples(m, a, a.len() as int) + pen_samples(
            pen_after(m, a, a.len() as int),
            b,
            k,
        ),
    decreases k,
{
    let ma = pen_after(m, a, a.len() as int);
    if k == 0 {
        lemma_pen_prefix(m, a, b, a.len() as int);
        assert(pen_samples(m, a, a.len() as int) + pen_samples(ma, b, 0) =~= pen_samples(m, a, a.len() as int));
    } else {
        lemma_pen_suffix(m, a, b, k - 1);
        assert((a + b)[a.len() + k - 1] == b[k - 1]);
        let sa = pen_samples(m, a, a.len() as int);
        let sb = pen_samples(ma, b, k - 1);
        match pen_emit(pen_after(ma, b, k - 1), b[k - 1]) {
            Some(s) => {
                assert((sa + sb).push(s) =~= sa + sb.push(s));
            },
            None => {},
        }
    }
}

/// Reading the device in pieces changes nothing: decoding `a` and then `b`
/// leaves the same state and yields the same samples, in order, as decoding
/// `a + b` at once.
pub proof fn lemma_pen_batches_compose(m: PenState, a: Seq<RawEvent>, b: Seq<RawEvent>)
    ensures
        pen_after(m, a + b, (a + b).len() as int) == pen_after(pen_after(m, a, a.len() as int), b, b.len() as int),
        pen_samples(m, a + b, (a + b).len() as int) == pen_samples(m, a, a.len() as int) + pen_samples(
            pen_after(m, a, a.len() as int),
            b,
            b.len() as int,
        ),
{
    lemma_pen_suffix(m, a, b, b.len() as int);
}

/// Every sample lies on the screen, whatever the digitizer reported.
pub proof fn lemma_pen_samples_on_screen(m: PenState, evs: Seq<RawEvent>, n: int)
    requires
        0 <= n <= evs.len(),
    ensures
        forall|i: int| 0 <= i < pen_samples(m, evs, n).len() ==> {
            let s = #[trigger] pen_samples(m, evs, n)[i];
            0 <= s.x < W && 0 <= s.y < H
        },
    decreases n,
{
    if n > 0 {
        lemma_pen_samples_on_screen(m, evs, n - 1);
        let prev = pen_samples(m, evs, n - 1);
        match pen_emit(pen_after(m, evs, n - 1), evs[n - 1]) {
            Some(s) => {
                assert forall|i: int| 0 <= i < prev.push(s).len() implies {
                    let t = #[trigger] prev.push(s)[i];
                    0 <= t.x < W && 0 <= t.y < H
                } by {
                    if i < prev.len() {
                        assert(prev.push(s)[i] == prev[i]);
                    }
                }
            },
            None => {},
        }
    }
}

/// A dropped-events marker ends any contact and discards the pending change,
/// so a frame end right after it reports nothing (no phantom stroke).
pub proof fn lemma_dropped_events_lift(m: PenState, v: i32, w: i32)
    ensures
        ({
            let after = pen_step(m, RawEvent { etype: EV_SYN, code: SYN_DROPPED, value: v });
            &&& !after.touching
            &&& after.pressure == 0
            &&& pen_emit(after, RawEvent { etype: EV_SYN, code: SYN_REPORT, value: w }) is None
        }),
{
}

} // verus!

verus! {

/// A frame that only changes the tool still reports a sample, carrying the
/// new tool: the eraser while its key is down, the pen otherwise.
pub proof fn lemma_tool_change_reports(m: PenState, v: i32, w: i32)
    ensures
        ({
            let after = pen_step(m, RawEvent { etype: EV_KEY, code: BTN_TOOL_RUBBER, value: v });
            let s = pen_emit(after, RawEvent { etype: EV_SYN, code: SYN_REPORT, value: w });
            &&& s is Some
            &&& s->0.tool == (if v == 1 { Tool::Eraser } else { Tool::Pen })
        }),
        pen_emit(
            pen_step(m, RawEvent { etype: EV_KEY, code: BTN_TOOL_PEN, value: 1 }),
            RawEvent { etype: EV_SYN, code: SYN_REPORT, value: w },
        ) matches Some(s) && s.tool == Tool::Pen,
{
}

} // verus!

verus! {

/// Event `e` reports a change of the pen: its position, its pressure, its
/// contact, or its tool (the eraser key either way, the pen key when pressed).
pub open spec fn reports_change(e: RawEvent) -> bool {
    ||| e.etype == EV_ABS && (e.code == ABS_X || e.code == ABS_Y || e.code == ABS_PRESSURE)
    ||| e.etype == EV_KEY && (e.code == BTN_TOUCH || e.code == BTN_TOOL_RUBBER || (e.code == BTN_TOOL_PEN && e.value == 1))
}

/// Event `e` reports the pen's pressure.
pub open spec fn reports_pressure(e: RawEvent) -> bool {
    e.etype == EV_ABS && e.code == ABS_PRESSURE
}

/// Event `e` ends a frame: a frame report, or the marker of dropped events.
pub open spec fn ends_frame(e: RawEvent) -> bool {
    e.etype == EV_SYN && (e.code == SYN_REPORT || e.code == SYN_DROPPED)
}

proof fn lemma_frame_body(m: PenState, f: Seq<RawEvent>, n: int)
    requires
        0 <= n <= f.len(),
        forall|k: int| 0 <= k < n ==> !#[trigger] ends_frame(f[k]),
    ensures
        pen_samples(m, f, n).len() == 0,
        pen_after(m, f, n).dirty == (m.dirty || exists|k: int| 0 <= k < n && #[trigger] reports_change(f[k])),
    decreases n,
{
    if n > 0 {
        lemma_frame_body(m, f, n - 1);
        assert(!ends_frame(f[n - 1]));
        if exists|k: int| 0 <= k < n && #[trigger] reports_change(f[k]) {
            if !reports_change(f[n - 1]) {
                let k = choose|k: int| 0 <= k < n && #[trigger] reports_change(f[k]);
                assert(0 <= k < n - 1);
            }
        } else {
            assert(!reports_change(f[n - 1]));
        }
    }
}

proof fn lemma_frame_pressure(m: PenState, f: Seq<RawEvent>, j: int, n: int)
    requires
        0 <= j < n <= f.len(),
        reports_pressure(f[j]),
        forall|k: int| j < k < n ==> !#[trigger] reports_pressure(f[k]) && !ends_frame(f[k]),
    ensures
        pen_after(m, f, n).pressure == f[j].value,
    decreases n,
{
    if n > j + 1 {
        lemma_frame_pressure(m, f, j, n - 1);
        assert(!reports_pressure(f[n - 1]) && !ends_frame(f[n - 1]));
    }
}

/// One sample per frame that changed the pen: a frame (events up to a frame
/// report, with no frame end among them) in which position, pressure,
/// contact or tool was reported emits exactly one sample; a frame with no
/// such report after a frame report emits none. The sample carries the
/// pressure last reported in the frame.
pub proof fn lemma_changed_frame_reports_once(m: PenState, body: Seq<RawEvent>, w: i32)
    requires
        forall|k: int| 0 <= k < body.len() ==> !#[trigger] ends_frame(body[k]),
    ensures
        ({
            let f = body.push(RawEvent { etype: EV_SYN, code: SYN_REPORT, value: w });
            let out = pen_samples(m, f, f.len() as int);
            &&& (exists|k: int| 0 <= k < body.len() && #[trigger] reports_change(body[k])) ==> out.len() == 1
            &&& (!m.dirty && forall|k: int| 0 <= k < body.len() ==> !#[trigger] reports_change(body[k])) ==> out.len() == 0
            &&& forall|j: int|
                0 <= j < body.len() && #[trigger] reports_pressure(body[j]) && (forall|k: int|
                    j < k < body.len() ==> !#[trigger] reports_pressure(body[k])) ==> out.len() == 1 && out[0].pressure
                    == body[j].value
        }),
{
    let f = body.push(RawEvent { etype: EV_SYN, code: SYN_REPORT, value: w });
    let n = body.len() as int;
    assert forall|k: int| 0 <= k < n implies #[trigger] f[k] == body[k] by {}
    lemma_frame_body(m, f, n);
    assert(f[n] == RawEvent { etype: EV_SYN, code: SYN_REPORT, value: w });
    if exists|k: int| 0 <= k < n && #[trigger] reports_change(body[k]) {
        let k = choose|k: int| 0 <= k < n && #[trigger] reports_change(body[k]);
        assert(reports_change(f[k]));
    }
    if !m.dirty && forall|k: int| 0 <= k < n ==> !#[trigger] reports_change(body[k]) {
        assert forall|k: int| 0 <= k < n implies !#[trigger] reports_change(f[k]) by {
            assert(f[k] == body[k]);
        }
    }
    assert forall|j: int|
        0 <= j < n && #[trigger] reports_pressure(body[j]) && (forall|k: int| j < k < n ==> !#[trigger] reports_pressure(body[k]))
        implies pen_samples(m, f, f.len() as int).len() == 1 && pen_samples(m, f, f.len() as int)[0].pressure == body[j].value by {
        assert(reports_change(f[j]));
        assert forall|k: int| j < k < n implies !#[trigger] reports_pressure(f[k]) && !ends_frame(f[k]) by {
            assert(f[k] == body[k]);
        }
        lemma_frame_pressure(m, f, j, n);
    }
}

} // verus!
