//! Kernel input-event records as read from an evdev device node.
//!
//! On a 64-bit kernel each record is 24 bytes: a `struct timeval` (16 bytes),
//! then the event type (`u16`), code (`u16`) and value (`i32`), little endian.

use vstd::prelude::*;

verus! {

/// Size of one `struct input_event` record on a 64-bit kernel.
pub const EVENT_SIZE: usize = 24;

pub const EV_SYN: u16 = 0;
pub const EV_KEY: u16 = 1;
pub const EV_ABS: u16 = 3;
pub const SYN_REPORT: u16 = 0;
/// The kernel dropped events on buffer overflow.
pub const SYN_DROPPED: u16 = 3;

/// The type, code and value of one input event (the timestamp is not used).
#[derive(Debug, Clone, Copy, PartialEq, Eq, Structural)]
pub struct RawEvent {
    pub etype: u16,
    pub code: u16,
    pub value: i32,
}

/// The little-endian `u16` at byte `i`.
pub open spec fn le16(b: Seq<u8>, i: int) -> int {
    b[i] + 256 * b[i + 1]
}

/// The little-endian `u32` at byte `i`.
pub open spec fn le32(b: Seq<u8>, i: int) -> int {
    le16(b, i) + 65536 * le16(b, i + 2)
}

/// A 32-bit pattern read as two's complement.
pub open spec fn signed32(u: int) -> int {
    if u >= 0x8000_0000 {
        u - 0x1_0000_0000
    } else {
        u
    }
}

/// The `k`-th record of `b`.
pub open spec fn event_at(b: Seq<u8>, k: int) -> RawEvent {
    let o = EVENT_SIZE * k;
    RawEvent {
        etype: le16(b, o + 16) as u16,
        code: le16(b, o + 18) as u16,
        value: signed32(le32(b, o + 20)) as i32,
    }
}

/// The whole records of `b`, in order; a trailing partial record is ignored.
pub open spec fn events_of(b: Seq<u8>) -> Seq<RawEvent> {
    Seq::new(b.len() / (EVENT_SIZE as nat), |k: int| event_at(b, k))
}

fn read_u16(b: &[u8], i: usize) -> (r: u16)
    requires
        i + 1 < b.len(),
    ensures
        r == le16(b@, i as int),
{
    b[i] as u16 + 256 * (b[i + 1] as u16)
}

fn read_i32(b: &[u8], i: usize) -> (r: i32)
    requires
        i + 3 < b.len(),
    ensures
        r == signed32(le32(b@, i as int)),
{
    let lo = read_u16(b, i) as u32;
    let hi = read_u16(b, i + 2) as u32;
    let u: u32 = lo + 65536 * hi;
    if u >= 0x8000_0000 {
        (u as i64 - 0x1_0000_0000i64) as i32
    } else {
        u as i32
    }
}

/// Split a buffer read from an event device into its records.
pub fn decode(bytes: &[u8]) -> (evs: Vec<RawEvent>)
    ensures
        evs@ == events_of(bytes@),
{
    let mut evs: Vec<RawEvent> = Vec::new();
    let mut o: usize = 0;
    while o <= bytes.len() && bytes.len() - o >= EVENT_SIZE
        invariant
            o <= bytes@.len(),
            o == EVENT_SIZE * evs@.len(),
            forall|k: int| 0 <= k < evs@.len() ==> #[trigger] evs@[k] == event_at(bytes@, k),
        decreases bytes@.len() - o,
    {
        let ev = RawEvent {
            etype: read_u16(bytes, o + 16),
            code: read_u16(bytes, o + 18),
            value: read_i32(bytes, o + 20),
        };
        evs.push(ev);
        o = o + EVENT_SIZE;
    }
    let ghost n = evs@.len();
    assert(n == bytes@.len() / (EVENT_SIZE as nat)) by (nonlinear_arith)
        requires
            o == 24 * n,
            o <= bytes@.len(),
            bytes@.len() < o + 24,
    ;
    assert(evs@ =~= events_of(bytes@));
    evs
}

} // verus!

verus! {

/// The power key's code.
pub const KEY_POWER: u16 = 116;

/// True when some event of the batch presses key `code`.
pub fn key_pressed(events: &[RawEvent], code: u16) -> (r: bool)
    ensures
        r == exists|i: int| 0 <= i < events@.len() && #[trigger] events@[i].etype == EV_KEY && events@[i].code == code
            && events@[i].value == 1,
{
    let mut i: usize = 0;
    while i < events.len()
        invariant
            i <= events@.len(),
            forall|k: int| 0 <= k < i ==> !(#[trigger] events@[k].etype == EV_KEY && events@[k].code == code
                && events@[k].value == 1),
        decreases events@.len() - i,
    {
        let e = events[i];
        if e.etype == EV_KEY && e.code == code && e.value == 1 {
            assert(events@[i as int].etype == EV_KEY);
            return true;
        }
        i += 1;
    }
    false
}

} // verus!
