use vstd::prelude::*;

use crate::token::Token;

verus! {

/// There is data to read.
pub const POLLIN: u16 = 0x0001;
/// There is urgent (priority) data to read.
pub const POLLPRI: u16 = 0x0002;
/// Writing is possible now.
pub const POLLOUT: u16 = 0x0004;
/// An error condition is pending.
pub const POLLERR: u16 = 0x0008;
/// The peer hung up: both directions are closed.
pub const POLLHUP: u16 = 0x0010;
/// The file descriptor is not open.
pub const POLLNVAL: u16 = 0x0020;
/// Out-of-band data may be written.
pub const POLLWRBAND: u16 = 0x0200;
/// The peer closed its writing half (or shut down reading here).
pub const POLLRDHUP: u16 = 0x2000;

/// Whether the readiness mask `mask` holds any bit of `flag`.
pub open spec fn has_flag(mask: u16, flag: u16) -> bool {
    mask & flag != 0
}

/// A readiness event: the token of the source it concerns and the
/// readiness bits (in `poll(2)` encoding) that were reported for it.
#[derive(Clone, Copy, Debug, PartialEq, Eq, Structural)]
pub struct Event {
    pub token: Token,
    pub events: u16,
}

/// The events one selection produced, in the order they were produced.
pub type Events = Vec<Event>;

/// Whether an event reports readable readiness.
pub open spec fn readable_spec(e: Event) -> bool {
    has_flag(e.events, POLLIN) || has_flag(e.events, POLLPRI)
}

/// Whether an event reports that the reading side is closed.
pub open spec fn read_closed_spec(e: Event) -> bool {
    has_flag(e.events, POLLHUP) || has_flag(e.events, POLLRDHUP)
}

/// Whether an event reports that the writing side is closed: a hang-up,
/// an error on a writable pipe end, or an error alone (the reading end of a
/// pipe went away).
pub open spec fn write_closed_spec(e: Event) -> bool {
    ||| has_flag(e.events, POLLHUP)
    ||| (has_flag(e.events, POLLOUT) && has_flag(e.events, POLLERR))
    ||| e.events == POLLERR
}

/// The names of the readiness bits set in `mask`, in ascending bit order.
pub open spec fn flag_names(mask: u16) -> Seq<&'static str> {
    let s0 = Seq::<&'static str>::empty();
    let s1 = if has_flag(mask, POLLIN) { s0.push("POLLIN") } else { s0 };
    let s2 = if has_flag(mask, POLLPRI) { s1.push("POLLPRI") } else { s1 };
    let s3 = if has_flag(mask, POLLOUT) { s2.push("POLLOUT") } else { s2 };
    let s4 = if has_flag(mask, POLLERR) { s3.push("POLLERR") } else { s3 };
    let s5 = if has_flag(mask, POLLHUP) { s4.push("POLLHUP") } else { s4 };
    let s6 = if has_flag(mask, POLLNVAL) { s5.push("POLLNVAL") } else { s5 };
    let s7 = if has_flag(mask, POLLWRBAND) { s6.push("POLLWRBAND") } else { s6 };
    if has_flag(mask, POLLRDHUP) { s7.push("POLLRDHUP") } else { s7 }
}

/// What each readiness bit of an event means, bit by bit, whatever other
/// bits are set:
/// - `POLLIN` or `POLLPRI` make it readable, and only they do;
/// - `POLLHUP` (the peer hung up) makes both sides closed; `POLLRDHUP` makes
///   the reading side closed; nothing else closes the reading side;
/// - `POLLOUT` together with `POLLERR`, or `POLLERR` alone, makes the writing
///   side closed; the writing side is closed only with `POLLHUP` or `POLLERR`.
pub proof fn law_event_readiness(e: Event)
    ensures
        (e.events & POLLIN) != 0 ==> readable_spec(e),
        (e.events & POLLPRI) != 0 ==> readable_spec(e),
        readable_spec(e) ==> (e.events & POLLIN) != 0 || (e.events & POLLPRI) != 0,
        (e.events & POLLHUP) != 0 ==> read_closed_spec(e) && write_closed_spec(e),
        (e.events & POLLRDHUP) != 0 ==> read_closed_spec(e),
        read_closed_spec(e) ==> (e.events & POLLHUP) != 0 || (e.events & POLLRDHUP) != 0,
        (e.events & POLLOUT) != 0 && (e.events & POLLERR) != 0 ==> write_closed_spec(e),
        e.events == POLLERR ==> write_closed_spec(e),
        write_closed_spec(e) ==> (e.events & POLLHUP) != 0 || (e.events & POLLERR) != 0,
{
    let v = e.events;
    if v == POLLERR {
        assert(v & POLLERR != 0) by (bit_vector)
            requires
                v == 0x0008u16,
        ;
    }
}

/// The token of the source the event concerns.
pub fn token(event: &Event) -> (r: Token)
    ensures
        r == event.token,
{
    event.token
}

/// Whether the event reports readable readiness (normal or priority data).
pub fn is_readable(event: &Event) -> (r: bool)
    ensures
        r == readable_spec(*event),
{
    (event.events & POLLIN) != 0 || (event.events & POLLPRI) != 0
}

/// Whether the event reports writable readiness.
pub fn is_writable(event: &Event) -> (r: bool)
    ensures
        r == has_flag(event.events, POLLOUT),
{
    (event.events & POLLOUT) != 0
}

/// Whether the event reports an error condition.
pub fn is_error(event: &Event) -> (r: bool)
    ensures
        r == has_flag(event.events, POLLERR),
{
    (event.events & POLLERR) != 0
}

/// Whether the event reports that the reading side is closed.
pub fn is_read_closed(event: &Event) -> (r: bool)
    ensures
        r == read_closed_spec(*event),
{
    (event.events & POLLHUP) != 0 || (event.events & POLLRDHUP) != 0
}

/// Whether the event reports that the writing side is closed.
pub fn is_write_closed(event: &Event) -> (r: bool)
    ensures
        r == write_closed_spec(*event),
{
    (event.events & POLLHUP) != 0 || ((event.events & POLLOUT) != 0 && (event.events & POLLERR)
        != 0) || event.events == POLLERR
}

/// Whether the event reports priority readiness.
pub fn is_priority(event: &Event) -> (r: bool)
    ensures
        r == has_flag(event.events, POLLPRI),
{
    (event.events & POLLPRI) != 0
}

/// Asynchronous I/O completion is never reported by `poll(2)`.
pub fn is_aio(_event: &Event) -> (r: bool)
    ensures
        !r,
{
    false
}

/// List I/O completion is never reported by `poll(2)`.
pub fn is_lio(_event: &Event) -> (r: bool)
    ensures
        !r,
{
    false
}

/// The names of the readiness bits the event carries, for diagnostics.
pub fn debug_details(event: &Event) -> (r: Vec<&'static str>)
    ensures
        r@ == flag_names(event.events),
{
    let m = event.events;
    let mut names: Vec<&'static str> = Vec::new();
    if m & POLLIN != 0 {
        names.push("POLLIN");
    }
    if m & POLLPRI != 0 {
        names.push("POLLPRI");
    }
    if m & POLLOUT != 0 {
        names.push("POLLOUT");
    }
    if m & POLLERR != 0 {
        names.push("POLLERR");
    }
    if m & POLLHUP != 0 {
        names.push("POLLHUP");
    }
    if m & POLLNVAL != 0 {
        names.push("POLLNVAL");
    }
    if m & POLLWRBAND != 0 {
        names.push("POLLWRBAND");
    }
    if m & POLLRDHUP != 0 {
        names.push("POLLRDHUP");
    }
    names
}

} // verus!
