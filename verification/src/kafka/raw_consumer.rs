//! Where a reader is put, in the numbers of the client library.

use vstd::prelude::*;

verus! {

/// Reads a partition from its beginning.
pub const OFFSET_BEGINNING: i64 = -2;

/// Below this number an offset counts from the end.
pub const OFFSET_TAIL_BASE: i64 = -2000;

/// The name of a header that is no text.
pub const INVALID_HEADER_NAME: &'static str = "<invalid utf-8>";

/// The offset that stands for the last `count` messages.
pub fn offset_tail(count: i64) -> (r: i64)
    requires
        i64::MIN <= OFFSET_TAIL_BASE - count <= i64::MAX,
    ensures
        r == OFFSET_TAIL_BASE - count,
{
    OFFSET_TAIL_BASE - count
}

/// The time of a message. Where neither the sender nor the broker set it, the
/// library gives a negative number.
pub fn message_time(millis: i64) -> (r: i64)
    ensures
        r == (if millis < 0 {
            0
        } else {
            millis as int
        }),
{
    if millis < 0 {
        0
    } else {
        millis
    }
}

} // verus!
