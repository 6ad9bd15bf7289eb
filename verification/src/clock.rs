//! Moments as text.

use vstd::prelude::*;

verus! {

/// A moment: the seconds since 1970 began, by UTC, and the nanoseconds of the
/// second.
#[derive(Debug, Clone, Copy)]
pub struct Moment {
    pub seconds: i64,
    pub nanos: u32,
}

impl Moment {
    /// A moment from 1970 to the year 9999.
    pub open spec fn valid(self) -> bool {
        0 <= self.seconds <= 253_402_300_799 && self.nanos < 1_000_000_000
    }

    pub open spec fn in_millis(self) -> int {
        self.seconds * 1000 + self.nanos as int / 1_000_000
    }

    /// Whether the moment lies between 1970 and the year 9999.
    pub fn is_valid(&self) -> (r: bool)
        ensures
            r == self.valid(),
    {
        0 <= self.seconds && self.seconds <= 253_402_300_799 && self.nanos < 1_000_000_000
    }

    /// The milliseconds since 1970 began.
    pub fn millis(&self) -> (r: i64)
        requires
            self.valid(),
        ensures
            r == self.in_millis(),
    {
        self.seconds * 1000 + (self.nanos / 1_000_000) as i64
    }

    /// The moment in the notation of RFC 3339.
    pub fn rfc3339(&self) -> (r: String)
        requires
            self.valid(),
        ensures
            r@ == rfc3339_text(self.seconds, self.nanos),
    {
        write_rfc3339(self.seconds, self.nanos)
    }
}

/// What `chrono` writes of a moment by UTC in the notation of RFC 3339.
pub uninterp spec fn rfc3339_text(seconds: i64, nanos: u32) -> Seq<char>;

/// `chrono::DateTime::to_rfc3339`, of the moment that
/// `chrono::DateTime::from_timestamp` makes of seconds and nanoseconds.
#[verifier::external_body]
fn write_rfc3339(seconds: i64, nanos: u32) -> (r: String)
    requires
        0 <= seconds <= 253_402_300_799,
        nanos < 1_000_000_000,
    ensures
        r@ == rfc3339_text(seconds, nanos),
{
    chrono::DateTime::from_timestamp(seconds, nanos).map_or(String::new(), |t| t.to_rfc3339())
}

/// The milliseconds of a moment: a second is a thousand of them, and what is left
/// of the last one is cut off.
pub proof fn law_milliseconds_of_a_moment(m: Moment, later: Moment)
    ensures
        m.in_millis() * 1_000_000 <= m.seconds * 1_000_000_000 + m.nanos,
        m.seconds * 1_000_000_000 + m.nanos < (m.in_millis() + 1) * 1_000_000,
        later.nanos == m.nanos ==> later.in_millis() - m.in_millis() == (later.seconds - m.seconds)
            * 1000,
{
}

} // verus!
