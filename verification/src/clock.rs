//! Points in time, and how they are written.

use crate::order;
use vstd::prelude::*;

verus! {

/// The first second of the calendar, 1 January of the year -262143.
pub const FIRST_SECOND: i64 = -8334601228800;

/// The last second of the calendar, 31 December of the year 262142.
pub const LAST_SECOND: i64 = 8210266876799;

/// The second number `secs` since 1970 (UTC) and `nanos` nanoseconds into it name a
/// point in time. A leap second is counted into the second before it, the last one
/// of a minute.
pub open spec fn valid_time(secs: int, nanos: int) -> bool {
    &&& FIRST_SECOND <= secs <= LAST_SECOND
    &&& 0 <= nanos < 2_000_000_000
    &&& nanos >= 1_000_000_000 ==> secs % 60 == 59
}

/// The year of this second has four digits: it is one of 0 to 9999.
pub open spec fn four_digit_year(secs: int) -> bool {
    -62167219200 <= secs <= 253402300799
}

/// `a` is an earlier point in time than `b`.
pub open spec fn earlier(a: (int, int), b: (int, int)) -> bool {
    a.0 < b.0 || (a.0 == b.0 && a.1 < b.1)
}

/// A point in time, in UTC.
#[derive(Debug, Clone, Copy, PartialEq, Eq, Structural)]
pub struct Timestamp {
    secs: i64,
    nanos: u32,
}

impl View for Timestamp {
    type V = (int, int);

    closed spec fn view(&self) -> (int, int) {
        (self.secs as int, self.nanos as int)
    }
}

impl Timestamp {
    #[verifier::type_invariant]
    closed spec fn in_calendar(&self) -> bool {
        valid_time(self.secs as int, self.nanos as int)
    }

    /// The point `nanos` nanoseconds into the second `secs` since 1970, where there
    /// is one.
    pub fn from_parts(secs: i64, nanos: u32) -> (r: Option<Timestamp>)
        ensures
            match r {
                Some(t) => valid_time(secs as int, nanos as int) && t@ == (
                    secs as int,
                    nanos as int,
                ),
                None => !valid_time(secs as int, nanos as int),
            },
    {
        if secs < FIRST_SECOND || LAST_SECOND < secs || nanos >= 2_000_000_000 {
            return None;
        }
        if nanos >= 1_000_000_000 {
            // Shifted by whole minutes, so that the remainder is one of a positive number.
            let shifted: i64 = secs + 8334601228800;
            assert(shifted % 60 == (secs as int) % 60);
            if shifted % 60 != 59 {
                return None;
            }
        }
        Some(Timestamp { secs, nanos })
    }

    /// The second since 1970.
    pub fn secs(&self) -> (r: i64)
        ensures
            r == self@.0,
    {
        self.secs
    }

    /// The nanoseconds into the second.
    pub fn nanos(&self) -> (r: u32)
        ensures
            r == self@.1,
    {
        self.nanos
    }

    /// Whether this point is earlier than `other`.
    pub fn is_before(&self, other: &Timestamp) -> (r: bool)
        ensures
            r == earlier(self@, other@),
    {
        self.secs < other.secs || (self.secs == other.secs && self.nanos < other.nanos)
    }

    /// The point in time `chrono::Utc::now` reads off the system clock. Nothing is
    /// claimed of it but that it is in the calendar. (`Utc::now` panics where the
    /// system clock stands before 1970.)
    #[verifier::external_body]
    pub(crate) fn now() -> (r: Timestamp) {
        let now = chrono::Utc::now();
        Timestamp { secs: now.timestamp(), nanos: now.timestamp_subsec_nanos() }
    }
}

/// What `chrono` writes for a point in time under the format `%Y%m%dT%H%M%S`.
pub uninterp spec fn compact(secs: int, nanos: int) -> Seq<char>;

/// What `chrono::DateTime::to_rfc3339` writes for a point in time in UTC.
pub uninterp spec fn rfc3339(secs: int, nanos: int) -> Seq<char>;

/// `t` as `chrono::DateTime::format` writes it under `%Y%m%dT%H%M%S`: the year, month,
/// day, hour, minute and second in zero-padded digits. Where the year has four
/// digits that is fifteen characters, and of two such texts, which are equally long,
/// the one that stands for the later time is never the smaller.
#[verifier::external_body]
fn format_compact(secs: i64, nanos: u32) -> (r: String)
    requires
        valid_time(secs as int, nanos as int),
    ensures
        r@ == compact(secs as int, nanos as int),
        four_digit_year(secs as int) ==> r@.len() == 15,
        forall|s: int, n: int|
            valid_time(s, n) && four_digit_year(s) && four_digit_year(secs as int) && earlier(
                (s, n),
                (secs as int, nanos as int),
            ) ==> !order::before(r@, #[trigger] compact(s, n)) && compact(s, n).len() == r@.len(),
{
    let t = chrono::DateTime::from_timestamp(secs, nanos).unwrap();
    t.format("%Y%m%dT%H%M%S").to_string()
}

/// `t` as `chrono::DateTime::to_rfc3339` writes it in UTC: date and time to the
/// nanosecond, with as many digits behind the second as it takes in groups of three,
/// and `+00:00`. Where the years have four digits, the text that stands for the
/// earlier time is the smaller one.
#[verifier::external_body]
fn format_rfc3339(secs: i64, nanos: u32) -> (r: String)
    requires
        valid_time(secs as int, nanos as int),
    ensures
        r@ == rfc3339(secs as int, nanos as int),
        forall|s: int, n: int|
            valid_time(s, n) && four_digit_year(s) && four_digit_year(secs as int) && earlier(
                (s, n),
                (secs as int, nanos as int),
            ) ==> order::before(#[trigger] rfc3339(s, n), r@),
{
    chrono::DateTime::from_timestamp(secs, nanos).unwrap().to_rfc3339()
}

/// What `chrono` displays for a point in time in UTC.
pub uninterp spec fn displayed(secs: int, nanos: int) -> Seq<char>;

/// The time as `chrono::DateTime` displays it in UTC. It depends on the point in time
/// alone; how it is laid out is not stated.
#[verifier::external_body]
fn format_display(secs: i64, nanos: u32) -> (r: String)
    requires
        valid_time(secs as int, nanos as int),
    ensures
        r@ == displayed(secs as int, nanos as int),
{
    chrono::DateTime::from_timestamp(secs, nanos).unwrap().to_string()
}

impl Timestamp {
    /// The time as it is shown to a reader.
    pub fn display_text(&self) -> (r: String)
        ensures
            r@ == displayed(self@.0, self@.1),
    {
        proof {
            use_type_invariant(self);
        }
        format_display(self.secs, self.nanos)
    }

    /// The time as the digits of its date, a `T`, and the digits of its time of day.
    pub fn compact_text(&self) -> (r: String)
        ensures
            r@ == compact(self@.0, self@.1),
            four_digit_year(self@.0) ==> r@.len() == 15,
            forall|s: int, n: int|
                valid_time(s, n) && four_digit_year(s) && four_digit_year(self@.0) && earlier(
                    (s, n),
                    self@,
                ) ==> !order::before(r@, #[trigger] compact(s, n)) && compact(s, n).len()
                    == r@.len(),
    {
        proof {
            use_type_invariant(self);
        }
        format_compact(self.secs, self.nanos)
    }

    /// The time in the form of RFC 3339.
    pub fn rfc3339_text(&self) -> (r: String)
        ensures
            r@ == rfc3339(self@.0, self@.1),
            valid_time(self@.0, self@.1),
            forall|s: int, n: int|
                valid_time(s, n) && four_digit_year(s) && four_digit_year(self@.0) && earlier(
                    (s, n),
                    self@,
                ) ==> order::before(#[trigger] rfc3339(s, n), r@),
    {
        proof {
            use_type_invariant(self);
        }
        format_rfc3339(self.secs, self.nanos)
    }
}

/// Time goes one way: of two points that differ, one is earlier, and only one; and what is
/// in an earlier second, or earlier in the same second, is earlier.
pub proof fn law_time_is_ordered(a: (int, int), b: (int, int))
    ensures
        a.0 < b.0 ==> earlier(a, b),
        a.0 == b.0 && a.1 < b.1 ==> earlier(a, b),
        !(earlier(a, b) && earlier(b, a)),
        a != b ==> earlier(a, b) || earlier(b, a),
{
}

} // verus!
