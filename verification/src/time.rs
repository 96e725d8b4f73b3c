//! Points in time, as a count of seconds with the local offset they were taken at.
use vstd::prelude::*;

use crate::order::SortKey;
use crate::text::{digit, digits_value};

verus! {

/// The first second that a calendar date can be given to.
pub const FIRST_SECOND: i64 = -8334601228800;

/// The last second that a calendar date can be given to.
pub const LAST_SECOND: i64 = 8210266876799;

/// Whether the three numbers make a point in time. Only the last second of a minute can be
/// followed by a leap second, which is counted as a second billion of nanoseconds into it.
pub open spec fn representable(seconds: int, nanos: int, offset: int) -> bool {
    &&& FIRST_SECOND <= seconds <= LAST_SECOND
    &&& 0 <= nanos < 1_000_000_000 || (1_000_000_000 <= nanos < 2_000_000_000 && seconds % 60 == 59)
    &&& -86_400 < offset < 86_400
}

/// A point in time: seconds since the start of 1970 in UTC, nanoseconds into that second,
/// and the seconds by which the local clock was ahead of UTC.
#[derive(Clone, Copy, Debug, PartialEq, Eq)]
pub struct Timestamp {
    seconds: i64,
    nanos: u32,
    offset: i32,
}

impl Timestamp {
    /// Seconds since the start of 1970 in UTC.
    pub closed spec fn unix_seconds(self) -> int {
        self.seconds as int
    }

    /// Nanoseconds into the second, a billion or more in a leap second.
    pub closed spec fn second_nanos(self) -> int {
        self.nanos as int
    }

    /// Whether this point in time is in a leap second.
    pub open spec fn in_leap_second(self) -> bool {
        self.second_nanos() >= 1_000_000_000
    }

    /// Seconds by which the local clock was ahead of UTC.
    pub closed spec fn utc_offset(self) -> int {
        self.offset as int
    }

    /// Every point in time has a calendar date and a whole-day offset at most.
    #[verifier::type_invariant]
    pub closed spec fn well_formed(self) -> bool {
        representable(self.seconds as int, self.nanos as int, self.offset as int)
    }

    /// Whether this point in time comes before the other, whatever their offsets.
    pub open spec fn earlier(self, other: Timestamp) -> bool {
        ||| self.unix_seconds() < other.unix_seconds()
        ||| self.unix_seconds() == other.unix_seconds() && self.second_nanos()
            < other.second_nanos()
    }

    /// The point in time made of the three numbers, where they make one.
    pub fn new(seconds: i64, nanos: u32, offset: i32) -> (r: Option<Timestamp>)
        ensures
            r is Some <==> representable(seconds as int, nanos as int, offset as int),
            r matches Some(t) ==> {
                &&& t.unix_seconds() == seconds
                &&& t.second_nanos() == nanos
                &&& t.utc_offset() == offset
            },
    {
        if seconds < FIRST_SECOND || seconds > LAST_SECOND || offset <= -86_400 || offset >= 86_400 {
            return None;
        }
        let since_first: i64 = seconds - FIRST_SECOND;
        assert(since_first % 60 == seconds % 60);
        if nanos < 1_000_000_000 || (nanos < 2_000_000_000 && since_first % 60 == 59) {
            Some(Timestamp { seconds, nanos, offset })
        } else {
            None
        }
    }

    /// Seconds since the start of 1970 in UTC.
    pub fn seconds(&self) -> (r: i64)
        ensures
            r == self.unix_seconds(),
    {
        self.seconds
    }

    /// Nanoseconds into the second, a billion or more in a leap second.
    pub fn nanos(&self) -> (r: u32)
        ensures
            r == self.second_nanos(),
    {
        self.nanos
    }

    /// Seconds by which the local clock was ahead of UTC.
    pub fn offset(&self) -> (r: i32)
        ensures
            r == self.utc_offset(),
    {
        self.offset
    }

    /// The current time on this machine's clock, in its local time zone.
    pub fn now() -> (r: Timestamp)
        ensures
            representable(r.unix_seconds(), r.second_nanos(), r.utc_offset()),
    {
        let (seconds, nanos, offset) = local_now();
        Timestamp { seconds, nanos, offset }
    }

    /// The whole seconds from this point in time to the other, rounded toward zero.
    pub fn seconds_until(&self, other: &Timestamp) -> (r: i64)
        ensures
            r == whole_seconds(*self, *other),
    {
        proof {
            use_type_invariant(self);
            use_type_invariant(other);
        }
        elapsed_seconds(self.seconds, self.nanos, other.seconds, other.nanos)
    }

    /// The local time of day, as `HH:MM:SS`.
    pub fn clock_text(&self) -> (r: String)
        ensures
            r@ == time_of_day(
                self.unix_seconds() + self.utc_offset(),
                self.in_leap_second(),
            ),
    {
        proof {
            use_type_invariant(self);
        }
        format_clock(self.seconds, self.nanos, self.offset)
    }

    /// The date and time in the format of RFC 3339.
    pub fn to_rfc3339(&self) -> (r: String)
        ensures
            r@ == rfc3339_text(self.unix_seconds(), self.second_nanos(), self.utc_offset()),
    {
        proof {
            use_type_invariant(self);
        }
        format_rfc3339(self.seconds, self.nanos, self.offset)
    }
}

impl SortKey for Timestamp {
    open spec fn before(&self, other: &Self) -> bool {
        self.earlier(*other)
    }

    proof fn before_is_weak_order(a: Self, b: Self, c: Self) {
    }

    fn precedes(&self, other: &Self) -> bool {
        self.seconds < other.seconds || (self.seconds == other.seconds && self.nanos < other.nanos)
    }
}

/// The whole seconds between two points in time, rounded toward zero; negative where the
/// second one comes first.
pub open spec fn whole_seconds(from: Timestamp, to: Timestamp) -> int {
    seconds_between(
        from.unix_seconds(),
        from.second_nanos(),
        to.unix_seconds(),
        to.second_nanos(),
    )
}

/// The whole seconds between two points in time, rounded toward zero.
pub open spec fn seconds_between(
    from_seconds: int,
    from_nanos: int,
    to_seconds: int,
    to_nanos: int,
) -> int {
    let leap = leap_seconds(from_seconds, from_nanos, to_seconds, to_nanos);
    toward_zero(
        (to_seconds - from_seconds + leap) * 1_000_000_000 + to_nanos - from_nanos,
        1_000_000_000,
    )
}

/// The leap second to be counted between two points in time besides the others: that of the one
/// that stands earlier in its day, where it is in a leap second.
pub open spec fn leap_seconds(
    from_seconds: int,
    from_nanos: int,
    to_seconds: int,
    to_nanos: int,
) -> int {
    let from_day = from_seconds % 86_400;
    let to_day = to_seconds % 86_400;
    if to_day > from_day && from_nanos >= 1_000_000_000 {
        1
    } else if to_day < from_day && to_nanos >= 1_000_000_000 {
        -1
    } else {
        0
    }
}

/// A quotient with its fraction cut off, for a positive divisor.
pub open spec fn toward_zero(n: int, d: int) -> int {
    if n >= 0 {
        n / d
    } else {
        -((-n) / d)
    }
}

/// Two decimal digits.
pub open spec fn two_digits(n: int) -> Seq<char> {
    seq![digit((n / 10) as nat), digit((n % 10) as nat)]
}

/// The time of day that a count of local seconds stands at, as `HH:MM:SS`; a leap second has the
/// number after that of the second it follows.
pub open spec fn time_of_day(local_seconds: int, leap: bool) -> Seq<char> {
    let s = local_seconds % 86_400;
    let second = if leap {
        s % 60 + 1
    } else {
        s % 60
    };
    two_digits(s / 3600).push(':') + two_digits(s / 60 % 60).push(':') + two_digits(second)
}

/// The RFC 3339 form of a point in time, as the `chrono` crate writes it.
pub uninterp spec fn rfc3339_text(seconds: int, nanos: int, offset: int) -> Seq<char>;

/// Reads the clock with `chrono::Local::now`: the seconds and nanoseconds of the current time
/// and the local offset make a point in time, whatever the clock says.
#[verifier::external_body]
fn local_now() -> (r: (i64, u32, i32))
    ensures
        representable(r.0 as int, r.1 as int, r.2 as int),
{
    let t = chrono::Local::now();
    (t.timestamp(), t.timestamp_subsec_nanos(), t.offset().local_minus_utc())
}

/// Subtracts two `chrono::DateTime` values and takes `num_seconds` of the difference: the
/// seconds between the two, with the fraction cut off. Of leap seconds it counts only those that
/// the two are in, by their times of day.
#[verifier::external_body]
fn elapsed_seconds(from_seconds: i64, from_nanos: u32, to_seconds: i64, to_nanos: u32) -> (r: i64)
    requires
        representable(from_seconds as int, from_nanos as int, 0),
        representable(to_seconds as int, to_nanos as int, 0),
    ensures
        r == seconds_between(
            from_seconds as int,
            from_nanos as int,
            to_seconds as int,
            to_nanos as int,
        ),
{
    let from = chrono::DateTime::from_timestamp(from_seconds, from_nanos).unwrap();
    let to = chrono::DateTime::from_timestamp(to_seconds, to_nanos).unwrap();
    (to - from).num_seconds()
}

/// Formats a point in time with `chrono::DateTime::format` as `%H:%M:%S` at the given offset:
/// hours, minutes and seconds of the local day, two digits each, with one second more in a leap
/// second.
#[verifier::external_body]
fn format_clock(seconds: i64, nanos: u32, offset: i32) -> (r: String)
    requires
        representable(seconds as int, nanos as int, offset as int),
    ensures
        r@ == time_of_day(seconds + offset, nanos >= 1_000_000_000),
{
    let zone = chrono::FixedOffset::east_opt(offset).unwrap();
    let t = chrono::TimeZone::timestamp_opt(&zone, seconds, nanos).unwrap();
    t.format("%H:%M:%S").to_string()
}

/// Formats a point in time with `chrono::DateTime::to_rfc3339` at the given offset; the text
/// is named, not spelled out.
#[verifier::external_body]
fn format_rfc3339(seconds: i64, nanos: u32, offset: i32) -> (r: String)
    requires
        representable(seconds as int, nanos as int, offset as int),
    ensures
        r@ == rfc3339_text(seconds as int, nanos as int, offset as int),
{
    let zone = chrono::FixedOffset::east_opt(offset).unwrap();
    let t = chrono::TimeZone::timestamp_opt(&zone, seconds, nanos).unwrap();
    t.to_rfc3339()
}

/// A quotient is cut off toward zero: what is left over is smaller than the divisor and has the
/// sign of the number.
pub proof fn quotients_are_cut_off(n: int, d: int)
    requires
        d > 0,
    ensures
        n >= 0 ==> 0 <= n - toward_zero(n, d) * d < d,
        n <= 0 ==> -d < n - toward_zero(n, d) * d <= 0,
{
    if n >= 0 {
        assert(0 <= n - (n / d) * d < d) by (nonlinear_arith)
            requires
                d > 0,
        ;
    } else {
        let m = -n;
        assert(0 <= m - (m / d) * d < d) by (nonlinear_arith)
            requires
                d > 0,
        ;
        assert((-(m / d)) * d == -((m / d) * d)) by (nonlinear_arith);
    }
}

/// Looking at two points in time the other way round only changes the sign of the seconds between
/// them; two that stand at the same place in their seconds, and in no leap second, are as many
/// seconds apart as their counts of seconds tell.
pub proof fn seconds_are_counted_both_ways(
    from_seconds: int,
    from_nanos: int,
    to_seconds: int,
    to_nanos: int,
)
    requires
        0 <= from_nanos < 2_000_000_000,
        0 <= to_nanos < 2_000_000_000,
    ensures
        seconds_between(from_seconds, from_nanos, to_seconds, to_nanos) == -seconds_between(
            to_seconds,
            to_nanos,
            from_seconds,
            from_nanos,
        ),
        from_nanos == to_nanos && from_nanos < 1_000_000_000 ==> seconds_between(
            from_seconds,
            from_nanos,
            to_seconds,
            to_nanos,
        ) == to_seconds - from_seconds,
{
    let apart = to_seconds - from_seconds;
    if from_nanos == to_nanos && from_nanos < 1_000_000_000 {
        assert((apart * 1_000_000_000) / 1_000_000_000 == apart);
    }
}

/// The time of day has two digits each for the hours, the minutes and the seconds, which stand for
/// the seconds since midnight.
pub proof fn clocks_show_the_seconds_since_midnight(local_seconds: int, leap: bool)
    ensures
        time_of_day(local_seconds, leap).len() == 8,
        time_of_day(local_seconds, leap)[2] == ':',
        time_of_day(local_seconds, leap)[5] == ':',
        3600 * digits_value(time_of_day(local_seconds, leap).subrange(0, 2)) + 60 * digits_value(
            time_of_day(local_seconds, leap).subrange(3, 5),
        ) + digits_value(time_of_day(local_seconds, leap).subrange(6, 8)) == local_seconds % 86_400
            + if leap {
            1int
        } else {
            0
        },
        digits_value(time_of_day(local_seconds, leap).subrange(3, 5)) < 60,
{
    let s = local_seconds % 86_400;
    let t = time_of_day(local_seconds, leap);
    let second = if leap {
        s % 60 + 1
    } else {
        s % 60
    };
    lemma_two_digits(s / 3600);
    lemma_two_digits(s / 60 % 60);
    lemma_two_digits(second);
    assert(t.subrange(0, 2) =~= two_digits(s / 3600));
    assert(t.subrange(3, 5) =~= two_digits(s / 60 % 60));
    assert(t.subrange(6, 8) =~= two_digits(second));
}

proof fn lemma_two_digits(n: int)
    requires
        0 <= n < 100,
    ensures
        digits_value(two_digits(n)) == n,
{
    let t = two_digits(n);
    assert(digit((n / 10) as nat) as u32 == 48 + n / 10);
    assert(digit((n % 10) as nat) as u32 == 48 + n % 10);
    assert(t.drop_last() =~= seq![digit((n / 10) as nat)]);
    assert(t.drop_last().drop_last() =~= seq![]);
    reveal_with_fuel(digits_value, 3);
}

/// Of two points in time one is earlier just where it has fewer seconds, or as many and fewer
/// nanoseconds; none is earlier than itself.
pub proof fn earlier_times_come_first(a: Timestamp, b: Timestamp)
    ensures
        !a.earlier(a),
        a.earlier(b) ==> !b.earlier(a),
        a.unix_seconds() < b.unix_seconds() ==> a.earlier(b),
        a.unix_seconds() == b.unix_seconds() && a.second_nanos() < b.second_nanos()
            ==> a.earlier(b),
        !a.earlier(b) && !b.earlier(a) ==> a.unix_seconds() == b.unix_seconds() && a.second_nanos()
            == b.second_nanos(),
{
}

/// Points in time are those of a calendar of some hundred thousand years, at an offset of less than
/// a day; leap seconds are among them.
pub proof fn points_in_time_have_a_date(seconds: int, nanos: int, offset: int)
    ensures
        representable(seconds, nanos, offset) <==> {
            &&& -8334601228800 <= seconds <= 8210266876799
            &&& 0 <= nanos < 2_000_000_000
            &&& nanos >= 1_000_000_000 ==> seconds % 60 == 59
            &&& -86_400 < offset < 86_400
        },
{
}

} // verus!
