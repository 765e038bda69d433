//! Instants as plain numbers. `chrono` reads and writes them as text, tells the
//! time and moves an instant back.

use vstd::prelude::*;
use crate::text;

verus! {

/// An instant: whole seconds since the start of 1970 in UTC, and nanoseconds
/// after that second. A leap second has a billion nanoseconds or more.
#[derive(Clone, Copy, Debug, PartialEq, Eq, Structural)]
pub struct Timestamp {
    pub secs: i64,
    pub nanos: u32,
}

/// The first second that `chrono` has an instant for.
pub const MIN_SECS: i64 = -8_334_601_228_800;

/// The last second that `chrono` has an instant for.
pub const MAX_SECS: i64 = 8_210_266_876_799;

/// Whether `chrono` has an instant in the given second.
pub open spec fn in_calendar(secs: int) -> bool {
    MIN_SECS <= secs <= MAX_SECS
}

impl Timestamp {
    /// Whether this is an instant that `chrono` has: a leap second ends a minute.
    pub open spec fn valid(self) -> bool {
        &&& in_calendar(self.secs as int)
        &&& self.nanos < 2_000_000_000
        &&& self.nanos >= 1_000_000_000 ==> self.secs % 60 == 59
    }

    /// Microseconds since the start of 1970.
    pub open spec fn micros_spec(self) -> int {
        self.secs * 1_000_000 + self.nanos as int / 1_000
    }

    /// Whether this is an instant that `chrono` has.
    pub fn is_valid(self) -> (r: bool)
        ensures
            r == self.valid(),
    {
        self.secs >= MIN_SECS && self.secs <= MAX_SECS && self.nanos < 2_000_000_000 && (self.nanos
            < 1_000_000_000 || second_of_minute(self.secs) == 59)
    }

    /// Microseconds since the start of 1970.
    pub fn micros(self) -> (r: i64)
        requires
            self.valid(),
        ensures
            r == self.micros_spec(),
    {
        self.secs * 1_000_000 + (self.nanos / 1_000) as i64
    }
}

/// The second of the minute that a second since the start of 1970 is.
fn second_of_minute(secs: i64) -> (r: i64)
    ensures
        r == secs % 60,
{
    let cut: i128 = (secs as i128) + 60_000_000_000_000_000_000;
    (cut % 60) as i64
}

/// Whether a character can stand in a date and time in UTC to the second.
pub open spec fn is_date_char(c: char) -> bool {
    text::is_digit(c) || c == '+' || c == '-' || c == ':' || c == 'T' || c == 'Z'
}

/// Whether a text has the form of a date and time in UTC to the second, with a year of
/// four digits.
pub open spec fn is_utc_text(s: Seq<char>) -> bool {
    &&& s.len() == 20
    &&& s[4] == '-' && s[7] == '-' && s[10] == 'T' && s[13] == ':' && s[16] == ':' && s[19] == 'Z'
    &&& forall|i: int|
        0 <= i < 19 && i != 4 && i != 7 && i != 10 && i != 13 && i != 16 ==> text::is_digit(
            #[trigger] s[i],
        )
}

/// The instant that `chrono::DateTime::parse_from_rfc3339` reads in a text.
pub uninterp spec fn rfc3339(text: Seq<char>) -> Option<Timestamp>;

/// What `chrono::DateTime::to_rfc3339_opts` writes for an instant in UTC, with
/// whole seconds and a `Z`.
pub uninterp spec fn rfc3339_seconds(t: Timestamp) -> Seq<char>;

/// What `chrono::DateTime::to_rfc3339` writes for the start of a second in UTC.
pub uninterp spec fn rfc3339_offset(secs: i64) -> Seq<char>;

/// `chrono::DateTime::parse_from_rfc3339` reads an RFC 3339 date and time. Its
/// instant does not depend on the offset that it is written with. A text that it
/// reads starts with a year of four digits and a dash, and is at least as long as a
/// date and a time to the second.
#[verifier::external_body]
pub(crate) fn parse_rfc3339(text: &str) -> (r: Option<Timestamp>)
    ensures
        r == rfc3339(text@),
        r matches Some(t) ==> t.valid(),
        r is Some ==> text@.len() >= 19 && text@[4] == '-',
{
    match chrono::DateTime::parse_from_rfc3339(text) {
        Ok(d) => Some(Timestamp { secs: d.timestamp(), nanos: d.timestamp_subsec_nanos() }),
        Err(_) => None,
    }
}

/// `chrono::DateTime::to_rfc3339_opts` writes an instant in UTC, here with whole
/// seconds and a `Z`: digits, signs and colons, a `T` before the time and the `Z`. An
/// instant of the years 0 to 9999 has a year of four digits, and what is written reads
/// back as the start of its second, or as the leap second at its end. Any other year has
/// a sign.
#[verifier::external_body]
pub(crate) fn format_seconds(t: Timestamp) -> (r: String)
    requires
        t.valid(),
    ensures
        r@ == rfc3339_seconds(t),
        forall|i: int| 0 <= i < r@.len() ==> is_date_char(#[trigger] r@[i]),
        if -62_167_219_200 <= t.secs < 253_402_300_800 {
            is_utc_text(r@) && rfc3339(r@) == Some(
                Timestamp {
                    secs: t.secs,
                    nanos: if t.nanos < 1_000_000_000 {
                        0
                    } else {
                        1_000_000_000
                    },
                },
            )
        } else {
            r@.len() > 0 && (r@[0] == '+' || r@[0] == '-')
        },
{
    chrono::DateTime::from_timestamp(t.secs, t.nanos).unwrap().to_rfc3339_opts(
        chrono::SecondsFormat::Secs,
        true,
    )
}

/// `chrono::DateTime::from_timestamp` has an instant for every second of its
/// calendar and for no other, which `to_rfc3339` writes.
#[verifier::external_body]
pub(crate) fn format_offset(secs: i64) -> (r: Option<String>)
    ensures
        r is Some <==> in_calendar(secs as int),
        r matches Some(s) ==> s@ == rfc3339_offset(secs),
{
    match chrono::DateTime::from_timestamp(secs, 0) {
        Some(d) => Some(d.to_rfc3339()),
        None => None,
    }
}

/// `chrono::Utc::now` tells the time by the machine's clock, in which there are no
/// leap seconds. It gives no time before 1970: it panics where the clock is set to
/// one.
#[verifier::external_body]
pub(crate) fn utc_now() -> (r: Timestamp)
    ensures
        r.valid(),
        r.secs >= 0,
        r.nanos < 1_000_000_000,
{
    let d = chrono::Utc::now();
    Timestamp { secs: d.timestamp(), nanos: d.timestamp_subsec_nanos() }
}

/// `chrono::DateTime::checked_sub_signed` moves an instant back by a number of
/// seconds, where that stays in the calendar.
#[verifier::external_body]
pub(crate) fn seconds_before(t: Timestamp, secs: i64) -> (r: Option<Timestamp>)
    requires
        t.valid(),
        t.nanos < 1_000_000_000,
    ensures
        r == if in_calendar(t.secs - secs) {
            Some(Timestamp { secs: (t.secs - secs) as i64, nanos: t.nanos })
        } else {
            None
        },
{
    let from = chrono::DateTime::from_timestamp(t.secs, t.nanos)?;
    let d = from.checked_sub_signed(chrono::TimeDelta::try_seconds(secs)?)?;
    Some(Timestamp { secs: d.timestamp(), nanos: d.timestamp_subsec_nanos() })
}

/// The instants are those of the calendar, from the first second to the last, with up to a
/// billion nanoseconds after each, and up to two billion after the last of a minute.
pub proof fn law_instants(t: Timestamp)
    ensures
        t.nanos < 1_000_000_000 ==> (t.valid() <==> -8_334_601_228_800 <= t.secs
            <= 8_210_266_876_799),
        t.nanos >= 1_000_000_000 && t.secs % 60 != 59 ==> !t.valid(),
        t.nanos >= 2_000_000_000 ==> !t.valid(),
        1_000_000_000 <= t.nanos < 2_000_000_000 && t.secs % 60 == 59 ==> (t.valid()
            <==> -8_334_601_228_800 <= t.secs <= 8_210_266_876_799),
        t.micros_spec() * 1_000 <= t.secs * 1_000_000_000 + t.nanos < t.micros_spec() * 1_000
            + 1_000,
{
}

} // verus!
