//! End timestamps of log lines: parsed as a full date and time, or else as a
//! time of day on a fixed reference date, and held as nanoseconds since the
//! Unix epoch.
use vstd::prelude::*;

verus! {

/// Seconds from the Unix epoch back to 0001-01-01T00:00:00, the date that a
/// bare time of day is anchored to.
pub const ANCHOR_SECS: i64 = -62_135_596_800;

pub const NANOS_PER_SEC: i128 = 1_000_000_000;

/// Bound on the instants that a timestamp reads as, in nanoseconds either
/// side of the epoch.
pub const INSTANT_LIMIT: i128 = 100_000_000_000_000_000_000_000_000_000;

/// What chrono reads from `text` as a full date and time in `format`: seconds
/// since the Unix epoch and the nanoseconds beyond them.
pub uninterp spec fn date_time_fields(text: Seq<char>, format: Seq<char>) -> Option<(i64, u32)>;

/// What chrono reads from `text` as a time of day in `format`: seconds since
/// midnight and the nanoseconds beyond them.
pub uninterp spec fn time_of_day_fields(text: Seq<char>, format: Seq<char>) -> Option<(u32, u32)>;

/// Relies on chrono::NaiveDateTime::parse_from_str, and on the seconds and
/// nanoseconds since the Unix epoch of what it parsed.
#[verifier::external_body]
fn parse_date_time(text: &str, format: &str) -> (r: Option<(i64, u32)>)
    ensures
        r == date_time_fields(text@, format@),
{
    chrono::NaiveDateTime::parse_from_str(text, format).ok().map(
        |d| (d.and_utc().timestamp(), d.and_utc().timestamp_subsec_nanos()),
    )
}

/// Relies on chrono::NaiveTime::parse_from_str, and on the seconds since
/// midnight and the nanoseconds of what it parsed.
#[verifier::external_body]
fn parse_time_of_day(text: &str, format: &str) -> (r: Option<(u32, u32)>)
    ensures
        r == time_of_day_fields(text@, format@),
{
    chrono::NaiveTime::parse_from_str(text, format).ok().map(
        |t| (chrono::Timelike::num_seconds_from_midnight(&t), chrono::Timelike::nanosecond(&t)),
    )
}

/// How a timestamp was read: with its date, as a time of day on the
/// reference date, or not at all. Instants are nanoseconds since the epoch.
pub enum ParsedTime {
    DateTime(i128),
    TimeOfDay(i128),
    Unparsed,
}

/// The instant of `secs` seconds and `nanos` nanoseconds after the epoch.
pub open spec fn instant(secs: int, nanos: int) -> int {
    secs * NANOS_PER_SEC + nanos
}

/// The reading of `text` in `format`: as a full date and time where chrono
/// reads it so, else as a time of day on 0001-01-01.
pub open spec fn parsed_time_spec(text: Seq<char>, format: Seq<char>) -> ParsedTime {
    match date_time_fields(text, format) {
        Some((s, n)) => ParsedTime::DateTime(instant(s as int, n as int) as i128),
        None => match time_of_day_fields(text, format) {
            Some((s, n)) => ParsedTime::TimeOfDay(instant(ANCHOR_SECS + s, n as int) as i128),
            None => ParsedTime::Unparsed,
        },
    }
}

/// The instant of a reading, if there is one.
pub open spec fn parsed_instant(p: ParsedTime) -> Option<int> {
    match p {
        ParsedTime::DateTime(t) => Some(t as int),
        ParsedTime::TimeOfDay(t) => Some(t as int),
        ParsedTime::Unparsed => None,
    }
}

proof fn lemma_instant_bounds(s: int, n: int)
    requires
        -10_000_000_000_000_000_000 <= s <= 10_000_000_000_000_000_000,
        0 <= n <= 10_000_000_000,
    ensures
        -INSTANT_LIMIT < instant(s, n) < INSTANT_LIMIT,
{
    assert(-10_000_000_000_000_000_000_000_000_000 <= s * 1_000_000_000 <= 10_000_000_000_000_000_000_000_000_000)
        by (nonlinear_arith)
        requires
            -10_000_000_000_000_000_000 <= s <= 10_000_000_000_000_000_000,
    ;
    assert(instant(s, n) == s * 1_000_000_000 + n);
}

/// Reads `text` in `format`, first with a date, then as a time of day.
pub fn parse_timestamp(text: &str, format: &str) -> (r: ParsedTime)
    ensures
        r == parsed_time_spec(text@, format@),
        parsed_instant(r) matches Some(t) ==> -INSTANT_LIMIT < t
            < INSTANT_LIMIT,
{
    if let Some((s, n)) = parse_date_time(text, format) {
        proof {
            lemma_instant_bounds(s as int, n as int);
        }
        return ParsedTime::DateTime(s as i128 * NANOS_PER_SEC + n as i128);
    }
    if let Some((s, n)) = parse_time_of_day(text, format) {
        proof {
            lemma_instant_bounds(ANCHOR_SECS + s, n as int);
        }
        let secs = ANCHOR_SECS as i128 + s as i128;
        return ParsedTime::TimeOfDay(secs * NANOS_PER_SEC + n as i128);
    }
    ParsedTime::Unparsed
}

} // verus!
