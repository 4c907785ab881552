//! Calendar timestamps as plain fields, their chronological order, and the
//! reading of note dates and cutoff dates.
use chrono::{Datelike, Timelike};
use vstd::prelude::*;

verus! {

/// A date and time of day. A leap second is carried as second 59 with a
/// nanosecond count of one second or more, so the field order is the
/// chronological order.
#[derive(Clone, Copy, Debug, PartialEq, Eq, Structural)]
pub struct Timestamp {
    pub year: i32,
    pub month: u32,
    pub day: u32,
    pub hour: u32,
    pub minute: u32,
    pub second: u32,
    pub nano: u32,
}

/// `a` comes strictly before `b`: the fields compared in turn, year first.
pub open spec fn earlier(a: Timestamp, b: Timestamp) -> bool {
    if a.year != b.year {
        a.year < b.year
    } else if a.month != b.month {
        a.month < b.month
    } else if a.day != b.day {
        a.day < b.day
    } else if a.hour != b.hour {
        a.hour < b.hour
    } else if a.minute != b.minute {
        a.minute < b.minute
    } else if a.second != b.second {
        a.second < b.second
    } else {
        a.nano < b.nano
    }
}

impl Timestamp {
    /// Midnight at the start of the given day.
    pub fn midnight(year: i32, month: u32, day: u32) -> (r: Timestamp)
        ensures
            r == (Timestamp { year, month, day, hour: 0, minute: 0, second: 0, nano: 0 }),
    {
        Timestamp { year, month, day, hour: 0, minute: 0, second: 0, nano: 0 }
    }

    /// Whether `self` comes strictly before `other`.
    pub fn is_before(&self, other: &Timestamp) -> (r: bool)
        ensures
            r == earlier(*self, *other),
    {
        if self.year != other.year {
            self.year < other.year
        } else if self.month != other.month {
            self.month < other.month
        } else if self.day != other.day {
            self.day < other.day
        } else if self.hour != other.hour {
            self.hour < other.hour
        } else if self.minute != other.minute {
            self.minute < other.minute
        } else if self.second != other.second {
            self.second < other.second
        } else {
            self.nano < other.nano
        }
    }
}

/// The strict order is a strict total order.
pub proof fn lemma_earlier_total(a: Timestamp, b: Timestamp, c: Timestamp)
    ensures
        !earlier(a, a),
        earlier(a, b) ==> !earlier(b, a),
        earlier(a, b) && earlier(b, c) ==> earlier(a, c),
        a != b ==> earlier(a, b) || earlier(b, a),
{
}

/// What the timestamp format `YYYY-MM-DDTHH:MM:SS` reads from a text, if it
/// reads one.
pub uninterp spec fn iso_datetime_of(s: Seq<char>) -> Option<Timestamp>;

/// Relies on `chrono::NaiveDateTime::parse_from_str` with the format
/// `%Y-%m-%dT%H:%M:%S`, whose outcome depends on the text alone; the fields
/// are copied out through chrono's `Datelike` and `Timelike` accessors.
#[verifier::external_body]
fn parse_iso_datetime(s: &str) -> (r: Option<Timestamp>)
    ensures
        r == iso_datetime_of(s@),
{
    match chrono::NaiveDateTime::parse_from_str(s, "%Y-%m-%dT%H:%M:%S") {
        Ok(d) => Some(Timestamp {
            year: d.year(),
            month: d.month(),
            day: d.day(),
            hour: d.hour(),
            minute: d.minute(),
            second: d.second(),
            nano: d.nanosecond(),
        }),
        Err(_) => None,
    }
}

/// The time of day appended to a bare date to read it as midnight.
pub open spec fn midnight_suffix() -> Seq<char> {
    seq!['T', '0', '0', ':', '0', '0', ':', '0', '0']
}

/// A note's date: a full timestamp if the text reads as one, else the text
/// read as a date at midnight.
pub open spec fn note_date_of(s: Seq<char>) -> Option<Timestamp> {
    match iso_datetime_of(s) {
        Some(t) => Some(t),
        None => iso_datetime_of(s + midnight_suffix()),
    }
}

/// A cutoff date: the text read as a date at midnight.
pub open spec fn cutoff_of(s: Seq<char>) -> Option<Timestamp> {
    iso_datetime_of(s + midnight_suffix())
}

fn with_midnight(s: &str) -> (r: String)
    ensures
        r@ == s@ + midnight_suffix(),
{
    let mut r = String::from_str(s);
    let suffix = "T00:00:00";
    proof {
        reveal_strlit("T00:00:00");
    }
    r.append(suffix);
    proof {
        assert(suffix@ =~= midnight_suffix());
    }
    r
}

/// Reads the date of a note: first as a full timestamp, then as a bare date
/// taken at midnight.
pub fn parse_note_date(s: &str) -> (r: Option<Timestamp>)
    ensures
        r == note_date_of(s@),
{
    match parse_iso_datetime(s) {
        Some(t) => Some(t),
        None => {
            let full = with_midnight(s);
            parse_iso_datetime(full.as_str())
        },
    }
}

/// Reads a cutoff date `YYYY-MM-DD`, taken at midnight.
pub fn parse_cutoff(s: &str) -> (r: Option<Timestamp>)
    ensures
        r == cutoff_of(s@),
{
    let full = with_midnight(s);
    parse_iso_datetime(full.as_str())
}

} // verus!
