//! Calendar dates, parsed and formatted by chrono.
use vstd::prelude::*;

verus! {

/// The smallest year that a chrono `NaiveDate` can hold.
pub const MIN_YEAR: i32 = -262143;

/// The largest year that a chrono `NaiveDate` can hold.
pub const MAX_YEAR: i32 = 262142;

/// A day of the proleptic Gregorian calendar.
#[derive(Clone, Copy, Debug, PartialEq, Eq, Structural)]
pub struct Date {
    pub year: i32,
    pub month: u32,
    pub day: u32,
}

pub open spec fn is_leap_year(y: int) -> bool {
    (y % 4 == 0 && y % 100 != 0) || y % 400 == 0
}

pub open spec fn days_in_month(y: int, m: int) -> int {
    if m == 2 {
        if is_leap_year(y) {
            29
        } else {
            28
        }
    } else if m == 4 || m == 6 || m == 9 || m == 11 {
        30
    } else {
        31
    }
}

impl Date {
    /// The date exists and lies in the range that chrono supports.
    pub open spec fn valid(self) -> bool {
        &&& MIN_YEAR <= self.year <= MAX_YEAR
        &&& 1 <= self.month <= 12
        &&& 1 <= self.day <= days_in_month(self.year as int, self.month as int)
    }

    /// `self` is a later day than `other`.
    pub open spec fn after(self, other: Date) -> bool {
        self.year > other.year || (self.year == other.year && (self.month > other.month || (
        self.month == other.month && self.day > other.day)))
    }

    /// Whether `self` is a later day than `other`.
    pub fn is_after(&self, other: &Date) -> (r: bool)
        ensures
            r == self.after(*other),
    {
        self.year > other.year || (self.year == other.year && (self.month > other.month || (
        self.month == other.month && self.day > other.day)))
    }
}

/// What chrono's parser makes of a text under the pattern `%Y-%m-%d`: year, month and day.
pub uninterp spec fn parsed_date_of(s: Seq<char>) -> Option<(int, int, int)>;

/// Relies on chrono's `NaiveDate::parse_from_str` with the pattern `%Y-%m-%d`: it accepts a
/// text or not depending on the text alone, and what it accepts is a date that exists.
#[verifier::external_body]
pub(crate) fn parse_ymd(s: &[char]) -> (r: Option<Date>)
    ensures
        r is None <==> parsed_date_of(s@) is None,
        r matches Some(d) ==> d.valid() && parsed_date_of(s@) == Some(
            (d.year as int, d.month as int, d.day as int),
        ),
{
    let text: String = s.iter().collect();
    match chrono::NaiveDate::parse_from_str(&text, "%Y-%m-%d") {
        Ok(d) => Some(
            Date {
                year: chrono::Datelike::year(&d),
                month: chrono::Datelike::month(&d),
                day: chrono::Datelike::day(&d),
            },
        ),
        Err(_) => None,
    }
}

/// The text that chrono's `format("%a, %d %b %Y 17:00:00 GMT")` gives for a date.
pub uninterp spec fn rss_date_of(year: int, month: int, day: int) -> Seq<char>;

/// Relies on chrono's `NaiveDate::format` with the pattern `%a, %d %b %Y 17:00:00 GMT`
/// (English names, no locale); `from_ymd_opt` returns a date for every valid `d`.
#[verifier::external_body]
pub(crate) fn format_rss_date(d: Date) -> (r: Vec<char>)
    requires
        d.valid(),
    ensures
        r@ == rss_date_of(d.year as int, d.month as int, d.day as int),
{
    let nd = chrono::NaiveDate::from_ymd_opt(d.year, d.month, d.day).unwrap();
    nd.format("%a, %d %b %Y 17:00:00 GMT").to_string().chars().collect()
}

} // verus!

verus! {

/// The decimal digit for `d < 10`.
pub open spec fn digit(d: nat) -> char {
    ((d + 48) as u8) as char
}

/// `n` in decimal, padded with zeros to at least `w` digits (no digit at all for `0, 0`).
pub open spec fn padded(n: nat, w: nat) -> Seq<char>
    decreases n + w,
{
    if n == 0 && w == 0 {
        Seq::empty()
    } else {
        padded(n / 10, if w > 0 {
            (w - 1) as nat
        } else {
            0
        }).push(digit(n % 10))
    }
}

/// A date as `YYYY-MM-DD` (a year before 0 gets a `-` in front).
pub open spec fn iso_text(d: Date) -> Seq<char> {
    (if d.year < 0 {
        seq!['-'] + padded((-d.year) as nat, 4)
    } else {
        padded(d.year as nat, 4)
    }) + seq!['-'] + padded(d.month as nat, 2) + seq!['-'] + padded(d.day as nat, 2)
}

/// Appends `n` in decimal, padded with zeros to `w` digits.
fn push_padded(out: &mut Vec<char>, n: u32, w: u32)
    ensures
        final(out)@ == old(out)@ + padded(n as nat, w as nat),
    decreases n + w,
{
    if n == 0 && w == 0 {
        assert(old(out)@ + padded(0, 0) =~= old(out)@);
        return;
    }
    let w2: u32 = if w > 0 {
        w - 1
    } else {
        0
    };
    push_padded(out, n / 10, w2);
    let c = ((n % 10) as u8 + 48) as char;
    out.push(c);
    assert(final(out)@ =~= old(out)@ + padded(n as nat, w as nat));
}

/// The date as `YYYY-MM-DD`.
pub fn iso_date(d: Date) -> (r: Vec<char>)
    requires
        d.valid(),
    ensures
        r@ == iso_text(d),
{
    let mut r: Vec<char> = Vec::new();
    if d.year < 0 {
        r.push('-');
        push_padded(&mut r, (-d.year) as u32, 4);
    } else {
        push_padded(&mut r, d.year as u32, 4);
    }
    r.push('-');
    push_padded(&mut r, d.month, 2);
    r.push('-');
    push_padded(&mut r, d.day, 2);
    assert(r@ =~= iso_text(d));
    r
}

} // verus!
