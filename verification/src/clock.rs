//! Calendar dates for file names.

use crate::text::{append_digits, append_text};
use vstd::prelude::*;

verus! {

use crate::text::decimal;

/// Whether February of the year has 29 days.
pub open spec fn is_leap(y: int) -> bool {
    (y % 4 == 0 && y % 100 != 0) || y % 400 == 0
}

/// The days of a year.
pub open spec fn year_len(y: int) -> int {
    if is_leap(y) {
        366
    } else {
        365
    }
}

/// The days of a month, January being the first.
pub open spec fn month_len(y: int, m: int) -> int {
    if m == 2 {
        if is_leap(y) {
            29
        } else {
            28
        }
    } else if m == 4 || m == 6 || m == 9 || m == 11 {
        30
    } else {
        31
    }
}

/// The days from the start of 1970 to the start of year `y`.
pub open spec fn days_to_year(y: int) -> int
    decreases y,
{
    if y <= 1970 {
        0
    } else {
        days_to_year(y - 1) + year_len(y - 1)
    }
}

/// The days from the start of year `y` to the start of its month `m`.
pub open spec fn days_to_month(y: int, m: int) -> int
    decreases m,
{
    if m <= 1 {
        0
    } else {
        days_to_month(y, m - 1) + month_len(y, m - 1)
    }
}

/// A moment of the Gregorian calendar, in UTC.
#[derive(Clone, Copy, Debug, PartialEq, Eq, Structural)]
pub struct UtcTime {
    pub year: u64,
    pub month: u32,
    pub day: u32,
    pub hour: u32,
    pub minute: u32,
    pub second: u32,
}

impl UtcTime {
    /// Whether there is such a moment, from 1970 on.
    pub open spec fn valid(self) -> bool {
        &&& self.year >= 1970
        &&& 1 <= self.month <= 12
        &&& 1 <= self.day <= month_len(self.year as int, self.month as int)
        &&& self.hour < 24
        &&& self.minute < 60
        &&& self.second < 60
    }

    /// The seconds from the start of 1970 to the moment.
    pub open spec fn unix(self) -> int {
        let days = days_to_year(self.year as int) + days_to_month(
            self.year as int,
            self.month as int,
        ) + self.day - 1;
        days * 86_400 + self.hour * 3600 + self.minute * 60 + self.second
    }
}

fn leap(y: u64) -> (r: bool)
    ensures
        r == is_leap(y as int),
{
    (y % 4 == 0 && y % 100 != 0) || y % 400 == 0
}

fn days_in_month(y: u64, m: u32) -> (r: u64)
    ensures
        r == month_len(y as int, m as int),
{
    if m == 2 {
        if leap(y) {
            29
        } else {
            28
        }
    } else if m == 4 || m == 6 || m == 9 || m == 11 {
        30
    } else {
        31
    }
}

proof fn lemma_months_fill_the_year(y: int)
    ensures
        days_to_month(y, 13) == year_len(y),
{
    reveal_with_fuel(days_to_month, 13);
}

/// The moment that is `unix_secs` seconds after the start of 1970.
pub fn utc_components(unix_secs: u64) -> (r: UtcTime)
    ensures
        r.valid(),
        r.unix() == unix_secs,
{
    let second: u32 = (unix_secs % 60) as u32;
    let minute: u32 = ((unix_secs / 60) % 60) as u32;
    let hour: u32 = ((unix_secs / 3600) % 24) as u32;
    let all_days: u64 = unix_secs / 86_400;
    let mut days: u64 = all_days;
    let mut year: u64 = 1970;
    loop
        invariant
            days + days_to_year(year as int) == all_days,
            1970 <= year <= 1970 + all_days - days,
            all_days < 0x1_0000_0000_0000,
        ensures
            days < year_len(year as int),
        decreases days,
    {
        let len: u64 = if leap(year) {
            366
        } else {
            365
        };
        if days < len {
            break;
        }
        days = days - len;
        year = year + 1;
    }
    let mut month: u32 = 1;
    let mut rest: u64 = days;
    proof {
        lemma_months_fill_the_year(year as int);
    }
    while month < 12 && rest >= days_in_month(year, month)
        invariant
            1 <= month <= 12,
            rest + days_to_month(year as int, month as int) == days,
            days < year_len(year as int),
        decreases 12 - month,
    {
        rest = rest - days_in_month(year, month);
        month = month + 1;
    }
    proof {
        lemma_months_fill_the_year(year as int);
    }
    UtcTime { year, month, day: rest as u32 + 1, hour, minute, second }
}

/// `n` zeros.
pub open spec fn zeros(n: nat) -> Seq<char> {
    Seq::new(n, |i: int| '0')
}

/// `n` in decimal, with leading zeros up to `width` digits.
pub open spec fn padded(n: nat, width: nat) -> Seq<char> {
    let d = decimal(n);
    if d.len() < width {
        zeros((width - d.len()) as nat) + d
    } else {
        d
    }
}

/// Appends `n` in decimal, with leading zeros up to `width` digits.
pub fn append_padded(out: &mut String, n: u64, width: usize)
    ensures
        final(out)@ == old(out)@ + padded(n as nat, width as nat),
{
    let mut number = String::new();
    append_digits(&mut number, n, 10);
    assert(number@ =~= decimal(n as nat));
    let have: usize = crate::text::chars_of(number.as_str()).len();
    let mut i: usize = have;
    assert(out@ =~= old(out)@ + zeros(0));
    while i < width
        invariant
            have <= i,
            have < width ==> i <= width,
            have >= width ==> i == have,
            out@ == old(out)@ + zeros((i - have) as nat),
        decreases width - i,
    {
        out.push('0');
        i = i + 1;
        assert(out@ =~= old(out)@ + zeros((i - have) as nat));
    }
    append_text(out, number.as_str());
    assert(out@ =~= old(out)@ + padded(n as nat, width as nat));
}

/// `YYYYMMDD-HHMMSS`.
pub open spec fn stamp(t: UtcTime) -> Seq<char> {
    padded(t.year as nat, 4) + padded(t.month as nat, 2) + padded(t.day as nat, 2) + seq!['-']
        + padded(t.hour as nat, 2) + padded(t.minute as nat, 2) + padded(t.second as nat, 2)
}

/// Whether `name` is `PREFIX-YYYYMMDD-HHMMSSSUFFIX.btlm` for the moment
/// `unix_secs`.
pub open spec fn is_capture_name(
    name: Seq<char>,
    prefix: Seq<char>,
    suffix: Seq<char>,
    unix_secs: u64,
) -> bool {
    exists|t: UtcTime|
        t.valid() && t.unix() == unix_secs && name == prefix + seq!['-'] + #[trigger] stamp(t)
            + suffix + ".btlm"@
}

/// The suggested name of a capture file, with a suffix before the extension.
pub fn suggested_filename_with(prefix: &str, suffix: Option<&str>, unix_secs: u64) -> (r: String)
    ensures
        is_capture_name(
            r@,
            prefix@,
            match suffix {
                Some(s) => s@,
                None => Seq::empty(),
            },
            unix_secs,
        ),
{
    let t = utc_components(unix_secs);
    let mut out = String::new();
    append_text(&mut out, prefix);
    out.push('-');
    append_padded(&mut out, t.year, 4);
    append_padded(&mut out, t.month as u64, 2);
    append_padded(&mut out, t.day as u64, 2);
    out.push('-');
    append_padded(&mut out, t.hour as u64, 2);
    append_padded(&mut out, t.minute as u64, 2);
    append_padded(&mut out, t.second as u64, 2);
    let ghost tail: Seq<char> = match suffix {
        Some(s) => s@,
        None => Seq::empty(),
    };
    if let Some(s) = suffix {
        append_text(&mut out, s);
    }
    append_text(&mut out, ".btlm");
    assert(out@ =~= prefix@ + seq!['-'] + stamp(t) + tail + ".btlm"@);
    out
}

/// The suggested name of a capture file: `btelem-YYYYMMDD-HHMMSS.btlm`, in UTC.
pub fn suggested_filename(unix_secs: u64) -> (r: String)
    ensures
        is_capture_name(r@, "btelem"@, Seq::empty(), unix_secs),
{
    suggested_filename_with("btelem", None, unix_secs)
}

proof fn lemma_days_to_year_monotone(a: int, b: int)
    requires
        1970 <= a <= b,
    ensures
        days_to_year(a) + 365 * (b - a) <= days_to_year(b),
    decreases b,
{
    if a < b {
        lemma_days_to_year_monotone(a, b - 1);
    }
}

proof fn lemma_days_to_month_monotone(y: int, a: int, b: int)
    requires
        1 <= a <= b,
    ensures
        days_to_month(y, a) + 28 * (b - a) <= days_to_month(y, b),
    decreases b,
{
    if a < b {
        lemma_days_to_month_monotone(y, a, b - 1);
    }
}

proof fn lemma_later_date(a: UtcTime, b: UtcTime)
    requires
        a.valid(),
        b.valid(),
        a.year < b.year || (a.year == b.year && a.month < b.month),
    ensures
        a.unix() < b.unix(),
{
    let (ay, by) = (a.year as int, b.year as int);
    let (am, bm) = (a.month as int, b.month as int);
    lemma_months_fill_the_year(ay);
    lemma_months_fill_the_year(by);
    assert(days_to_month(ay, am + 1) == days_to_month(ay, am) + month_len(ay, am));
    lemma_days_to_month_monotone(ay, am + 1, 13);
    lemma_days_to_month_monotone(by, 1, bm);
    if ay < by {
        assert(days_to_year(ay + 1) == days_to_year(ay) + year_len(ay));
        lemma_days_to_year_monotone(ay + 1, by);
    } else {
        lemma_days_to_month_monotone(ay, am + 1, bm);
    }
}

/// A moment has one date and time: no two valid ones name the same second.
pub proof fn law_dates_are_unique(a: UtcTime, b: UtcTime)
    requires
        a.valid(),
        b.valid(),
        a.unix() == b.unix(),
    ensures
        a == b,
{
    if a.year < b.year || (a.year == b.year && a.month < b.month) {
        lemma_later_date(a, b);
    } else if b.year < a.year || (b.year == a.year && b.month < a.month) {
        lemma_later_date(b, a);
    }
}

} // verus!
