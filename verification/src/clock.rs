//! Dates and times of day in UTC.

use vstd::prelude::*;
use vstd::string::*;
use crate::text::{decimal, push_decimal};

verus! {

/// Seconds in a day.
pub const DAY: u64 = 86400;

pub open spec fn is_leap(y: int) -> bool {
    y % 4 == 0 && (y % 100 != 0 || y % 400 == 0)
}

/// Days in year `y`.
pub open spec fn year_days(y: int) -> int {
    if is_leap(y) {
        366
    } else {
        365
    }
}

/// Days in month `m` of year `y`, counted from 1.
pub open spec fn month_days(y: int, m: int) -> int {
    if m == 2 {
        if is_leap(y) {
            29
        } else {
            28
        }
    } else if m == 4 || m == 6 || m == 9 || m == 11 {
        30
    } else {
        31
    }
}

/// Days from the start of 1970 to the start of year `y`.
pub open spec fn days_before_year(y: int) -> int
    decreases y - 1970,
{
    if y <= 1970 {
        0
    } else {
        days_before_year(y - 1) + year_days(y - 1)
    }
}

/// Days from the start of year `y` to the start of its month `m`.
pub open spec fn days_before_month(y: int, m: int) -> int
    decreases m,
{
    if m <= 1 {
        0
    } else {
        days_before_month(y, m - 1) + month_days(y, m - 1)
    }
}

/// Day `d` of month `m` of year `y` is `days` days after the first of January
/// 1970.
pub open spec fn is_date(days: int, y: int, m: int, d: int) -> bool {
    &&& y >= 1970
    &&& 1 <= m <= 12
    &&& 1 <= d <= month_days(y, m)
    &&& days == days_before_year(y) + days_before_month(y, m) + (d - 1)
}

/// The months fill the year.
proof fn lemma_months(y: int)
    ensures
        days_before_month(y, 12) + month_days(y, 12) == year_days(y),
{
    reveal_with_fuel(days_before_month, 13);
}

proof fn lemma_month_order(y: int, a: int, b: int)
    requires
        1 <= a < b <= 12,
    ensures
        days_before_month(y, a) + month_days(y, a) <= days_before_month(y, b),
    decreases b - a,
{
    if a < b - 1 {
        lemma_month_order(y, a, b - 1);
    }
}

proof fn lemma_year_order(a: int, b: int)
    requires
        1970 <= a < b,
    ensures
        days_before_year(a) + year_days(a) <= days_before_year(b),
    decreases b - a,
{
    if a < b - 1 {
        lemma_year_order(a, b - 1);
    }
}

/// The day of the year is within the year.
proof fn lemma_date_in_year(days: int, y: int, m: int, d: int)
    requires
        is_date(days, y, m, d),
    ensures
        days_before_year(y) <= days < days_before_year(y) + year_days(y),
{
    lemma_months(y);
    if m < 12 {
        lemma_month_order(y, m, 12);
    }
    if m > 1 {
        lemma_month_order(y, 1, m);
    }
}

/// A day has one date, and a date is that of one day.
pub proof fn lemma_one_date(
    days1: int,
    y1: int,
    m1: int,
    d1: int,
    days2: int,
    y2: int,
    m2: int,
    d2: int,
)
    requires
        is_date(days1, y1, m1, d1),
        is_date(days2, y2, m2, d2),
    ensures
        days1 == days2 <==> (y1, m1, d1) == (y2, m2, d2),
        days1 < days2 <==> (y1 < y2 || (y1 == y2 && (m1 < m2 || (m1 == m2 && d1 < d2)))),
{
    lemma_date_in_year(days1, y1, m1, d1);
    lemma_date_in_year(days2, y2, m2, d2);
    if y1 < y2 {
        lemma_year_order(y1, y2);
    } else if y2 < y1 {
        lemma_year_order(y2, y1);
    } else if m1 < m2 {
        lemma_month_order(y1, m1, m2);
    } else if m2 < m1 {
        lemma_month_order(y1, m2, m1);
    }
}

/// `n` in at least `w` digits.
pub open spec fn padded(n: nat, w: nat) -> Seq<char> {
    zeros(w - decimal(n).len()) + decimal(n)
}

/// A run of zeros.
pub open spec fn zeros(n: int) -> Seq<char>
    decreases n,
{
    if n <= 0 {
        Seq::empty()
    } else {
        zeros(n - 1).push('0')
    }
}

proof fn lemma_zeros_len(n: int)
    ensures
        zeros(n).len() == if n > 0 {
            n
        } else {
            0
        },
    decreases n,
{
    if n > 0 {
        lemma_zeros_len(n - 1);
    }
}

/// Number of digits.
fn digits(n: u64) -> (r: u64)
    ensures
        r == decimal(n as nat).len(),
        1 <= r <= n + 1,
    decreases n,
{
    if n < 10 {
        1
    } else {
        digits(n / 10) + 1
    }
}

/// Appends `n` in at least `w` digits.
pub fn push_padded(out: &mut String, n: u64, w: u64)
    ensures
        final(out)@ == old(out)@ + padded(n as nat, w as nat),
{
    let ghost start = out@;
    let len: u64 = digits(n);
    let mut k: u64 = len;
    assert(out@ =~= start + zeros(0));
    while k < w
        invariant
            len <= k,
            k <= w || k == len,
            out@ == start + zeros(k - len),
        decreases w - k,
    {
        out.push('0');
        k = k + 1;
        assert(out@ =~= start + zeros(k - len));
    }
    push_decimal(out, n);
    assert(zeros(w - len) =~= zeros(k - len));
    assert(out@ =~= start + padded(n as nat, w as nat));
}

/// A date with the time of day, `time` seconds into it.
pub open spec fn timestamp(y: int, m: int, d: int, time: int) -> Seq<char> {
    padded(y as nat, 4).push('-') + padded(m as nat, 2).push('-') + padded(d as nat, 2).push('T')
        + padded((time / 3600) as nat, 2).push(':') + padded((time % 3600 / 60) as nat, 2).push(':')
        + padded((time % 60) as nat, 2).push('Z')
}

fn leap(y: u64) -> (r: bool)
    ensures
        r == is_leap(y as int),
{
    y % 4 == 0 && (y % 100 != 0 || y % 400 == 0)
}

fn days_of_month(y: u64, m: u64) -> (r: u64)
    ensures
        r == month_days(y as int, m as int),
{
    if m == 2 {
        if leap(y) {
            29
        } else {
            28
        }
    } else if m == 4 || m == 6 || m == 9 || m == 11 {
        30
    } else {
        31
    }
}

/// The date of the day that is `days` days after the first of January 1970.
pub fn civil_date(days: u64) -> (r: (u64, u64, u64))
    requires
        days <= u64::MAX / DAY,
    ensures
        is_date(days as int, r.0 as int, r.1 as int, r.2 as int),
{
    let mut y: u64 = 1970;
    let mut left: u64 = days;
    loop
        invariant
            days <= u64::MAX / DAY,
            1970 <= y,
            y - 1970 + left <= days,
            days == days_before_year(y as int) + left,
        ensures
            left < year_days(y as int),
        decreases left,
    {
        let n: u64 = if leap(y) {
            366
        } else {
            365
        };
        if left < n {
            break;
        }
        left = left - n;
        y = y + 1;
    }
    proof {
        lemma_months(y as int);
    }
    let mut m: u64 = 1;
    let ghost in_year = left;
    while left >= days_of_month(y, m)
        invariant
            1970 <= y,
            1 <= m <= 12,
            in_year < year_days(y as int),
            days_before_month(y as int, 12) + month_days(y as int, 12) == year_days(y as int),
            in_year == days_before_month(y as int, m as int) + left,
        decreases 12 - m,
    {
        left = left - days_of_month(y, m);
        m = m + 1;
    }
    (y, m, left + 1)
}

/// The moment `secs` seconds after the start of 1970, in ISO 8601.
pub fn chrono_now(secs: u64) -> (r: String)
    ensures
        exists|y: int, m: int, d: int|
            #[trigger] is_date(secs as int / 86400, y, m, d) && r@ == timestamp(
                y,
                m,
                d,
                secs as int % 86400,
            ),
        r@.len() >= 20,
{
    let (y, m, d): (u64, u64, u64) = civil_date(secs / DAY);
    let time: u64 = secs % DAY;
    let mut out = String::new();
    push_padded(&mut out, y, 4);
    out.push('-');
    push_padded(&mut out, m, 2);
    out.push('-');
    push_padded(&mut out, d, 2);
    out.push('T');
    push_padded(&mut out, time / 3600, 2);
    out.push(':');
    push_padded(&mut out, time % 3600 / 60, 2);
    out.push(':');
    push_padded(&mut out, time % 60, 2);
    out.push('Z');
    proof {
        lemma_zeros_len(4 - decimal(y as nat).len());
        lemma_zeros_len(2 - decimal(m as nat).len());
        lemma_zeros_len(2 - decimal(d as nat).len());
        lemma_zeros_len(2 - decimal((time / 3600) as nat).len());
        lemma_zeros_len(2 - decimal((time % 3600 / 60) as nat).len());
        lemma_zeros_len(2 - decimal((time % 60) as nat).len());
    }
    assert(out@ =~= timestamp(y as int, m as int, d as int, time as int));
    assert(is_date(secs as int / 86400, y as int, m as int, d as int));
    out
}

} // verus!
