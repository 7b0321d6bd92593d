//! Rendering of file timestamps: seconds since the Unix epoch become an
//! ISO-8601 string `YYYY-MM-DDThh:mm:ssZ`. The date arithmetic counts
//! leap days, so the rendering is the civil calendar date of the given
//! second, with the month in 1 to 12 and the day within its month.

use vstd::prelude::*;

verus! {

pub open spec fn is_leap(y: int) -> bool {
    y % 4 == 0 && (y % 100 != 0 || y % 400 == 0)
}

pub open spec fn days_in_year(y: int) -> int {
    if is_leap(y) {
        366
    } else {
        365
    }
}

/// Step whole years forward from `(y, rem)` until fewer than a year of
/// days remains; the result is the year and the remaining days.
pub open spec fn step_years(y: int, rem: int) -> (int, int)
    decreases rem,
{
    if rem < days_in_year(y) || rem < 0 {
        (y, rem)
    } else {
        step_years(y + 1, rem - days_in_year(y))
    }
}

/// The length of month `m` of year `y`; February carries the leap day.
pub open spec fn days_in_month(y: int, m: int) -> int {
    if m == 2 {
        if is_leap(y) {
            29
        } else {
            28
        }
    } else if m == 4 || m == 6 || m == 9 || m == 11 {
        30
    } else {
        31
    }
}

/// Step months of year `y` forward from `(m, day)` while the 1-based
/// `day` exceeds the month's length.
pub open spec fn step_months(y: int, m: int, day: int) -> (int, int)
    decreases 13 - m,
{
    if m > 12 || day <= days_in_month(y, m) {
        (m, day)
    } else {
        step_months(y, m + 1, day - days_in_month(y, m))
    }
}

/// The civil date of a second count: year, month and day.
pub open spec fn civil_of(secs: int) -> (int, int, int) {
    let days = secs / 86400;
    let yr = step_years(1970, days);
    let md = step_months(yr.0, 1, yr.1 + 1);
    (yr.0, md.0, md.1)
}

/// The days of the months of year `y` from month `m` to December.
pub open spec fn sum_dims(y: int, m: int) -> int
    decreases 13 - m,
{
    if m > 12 {
        0
    } else {
        days_in_month(y, m) + sum_dims(y, m + 1)
    }
}

/// A year's months sum to the year's days.
proof fn lemma_sum_dims_year(y: int)
    ensures
        sum_dims(y, 1) == days_in_year(y),
{
    assert(sum_dims(y, 13) == 0);
    assert(sum_dims(y, 12) == 31);
    assert(sum_dims(y, 11) == 61);
    assert(sum_dims(y, 10) == 92);
    assert(sum_dims(y, 9) == 122);
    assert(sum_dims(y, 8) == 153);
    assert(sum_dims(y, 7) == 184);
    assert(sum_dims(y, 6) == 214);
    assert(sum_dims(y, 5) == 245);
    assert(sum_dims(y, 4) == 275);
    assert(sum_dims(y, 3) == 306);
    assert(sum_dims(y, 2) == 306 + days_in_month(y, 2));
}

/// Stepping months within a year's worth of days lands on a month in
/// 1 to 12 with the day within that month.
proof fn lemma_step_months_range(y: int, m: int, day: int)
    requires
        1 <= m <= 12,
        1 <= day <= sum_dims(y, m),
    ensures
        ({
            let r = step_months(y, m, day);
            m <= r.0 <= 12 && 1 <= r.1 <= days_in_month(y, r.0)
        }),
    decreases 13 - m,
{
    if day > days_in_month(y, m) {
        assert(m < 12) by {
            if m == 12 {
                assert(sum_dims(y, 13) == 0);
                assert(sum_dims(y, 12) == days_in_month(y, 12));
            }
        }
        lemma_step_months_range(y, m + 1, day - days_in_month(y, m));
    }
}

/// Stepping whole years leaves a day count within the final year.
proof fn lemma_step_years_range(y: int, rem: int)
    requires
        0 <= rem,
    ensures
        ({
            let r = step_years(y, rem);
            y <= r.0 && 0 <= r.1 < days_in_year(r.0)
        }),
    decreases rem,
{
    if !(rem < days_in_year(y)) {
        lemma_step_years_range(y + 1, rem - days_in_year(y));
    }
}

/// The rendered fields are a valid civil date and time of day: the
/// month lies in 1 to 12, the day within its month (so at most 31),
/// and hours, minutes and seconds are in range.
pub proof fn lemma_iso8601_fields_in_range(secs: int)
    requires
        0 <= secs,
    ensures
        1970 <= civil_of(secs).0,
        1 <= civil_of(secs).1 <= 12,
        1 <= civil_of(secs).2 <= days_in_month(civil_of(secs).0, civil_of(secs).1),
        civil_of(secs).2 <= 31,
        0 <= secs % 86400 / 3600 < 24,
        0 <= secs % 86400 % 3600 / 60 < 60,
        0 <= secs % 86400 % 60 < 60,
{
    let days = secs / 86400;
    lemma_step_years_range(1970, days);
    let yr = step_years(1970, days);
    lemma_sum_dims_year(yr.0);
    lemma_step_months_range(yr.0, 1, yr.1 + 1);
}

pub open spec fn dec_digit(d: int) -> char {
    if d == 0 { '0' } else if d == 1 { '1' } else if d == 2 { '2' } else if d == 3 { '3' }
    else if d == 4 { '4' } else if d == 5 { '5' } else if d == 6 { '6' } else if d == 7 { '7' }
    else if d == 8 { '8' } else { '9' }
}

/// The decimal digits of `n`, most significant first, empty for zero.
pub open spec fn dec_digits(n: int) -> Seq<char>
    decreases n,
{
    if n <= 0 {
        Seq::empty()
    } else {
        dec_digits(n / 10).push(dec_digit(n % 10))
    }
}

pub open spec fn dec_string(n: int) -> Seq<char> {
    if n == 0 {
        seq!['0']
    } else {
        dec_digits(n)
    }
}

pub open spec fn zeros(w: int) -> Seq<char>
    decreases w,
{
    if w <= 0 {
        Seq::empty()
    } else {
        zeros(w - 1).push('0')
    }
}

/// `n` in decimal, left-padded with zeros to at least `w` characters.
pub open spec fn zero_pad(n: int, w: int) -> Seq<char> {
    if dec_string(n).len() >= w {
        dec_string(n)
    } else {
        zeros(w - dec_string(n).len()) + dec_string(n)
    }
}

/// The ISO-8601 rendering of a count of seconds since the Unix epoch.
pub open spec fn spec_iso8601(secs: int) -> Seq<char> {
    let c = civil_of(secs);
    let time = secs % 86400;
    zero_pad(c.0, 4) + seq!['-'] + zero_pad(c.1, 2) + seq!['-'] + zero_pad(c.2, 2)
        + seq!['T'] + zero_pad(time / 3600, 2) + seq![':'] + zero_pad((time % 3600) / 60, 2)
        + seq![':'] + zero_pad(time % 60, 2) + seq!['Z']
}

fn dec_digit_exec(d: u64) -> (r: char)
    requires
        d < 10,
    ensures
        r == dec_digit(d as int),
{
    if d == 0 { '0' } else if d == 1 { '1' } else if d == 2 { '2' } else if d == 3 { '3' }
    else if d == 4 { '4' } else if d == 5 { '5' } else if d == 6 { '6' } else if d == 7 { '7' }
    else if d == 8 { '8' } else { '9' }
}

/// Render `n` in decimal, left-padded with zeros to at least `w`
/// characters.
fn pad_dec(n: u64, w: usize) -> (r: Vec<char>)
    requires
        w <= 4,
    ensures
        r@ == zero_pad(n as int, w as int),
{
    let mut low: Vec<char> = Vec::new();
    if n == 0 {
        low.push('0');
        proof {
            assert(low@.reverse() =~= dec_string(n as int));
        }
    } else {
        let mut m: u64 = n;
        while m > 0
            invariant
                dec_digits(n as int) =~= dec_digits(m as int) + low@.reverse(),
            decreases m,
        {
            let d = m % 10;
            let ghost pre = low@;
            low.push(dec_digit_exec(d));
            proof {
                assert(low@.reverse() =~= seq![dec_digit(d as int)] + pre.reverse());
                assert(dec_digits(m as int) == dec_digits(m as int / 10).push(
                    dec_digit(m as int % 10),
                ));
                assert(dec_digits(m as int / 10) + low@.reverse() =~= dec_digits(m as int)
                    + pre.reverse());
            }
            m = m / 10;
        }
        proof {
            assert(low@.reverse() =~= dec_string(n as int));
        }
    }
    let k = low.len();
    let mut r: Vec<char> = Vec::new();
    let mut pad: usize = 0;
    proof {
        assert(low@.reverse().len() == k);
    }
    while pad + k < w
        invariant
            k == low@.len(),
            pad + k <= w || pad == 0,
            r@ =~= zeros(pad as int),
        decreases w - pad,
    {
        r.push('0');
        proof {
            assert(r@ =~= zeros(pad + 1));
        }
        pad = pad + 1;
    }
    let ghost npad = pad as int;
    let mut j: usize = 0;
    while j < k
        invariant
            0 <= j <= k,
            k == low@.len(),
            r@ =~= zeros(npad) + low@.reverse().subrange(0, j as int),
        decreases k - j,
    {
        r.push(low[k - 1 - j]);
        proof {
            assert(low@.reverse()[j as int] == low@[k - 1 - j]);
            assert(r@ =~= zeros(npad) + low@.reverse().subrange(0, j + 1));
        }
        j = j + 1;
    }
    proof {
        assert(low@.reverse().subrange(0, k as int) =~= low@.reverse());
        assert(dec_string(n as int).len() == k);
        if k >= w {
            assert(npad == 0);
            assert(zeros(0) =~= Seq::<char>::empty());
            assert(r@ =~= zero_pad(n as int, w as int));
        } else {
            assert(npad == w - k);
            assert(r@ =~= zero_pad(n as int, w as int));
        }
    }
    r
}

/// The ISO-8601 string for a count of seconds since the Unix epoch, as
/// stored in a note's `created`/`modified` fields.
pub fn format_timestamp(secs: u64) -> (r: String)
    ensures
        r@ == spec_iso8601(secs as int),
{
    let days = secs / 86400;
    let time = secs % 86400;
    let mut year: u64 = 1970;
    let mut rem: u64 = days;
    while rem >= days_in_year_exec(year)
        invariant
            1970 <= year,
            365 * (year - 1970) + rem <= days,
            step_years(1970, days as int) == step_years(year as int, rem as int),
        decreases rem,
    {
        let diy: u64 = days_in_year_exec(year);
        rem = rem - diy;
        year = year + 1;
    }
    proof {
        assert(step_years(year as int, rem as int) == (year as int, rem as int));
    }
    let mut month: u64 = 1;
    let mut day: u64 = rem + 1;
    while month <= 12 && day > days_in_month_exec(year, month)
        invariant
            1 <= month <= 13,
            1 <= day <= 367,
            step_months(year as int, 1, rem + 1) == step_months(
                year as int,
                month as int,
                day as int,
            ),
        decreases 13 - month,
    {
        day = day - days_in_month_exec(year, month);
        month = month + 1;
    }
    proof {
        assert(step_months(year as int, month as int, day as int) == (
            month as int,
            day as int,
        ));
    }
    let hours = time / 3600;
    let minutes = (time % 3600) / 60;
    let seconds = time % 60;
    let mut out = pad_dec(year, 4);
    out.push('-');
    let mut p = pad_dec(month, 2);
    out.append(&mut p);
    out.push('-');
    let mut p = pad_dec(day, 2);
    out.append(&mut p);
    out.push('T');
    let mut p = pad_dec(hours, 2);
    out.append(&mut p);
    out.push(':');
    let mut p = pad_dec(minutes, 2);
    out.append(&mut p);
    out.push(':');
    let mut p = pad_dec(seconds, 2);
    out.append(&mut p);
    out.push('Z');
    proof {
        assert(out@ =~= spec_iso8601(secs as int));
    }
    crate::text::string_from_chars(&out)
}

fn days_in_year_exec(y: u64) -> (r: u64)
    ensures
        r as int == days_in_year(y as int),
{
    if y % 4 == 0 && (y % 100 != 0 || y % 400 == 0) {
        366
    } else {
        365
    }
}

fn days_in_month_exec(y: u64, m: u64) -> (r: u64)
    ensures
        r as int == days_in_month(y as int, m as int),
{
    if m == 2 {
        if y % 4 == 0 && (y % 100 != 0 || y % 400 == 0) {
            29
        } else {
            28
        }
    } else if m == 4 || m == 6 || m == 9 || m == 11 {
        30
    } else {
        31
    }
}

} // verus!
