//! Proleptic Gregorian calendar arithmetic: the UTC date and time of a
//! count of seconds since the Unix epoch.

use vstd::prelude::*;
use crate::render::{digits_of, push_digits};
use crate::text::{chars_of, string_from_chars};

verus! {

/// Leap years of the Gregorian calendar.
pub open spec fn is_leap(y: int) -> bool {
    y % 4 == 0 && (y % 100 != 0 || y % 400 == 0)
}

/// Number of days of year `y`.
pub open spec fn year_days(y: int) -> int {
    if is_leap(y) {
        366
    } else {
        365
    }
}

/// Number of days of month `m` (1 to 12) of year `y`.
pub open spec fn month_days(y: int, m: int) -> int {
    if m == 2 {
        if is_leap(y) {
            29
        } else {
            28
        }
    } else if m == 4 || m == 6 || m == 9 || m == 11 {
        30
    } else {
        31
    }
}

/// Days of year `y` before the first day of month `m` (1 to 13).
pub open spec fn days_before_month(y: int, m: int) -> int
    decreases m,
{
    if m <= 1 {
        0
    } else {
        days_before_month(y, m - 1) + month_days(y, m - 1)
    }
}

/// Day number (days since 1970-01-01) of January 1 of year `y`.
pub open spec fn year_start(y: int) -> int
    decreases (if y >= 1970 {
        y - 1970
    } else {
        1970 - y
    }),
{
    if y == 1970 {
        0
    } else if y > 1970 {
        year_start(y - 1) + year_days(y - 1)
    } else {
        year_start(y + 1) - year_days(y)
    }
}

/// Day number of the date `y-m-d`.
pub open spec fn day_number(y: int, m: int, d: int) -> int {
    year_start(y) + days_before_month(y, m) + d - 1
}

/// `y-m-d` is a date of the calendar.
pub open spec fn valid_date(y: int, m: int, d: int) -> bool {
    1 <= m <= 12 && 1 <= d <= month_days(y, m)
}

proof fn lemma_year_start_step(y: int)
    ensures
        year_start(y + 1) == year_start(y) + year_days(y),
{
}

/// Leap years up to and including year `x`, counted from a fixed origin.
spec fn leaps_through(x: int) -> int {
    x / 4 - x / 100 + x / 400
}

proof fn lemma_div_step(y: int, d: int)
    requires
        d > 0,
    ensures
        y / d - (y - 1) / d == if y % d == 0 {
            1int
        } else {
            0int
        },
{
    vstd::arithmetic::div_mod::lemma_fundamental_div_mod(y, d);
    vstd::arithmetic::div_mod::lemma_fundamental_div_mod(y - 1, d);
    vstd::arithmetic::div_mod::lemma_mod_bound(y, d);
    vstd::arithmetic::div_mod::lemma_mod_bound(y - 1, d);
    let q1 = y / d;
    let r1 = y % d;
    let q0 = (y - 1) / d;
    let r0 = (y - 1) % d;
    assert(q1 - q0 == if r1 == 0 {
        1int
    } else {
        0int
    }) by (nonlinear_arith)
        requires
            y == d * q1 + r1,
            y - 1 == d * q0 + r0,
            0 <= r1 < d,
            0 <= r0 < d,
            d > 0,
    {
        assert(d * (q1 - q0) == r0 - r1 + 1);
        if q1 - q0 >= 2 {
            assert(d * (q1 - q0) >= d * 2);
        }
        if q1 - q0 <= -1 {
            assert(d * (q1 - q0) <= d * -1);
        }
    }
}

proof fn lemma_leap_step(y: int)
    ensures
        leaps_through(y) - leaps_through(y - 1) == if is_leap(y) {
            1int
        } else {
            0int
        },
{
    lemma_div_step(y, 4);
    lemma_div_step(y, 100);
    lemma_div_step(y, 400);
    vstd::arithmetic::div_mod::lemma_fundamental_div_mod(y, 100);
    vstd::arithmetic::div_mod::lemma_fundamental_div_mod(y, 400);
    if y % 100 == 0 {
        vstd::arithmetic::div_mod::lemma_mod_multiples_vanish(25 * (y / 100), 0, 4);
        assert(4 * (25 * (y / 100)) + 0 == y);
    }
    if y % 400 == 0 {
        vstd::arithmetic::div_mod::lemma_mod_multiples_vanish(4 * (y / 400), 0, 100);
        assert(100 * (4 * (y / 400)) + 0 == y);
    }
}

/// Day number of January 1 in closed form.
proof fn lemma_year_start_closed(y: int)
    ensures
        year_start(y) == 365 * (y - 1970) + leaps_through(y - 1) - leaps_through(1969),
    decreases (if y >= 1970 {
        y - 1970
    } else {
        1970 - y
    }),
{
    if y > 1970 {
        lemma_year_start_closed(y - 1);
        lemma_leap_step(y - 1);
    } else if y < 1970 {
        lemma_year_start_closed(y + 1);
        lemma_leap_step(y);
    }
}

proof fn lemma_div_period(x: int, d: int, k: int)
    requires
        d > 0,
        k >= 0,
    ensures
        (x + d * k) / d == x / d + k,
{
    vstd::arithmetic::div_mod::lemma_fundamental_div_mod(x, d);
    vstd::arithmetic::div_mod::lemma_fundamental_div_mod(x + d * k, d);
    vstd::arithmetic::div_mod::lemma_mod_multiples_vanish(k, x, d);
    assert(d * k + x == x + d * k);
    let a = (x + d * k) / d;
    let b = x / d;
    assert(a == b + k) by (nonlinear_arith)
        requires
            x + d * k == d * a + (x + d * k) % d,
            x == d * b + x % d,
            (x + d * k) % d == x % d,
            d > 0,
    {
        assert(d * (a - b - k) == 0);
    }
}

/// Four hundred consecutive years hold 146097 days.
proof fn lemma_cycle(y: int)
    ensures
        year_start(y + 400) == year_start(y) + 146097,
{
    lemma_year_start_closed(y);
    lemma_year_start_closed(y + 400);
    lemma_div_period(y - 1, 4, 100);
    lemma_div_period(y - 1, 100, 4);
    lemma_div_period(y - 1, 400, 1);
    assert(y + 400 - 1 == y - 1 + 4 * 100);
    assert(y + 400 - 1 == y - 1 + 100 * 4);
    assert(y + 400 - 1 == y - 1 + 400 * 1);
}

/// `q` cycles of four hundred years from 1970.
proof fn lemma_cycles(q: int)
    ensures
        year_start(1970 + 400 * q) == 146097 * q,
    decreases (if q >= 0 {
        q
    } else {
        -q
    }),
{
    if q > 0 {
        lemma_cycles(q - 1);
        lemma_cycle(1970 + 400 * (q - 1));
    } else if q < 0 {
        lemma_cycles(q + 1);
        lemma_cycle(1970 + 400 * q);
    }
}

proof fn lemma_months_total(y: int)
    ensures
        days_before_month(y, 13) == year_days(y),
{
    reveal_with_fuel(days_before_month, 13);
}

fn is_leap_exec(y: i64) -> (r: bool)
    ensures
        r == is_leap(y as int),
{
    let a = match y.checked_rem_euclid(4) {
        Some(v) => v,
        None => 1,
    };
    let b = match y.checked_rem_euclid(100) {
        Some(v) => v,
        None => 1,
    };
    let c = match y.checked_rem_euclid(400) {
        Some(v) => v,
        None => 1,
    };
    a == 0 && (b != 0 || c == 0)
}

fn year_days_exec(y: i64) -> (r: i64)
    ensures
        r == year_days(y as int),
{
    if is_leap_exec(y) {
        366
    } else {
        365
    }
}

fn month_days_exec(y: i64, m: i64) -> (r: i64)
    ensures
        r == month_days(y as int, m as int),
{
    if m == 2 {
        if is_leap_exec(y) {
            29
        } else {
            28
        }
    } else if m == 4 || m == 6 || m == 9 || m == 11 {
        30
    } else {
        31
    }
}

/// The calendar date `(year, month, day)` with day number `days`.
pub fn civil_from_days(days: i64) -> (r: (i64, i64, i64))
    ensures
        valid_date(r.0 as int, r.1 as int, r.2 as int),
        day_number(r.0 as int, r.1 as int, r.2 as int) == days,
{
    let q: i64 = match days.checked_div_euclid(146097) {
        Some(v) => v,
        None => 0,
    };
    let r0: i64 = match days.checked_rem_euclid(146097) {
        Some(v) => v,
        None => 0,
    };
    proof {
        vstd::arithmetic::div_mod::lemma_fundamental_div_mod(days as int, 146097);
        vstd::arithmetic::div_mod::lemma_mod_bound(days as int, 146097);
        lemma_cycles(q as int);
    }
    let y0: i64 = 1970 + 400 * q;
    let mut y: i64 = y0;
    let mut r: i64 = r0;
    while r >= year_days_exec(y)
        invariant
            year_start(y as int) + r == days,
            0 <= r <= r0 < 146097,
            y0 <= y,
            365 * (y - y0) + r <= r0,
            y0 == 1970 + 400 * q,
            -70000000000000 <= q <= 70000000000000,
        decreases r,
    {
        proof {
            lemma_year_start_step(y as int);
        }
        r = r - year_days_exec(y);
        y = y + 1;
    }
    let ry = r;
    let mut m: i64 = 1;
    proof {
        lemma_months_total(y as int);
    }
    while r >= month_days_exec(y, m)
        invariant
            1 <= m <= 12,
            0 <= r,
            days_before_month(y as int, m as int) + r == ry,
            ry < year_days(y as int),
            days_before_month(y as int, 13) == year_days(y as int),
        decreases r,
    {
        r = r - month_days_exec(y, m);
        m = m + 1;
    }
    (y, m, r + 1)
}

proof fn lemma_year_start_mono(y1: int, y2: int)
    requires
        y1 < y2,
    ensures
        year_start(y1) + year_days(y1) <= year_start(y2),
    decreases y2 - y1,
{
    lemma_year_start_step(y1);
    if y2 > y1 + 1 {
        lemma_year_start_mono(y1 + 1, y2);
    }
}

proof fn lemma_month_mono(y: int, m1: int, m2: int)
    requires
        1 <= m1 < m2,
    ensures
        days_before_month(y, m1) + month_days(y, m1) <= days_before_month(y, m2),
    decreases m2 - m1,
{
    if m2 > m1 + 1 {
        lemma_month_mono(y, m1 + 1, m2);
    }
}

proof fn lemma_in_year(y: int, m: int, d: int)
    requires
        valid_date(y, m, d),
    ensures
        0 <= days_before_month(y, m) + d - 1 < year_days(y),
{
    lemma_months_total(y);
    if m < 13 {
        lemma_month_mono(y, m, 13);
    }
    assert(days_before_month(y, m) >= 0) by {
        lemma_months_nonneg(y, m);
    }
}

proof fn lemma_months_nonneg(y: int, m: int)
    ensures
        days_before_month(y, m) >= 0,
    decreases m,
{
    if m > 1 {
        lemma_months_nonneg(y, m - 1);
    }
}

/// Distinct dates have distinct day numbers.
pub proof fn lemma_day_number_injective(y1: int, m1: int, d1: int, y2: int, m2: int, d2: int)
    requires
        valid_date(y1, m1, d1),
        valid_date(y2, m2, d2),
        day_number(y1, m1, d1) == day_number(y2, m2, d2),
    ensures
        y1 == y2 && m1 == m2 && d1 == d2,
{
    lemma_in_year(y1, m1, d1);
    lemma_in_year(y2, m2, d2);
    if y1 < y2 {
        lemma_year_start_mono(y1, y2);
    } else if y2 < y1 {
        lemma_year_start_mono(y2, y1);
    }
    if m1 < m2 {
        lemma_month_mono(y1, m1, m2);
    } else if m2 < m1 {
        lemma_month_mono(y1, m2, m1);
    }
}

/// The date with day number `n` (days since 1970-01-01).
pub open spec fn civil_date(n: int) -> (int, int, int) {
    choose|y: int, m: int, d: int| valid_date(y, m, d) && day_number(y, m, d) == n
}

/// Zeros to fill a field of width `k` (none when `k` is not positive).
pub open spec fn zeros(k: int) -> Seq<char> {
    Seq::new(if k > 0 {
        k as nat
    } else {
        0
    }, |i: int| '0')
}

/// Decimal text of `n` zero-padded to width `w`, the sign first (as the
/// `{:0w}` format writes an integer).
pub open spec fn zero_pad(n: int, w: int) -> Seq<char> {
    if n < 0 {
        seq!['-'] + zeros(w - 1 - digits_of((-n) as nat).len()) + digits_of((-n) as nat)
    } else {
        zeros(w - digits_of(n as nat).len()) + digits_of(n as nat)
    }
}

/// `yyyy-mm-dd hh:mm UTC` for `secs` seconds after the Unix epoch.
pub open spec fn utc_stamp_spec(secs: int) -> Seq<char> {
    let date = civil_date(secs / 86400);
    let t = secs % 86400;
    zero_pad(date.0, 4) + "-"@ + zero_pad(date.1, 2) + "-"@ + zero_pad(date.2, 2) + " "@ + zero_pad(
        t / 3600,
        2,
    ) + ":"@ + zero_pad((t % 3600) / 60, 2) + " UTC"@
}

fn push_zero_padded(out: &mut Vec<char>, n: i64, w: usize)
    requires
        w <= 8,
    ensures
        final(out)@ == old(out)@ + zero_pad(n as int, w as int),
{
    let mut digits: Vec<char> = Vec::new();
    let width: usize;
    if n < 0 {
        out.push('-');
        push_digits(&mut digits, (-(n as i128)) as u64);
        width = if w >= 1 {
            w - 1
        } else {
            0
        };
    } else {
        push_digits(&mut digits, n as u64);
        width = w;
    }
    let ghost before = out@;
    let mut k: usize = digits.len();
    while k < width
        invariant
            digits.len() <= k <= width || (width <= digits.len() && k == digits.len()),
            out@ == before + zeros(k - digits.len()),
        decreases width - k,
    {
        out.push('0');
        k = k + 1;
        proof {
            assert(out@ =~= before + zeros(k - digits.len()));
        }
    }
    out.append(&mut digits);
    proof {
        if n < 0 {
            assert(zeros(w as int - 1 - digits_of((-n) as nat).len()) =~= zeros(k - digits_of((-n) as nat).len()));
        } else {
            assert(zeros(w as int - digits_of(n as nat).len()) =~= zeros(k - digits_of(n as nat).len()));
        }
        assert(out@ =~= old(out)@ + zero_pad(n as int, w as int));
    }
}

/// `yyyy-mm-dd hh:mm UTC` for `secs` seconds after the Unix epoch (see
/// [`utc_stamp_spec`]).
pub fn utc_stamp(secs: i64) -> (r: String)
    ensures
        r@ == utc_stamp_spec(secs as int),
{
    let days: i64 = match secs.checked_div_euclid(86400) {
        Some(v) => v,
        None => 0,
    };
    let t: i64 = match secs.checked_rem_euclid(86400) {
        Some(v) => v,
        None => 0,
    };
    proof {
        vstd::arithmetic::div_mod::lemma_mod_bound(secs as int, 86400);
    }
    let (y, m, d) = civil_from_days(days);
    proof {
        let c = civil_date(days as int);
        assert(valid_date(c.0, c.1, c.2) && day_number(c.0, c.1, c.2) == days);
        lemma_day_number_injective(y as int, m as int, d as int, c.0, c.1, c.2);
    }
    let mut out: Vec<char> = Vec::new();
    push_zero_padded(&mut out, y, 4);
    out.push('-');
    push_zero_padded(&mut out, m, 2);
    out.push('-');
    push_zero_padded(&mut out, d, 2);
    out.push(' ');
    push_zero_padded(&mut out, t / 3600, 2);
    out.push(':');
    push_zero_padded(&mut out, (t % 3600) / 60, 2);
    let mut tail = chars_of(" UTC");
    out.append(&mut tail);
    proof {
        reveal_strlit("-");
        reveal_strlit(" ");
        reveal_strlit(":");
        reveal_strlit(" UTC");
        assert(out@ =~= utc_stamp_spec(secs as int));
    }
    string_from_chars(&out)
}

} // verus!
