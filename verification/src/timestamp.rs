//! UTC timestamps as RFC 3339 strings (`2026-06-18T11:45:32Z`) in the
//! proleptic Gregorian calendar, computed without a date crate.

use vstd::prelude::*;
use crate::text::push_char;

verus! {

/// A leap year of the Gregorian calendar.
pub open spec fn is_leap(y: int) -> bool {
    (y % 4 == 0 && y % 100 != 0) || y % 400 == 0
}

/// Days in year `y`.
pub open spec fn year_len(y: int) -> int {
    if is_leap(y) {
        366
    } else {
        365
    }
}

/// Days in month `m` (1..=12) of year `y`.
pub open spec fn month_len(y: int, m: int) -> int {
    if m == 2 {
        if is_leap(y) {
            29
        } else {
            28
        }
    } else if m == 4 || m == 6 || m == 9 || m == 11 {
        30
    } else {
        31
    }
}

/// Days in the months of year `y` before month `m`.
pub open spec fn days_before_month(y: int, m: int) -> int
    decreases m,
{
    if m <= 1 {
        0
    } else {
        days_before_month(y, m - 1) + month_len(y, m - 1)
    }
}

/// The leap days in the years `1..=x` (negative `x` counts backwards).
pub open spec fn leaps_through(x: int) -> int {
    x / 4 - x / 100 + x / 400
}

/// Days from 1970-01-01 to the first day of year `y`.
pub open spec fn days_from_year(y: int) -> int {
    365 * (y - 1970) + leaps_through(y - 1) - leaps_through(1969)
}

/// A real calendar date.
pub open spec fn valid_date(y: int, m: int, d: int) -> bool {
    1 <= m <= 12 && 1 <= d <= month_len(y, m)
}

/// Days from 1970-01-01 to `y-m-d`.
pub open spec fn civil_days(y: int, m: int, d: int) -> int {
    days_from_year(y) + days_before_month(y, m) + d - 1
}

proof fn lemma_div_step(x: int, n: int)
    requires
        n > 0,
    ensures
        x / n - (x - 1) / n == if x % n == 0 {
            1int
        } else {
            0int
        },
{
    vstd::arithmetic::div_mod::lemma_fundamental_div_mod(x, n);
    vstd::arithmetic::div_mod::lemma_fundamental_div_mod(x - 1, n);
    let q = x / n;
    let r = x % n;
    assert(x == q * n + r) by (nonlinear_arith)
        requires
            x == n * (x / n) + x % n,
            q == x / n,
            r == x % n,
    ;
    if r == 0 {
        assert(x - 1 == (q - 1) * n + (n - 1)) by (nonlinear_arith)
            requires
                x == q * n + r,
                r == 0,
        ;
        vstd::arithmetic::div_mod::lemma_fundamental_div_mod_converse(x - 1, n, q - 1, n - 1);
    } else {
        vstd::arithmetic::div_mod::lemma_fundamental_div_mod_converse(x - 1, n, q, r - 1);
    }
}

/// Each year adds its own length: the closed form agrees with the leap rule.
pub proof fn lemma_year_step(y: int)
    ensures
        days_from_year(y + 1) - days_from_year(y) == year_len(y),
{
    lemma_div_step(y, 4);
    lemma_div_step(y, 100);
    lemma_div_step(y, 400);
    assert(y % 400 == 0 ==> y % 100 == 0 && y % 4 == 0) by {
        if y % 400 == 0 {
            vstd::arithmetic::div_mod::lemma_fundamental_div_mod(y, 400);
            let k = y / 400;
            assert(y == (4 * k) * 100 + 0 && y == (100 * k) * 4 + 0) by (nonlinear_arith)
                requires
                    y == 400 * k + 0,
            ;
            vstd::arithmetic::div_mod::lemma_fundamental_div_mod_converse(y, 100, 4 * k, 0);
            vstd::arithmetic::div_mod::lemma_fundamental_div_mod_converse(y, 4, 100 * k, 0);
        }
    }
    assert(y % 100 == 0 ==> y % 4 == 0) by {
        if y % 100 == 0 {
            vstd::arithmetic::div_mod::lemma_fundamental_div_mod(y, 100);
            let k = y / 100;
            assert(y == (25 * k) * 4 + 0) by (nonlinear_arith)
                requires
                    y == 100 * k + 0,
            ;
            vstd::arithmetic::div_mod::lemma_fundamental_div_mod_converse(y, 4, 25 * k, 0);
        }
    }
}

proof fn lemma_era(k: int)
    ensures
        days_from_year(1970 + 400 * k) == 146097 * k,
{
    assert(1969 + 400 * k == (1969int / 4 + 100 * k) * 4 + 1969int % 4);
    assert(1969 + 400 * k == (1969int / 100 + 4 * k) * 100 + 1969int % 100);
    assert(1969 + 400 * k == (1969int / 400 + k) * 400 + 1969int % 400);
    vstd::arithmetic::div_mod::lemma_fundamental_div_mod(1969, 4);
    vstd::arithmetic::div_mod::lemma_fundamental_div_mod(1969, 100);
    vstd::arithmetic::div_mod::lemma_fundamental_div_mod(1969, 400);
    vstd::arithmetic::div_mod::lemma_fundamental_div_mod_converse(1969 + 400 * k, 4, 1969int / 4 + 100 * k, 1969int % 4);
    vstd::arithmetic::div_mod::lemma_fundamental_div_mod_converse(1969 + 400 * k, 100, 1969int / 100 + 4 * k, 1969int % 100);
    vstd::arithmetic::div_mod::lemma_fundamental_div_mod_converse(1969 + 400 * k, 400, 1969int / 400 + k, 1969int % 400);
}

proof fn lemma_year_mono(y: int, n: nat)
    ensures
        days_from_year(y + n) - days_from_year(y) >= 365 * n,
    decreases n,
{
    if n > 0 {
        lemma_year_mono(y, (n - 1) as nat);
        lemma_year_step(y + n - 1);
    }
}

proof fn lemma_months(y: int)
    ensures
        days_before_month(y, 13) == year_len(y),
        forall|m: int| 1 <= m <= 12 ==> days_before_month(y, m + 1) == #[trigger] days_before_month(y, m) + month_len(y, m),
{
    reveal_with_fuel(days_before_month, 13);
}

proof fn lemma_month_mono(y: int, m1: int, m2: int)
    requires
        1 <= m1 <= m2 <= 13,
    ensures
        days_before_month(y, m2) - days_before_month(y, m1) >= 28 * (m2 - m1),
    decreases m2 - m1,
{
    if m1 < m2 {
        lemma_month_mono(y, m1, m2 - 1);
    }
}

proof fn lemma_civil_bounds(y: int, m: int, d: int)
    requires
        valid_date(y, m, d),
    ensures
        days_from_year(y) <= civil_days(y, m, d) < days_from_year(y + 1),
        days_before_month(y, m) <= days_before_month(y, m) + d - 1 < days_before_month(y, m + 1),
{
    lemma_months(y);
    lemma_month_mono(y, m + 1, 13);
    lemma_year_step(y);
}

proof fn lemma_year_order(y1: int, y2: int)
    requires
        y1 < y2,
    ensures
        days_from_year(y1 + 1) <= days_from_year(y2),
{
    lemma_year_mono(y1 + 1, (y2 - y1 - 1) as nat);
}

/// A day number names one date only.
pub proof fn lemma_civil_days_injective(y1: int, m1: int, d1: int, y2: int, m2: int, d2: int)
    requires
        valid_date(y1, m1, d1),
        valid_date(y2, m2, d2),
        civil_days(y1, m1, d1) == civil_days(y2, m2, d2),
    ensures
        y1 == y2 && m1 == m2 && d1 == d2,
{
    lemma_civil_bounds(y1, m1, d1);
    lemma_civil_bounds(y2, m2, d2);
    if y1 < y2 {
        lemma_year_order(y1, y2);
    } else if y2 < y1 {
        lemma_year_order(y2, y1);
    }
    assert(y1 == y2);
    if m1 < m2 {
        lemma_month_mono(y1, m1 + 1, m2);
    } else if m2 < m1 {
        lemma_month_mono(y1, m2 + 1, m1);
    }
}

/// The date of day number `days` (counted from 1970-01-01).
pub open spec fn date_of(days: int) -> (int, int, int) {
    choose|ymd: (int, int, int)| valid_date(ymd.0, ymd.1, ymd.2) && civil_days(ymd.0, ymd.1, ymd.2) == days
}

/// The decimal digits of `n`.
pub open spec fn digits(n: nat) -> Seq<char>
    decreases n,
{
    if n < 10 {
        seq![digit_char(n)]
    } else {
        digits(n / 10).push(digit_char(n % 10))
    }
}

/// The character of a decimal digit.
pub open spec fn digit_char(d: nat) -> char {
    if d == 0 { '0' }
    else if d == 1 { '1' }
    else if d == 2 { '2' }
    else if d == 3 { '3' }
    else if d == 4 { '4' }
    else if d == 5 { '5' }
    else if d == 6 { '6' }
    else if d == 7 { '7' }
    else if d == 8 { '8' }
    else { '9' }
}

/// `n` in decimal, left-padded with zeros to at least `w` characters.
pub open spec fn zero_pad(n: nat, w: nat) -> Seq<char> {
    let ds = digits(n);
    if ds.len() >= w {
        ds
    } else {
        Seq::new((w - ds.len()) as nat, |i: int| '0') + ds
    }
}

/// `format!("{:04}", y)`: a negative year keeps its sign in front of the
/// zero padding, within the same width.
pub open spec fn year_text(y: int) -> Seq<char> {
    if y >= 0 {
        zero_pad(y as nat, 4)
    } else {
        seq!['-'] + zero_pad((-y) as nat, 3)
    }
}

/// The RFC 3339 text of a Unix time in seconds.
pub open spec fn rfc3339_text(secs: int) -> Seq<char> {
    let days = secs / 86400;
    let rem = secs % 86400;
    let (y, m, d) = date_of(days);
    year_text(y) + seq!['-'] + zero_pad(m as nat, 2) + seq!['-'] + zero_pad(d as nat, 2) + seq!['T']
        + zero_pad((rem / 3600) as nat, 2) + seq![':'] + zero_pad(((rem % 3600) / 60) as nat, 2)
        + seq![':'] + zero_pad((rem % 60) as nat, 2) + seq!['Z']
}

/// `10` to the power `w`.
pub open spec fn ten_pow(w: nat) -> nat
    decreases w,
{
    if w == 0 { 1 } else { 10 * ten_pow((w - 1) as nat) }
}

proof fn lemma_digits_len(n: nat, w: nat)
    requires
        w >= 1,
        n < ten_pow(w),
    ensures
        digits(n).len() <= w,
    decreases n,
{
    if n >= 10 {
        assert(w >= 2) by {
            if w == 1 {
                assert(ten_pow(1) == 10 * ten_pow(0));
            }
        }
        assert(ten_pow(w) == 10 * ten_pow((w - 1) as nat));
        assert(n / 10 < ten_pow((w - 1) as nat));
        lemma_digits_len(n / 10, (w - 1) as nat);
    }
}

proof fn lemma_pad_len(n: nat, w: nat)
    requires
        w >= 1,
        n < ten_pow(w),
    ensures
        zero_pad(n, w).len() == w,
{
    lemma_digits_len(n, w);
}

proof fn lemma_rfc3339_ends(secs: int)
    ensures
        rfc3339_text(secs).len() >= 20,
        rfc3339_text(secs).last() == 'Z',
{
}

/// The RFC 3339 text of a time whose date `(y, m, d)` has a four-digit
/// year: twenty characters, ending in `Z`.
proof fn lemma_rfc3339_shape(secs: int, y: int, m: int, d: int)
    requires
        valid_date(y, m, d),
        date_of(secs / 86400) == (y, m, d),
        0 <= y < 10000,
    ensures
        rfc3339_text(secs).len() == 20,
{
    reveal_with_fuel(ten_pow, 5);
    let rem = secs % 86400;
    lemma_pad_len(y as nat, 4);
    lemma_pad_len(m as nat, 2);
    lemma_pad_len(d as nat, 2);
    lemma_pad_len((rem / 3600) as nat, 2);
    lemma_pad_len(((rem % 3600) / 60) as nat, 2);
    lemma_pad_len((rem % 60) as nat, 2);
}

fn digit_of(d: u128) -> (c: char)
    requires
        d < 10,
    ensures
        c == digit_char(d as nat),
{
    if d == 0 { '0' }
    else if d == 1 { '1' }
    else if d == 2 { '2' }
    else if d == 3 { '3' }
    else if d == 4 { '4' }
    else if d == 5 { '5' }
    else if d == 6 { '6' }
    else if d == 7 { '7' }
    else if d == 8 { '8' }
    else { '9' }
}

fn digits_of(n: u128) -> (r: Vec<char>)
    ensures
        r@ == digits(n as nat),
    decreases n,
{
    if n < 10 {
        let mut v: Vec<char> = Vec::new();
        v.push(digit_of(n));
        assert(v@ =~= seq![digit_char(n as nat)]);
        v
    } else {
        let mut v = digits_of(n / 10);
        v.push(digit_of(n % 10));
        v
    }
}

fn push_padded(out: &mut String, n: u128, w: usize)
    ensures
        final(out)@ == old(out)@ + zero_pad(n as nat, w as nat),
{
    let ds = digits_of(n);
    let ghost start = out@;
    if ds.len() < w {
        let mut k: usize = 0;
        while k < w - ds.len()
            invariant
                ds.len() < w,
                k <= w - ds.len(),
                out@ == start + Seq::new(k as nat, |i: int| '0'),
            decreases w - ds.len() - k,
        {
            push_char(out, '0');
            k = k + 1;
            assert(out@ =~= start + Seq::new(k as nat, |i: int| '0'));
        }
    }
    let ghost mid = out@;
    let mut j: usize = 0;
    while j < ds.len()
        invariant
            j <= ds@.len(),
            out@ == mid + ds@.take(j as int),
        decreases ds.len() - j,
    {
        push_char(out, ds[j]);
        j = j + 1;
        assert(out@ =~= mid + ds@.take(j as int));
    }
    assert(ds@.take(ds@.len() as int) =~= ds@);
    assert(out@ =~= start + zero_pad(n as nat, w as nat));
}

const ERA_DAYS: u128 = 146097;

/// Seconds in a whole number of 400-year eras, at least 2^63, so that any
/// `i64` time shifted by it is non-negative.
const SHIFT_ERAS: u128 = 730692562;

fn year_length(y: i128) -> (n: u128)
    ensures
        n == year_len(y as int),
{
    if (y % 4 == 0 && y % 100 != 0) || y % 400 == 0 {
        366
    } else {
        365
    }
}

fn month_length(y: i128, m: u128) -> (n: u128)
    ensures
        n == month_len(y as int, m as int),
{
    if m == 2 {
        if (y % 4 == 0 && y % 100 != 0) || y % 400 == 0 {
            29
        } else {
            28
        }
    } else if m == 4 || m == 6 || m == 9 || m == 11 {
        30
    } else {
        31
    }
}

/// The civil date of the day `era * 146097 + r` days after 1970-01-01.
fn civil_in_era(era: i128, r: u128) -> (ymd: (i128, u128, u128))
    requires
        r < ERA_DAYS,
        -1_000_000_000_000_000 < era < 1_000_000_000_000_000,
    ensures
        valid_date(ymd.0 as int, ymd.1 as int, ymd.2 as int),
        civil_days(ymd.0 as int, ymd.1 as int, ymd.2 as int) == era * 146097 + r,
        -1_000_000_000_000_000_000 < ymd.0 < 1_000_000_000_000_000_000,
{
    let base: i128 = 1970 + 400 * era;
    proof {
        lemma_era(era as int);
    }
    let mut y: i128 = base;
    let mut rem: u128 = r;
    loop
        invariant
            base == 1970 + 400 * era,
            -1_000_000_000_000_000 < era < 1_000_000_000_000_000,
            base <= y <= base + 400,
            days_from_year(y as int) + rem == era * 146097 + r,
            days_from_year(base as int) == era * 146097,
            r < ERA_DAYS,
        ensures
            base <= y <= base + 400,
            days_from_year(y as int) + rem == era * 146097 + r,
            rem < year_len(y as int),
        decreases rem,
    {
        let len = year_length(y);
        if rem < len {
            break;
        }
        proof {
            lemma_year_step(y as int);
            lemma_year_mono(base as int, (y + 1 - base) as nat);
        }
        rem = rem - len;
        y = y + 1;
    }
    let year_rem = rem;
    proof {
        lemma_months(y as int);
    }
    let mut m: u128 = 1;
    loop
        invariant
            1 <= m <= 12,
            days_before_month(y as int, m as int) + rem == year_rem,
            year_rem < year_len(y as int),
            days_before_month(y as int, 13) == year_len(y as int),
            forall|k: int| 1 <= k <= 12 ==> days_before_month(y as int, k + 1) == #[trigger] days_before_month(y as int, k) + month_len(y as int, k),
        ensures
            1 <= m <= 12,
            days_before_month(y as int, m as int) + rem == year_rem,
            rem < month_len(y as int, m as int),
        decreases rem,
    {
        let len = month_length(y, m);
        if rem < len {
            break;
        }
        assert(days_before_month(y as int, m as int + 1) == days_before_month(y as int, m as int) + len);
        if m == 12 {
            assert(false);
        }
        rem = rem - len;
        m = m + 1;
    }
    (y, m, rem + 1)
}

/// The proleptic Gregorian date (year, month, day) of day number `days`
/// counted from 1970-01-01: a valid date whose day number is `days`.
pub fn civil_from_days(days: i64) -> (ymd: (i64, u32, u32))
    ensures
        valid_date(ymd.0 as int, ymd.1 as int, ymd.2 as int),
        civil_days(ymd.0 as int, ymd.1 as int, ymd.2 as int) == days,
{
    let shift_eras: i128 = 63_200_000_000_000;
    let u: u128 = (days as i128 + 146097 * shift_eras) as u128;
    let era_shifted = u / ERA_DAYS;
    let r = u % ERA_DAYS;
    let era: i128 = era_shifted as i128 - shift_eras;
    proof {
        vstd::arithmetic::div_mod::lemma_fundamental_div_mod(u as int, 146097);
    }
    let (y, m, d) = civil_in_era(era, r);
    (y as i64, m as u32, d as u32)
}

/// Format a Unix timestamp (seconds since 1970-01-01T00:00:00Z) as RFC 3339.
#[verifier::rlimit(40)]
pub fn rfc3339_from_unix(secs: i64) -> (s: String)
    ensures
        s@ == rfc3339_text(secs as int),
        s@.len() >= 20,
        s@.last() == 'Z',
        0 <= date_of((secs as int) / 86400).0 < 10000 ==> s@.len() == 20,
{
    let shift: u128 = 86400 * ERA_DAYS * SHIFT_ERAS;
    let u: u128 = (secs as i128 + shift as i128) as u128;
    let shifted_days = u / 86400;
    let rem = u % 86400;
    let era_shifted = shifted_days / ERA_DAYS;
    let r = shifted_days % ERA_DAYS;
    let era: i128 = era_shifted as i128 - SHIFT_ERAS as i128;
    let ghost days = (secs as int) / 86400;
    proof {
        vstd::arithmetic::div_mod::lemma_fundamental_div_mod(secs as int, 86400);
        vstd::arithmetic::div_mod::lemma_fundamental_div_mod(u as int, 86400);
        vstd::arithmetic::div_mod::lemma_fundamental_div_mod_converse(u as int, 86400, days + 146097 * SHIFT_ERAS, (secs as int) % 86400);
        vstd::arithmetic::div_mod::lemma_fundamental_div_mod(days, 146097);
        vstd::arithmetic::div_mod::lemma_fundamental_div_mod(shifted_days as int, 146097);
        vstd::arithmetic::div_mod::lemma_fundamental_div_mod_converse(shifted_days as int, 146097, days / 146097 + SHIFT_ERAS, days % 146097);
    }
    let (y, m, d) = civil_in_era(era, r);
    proof {
        let ymd = date_of(days);
        assert(valid_date(y as int, m as int, d as int) && civil_days(y as int, m as int, d as int) == days);
        lemma_civil_days_injective(y as int, m as int, d as int, ymd.0, ymd.1, ymd.2);
    }
    let mut out = String::new();
    if y >= 0 {
        push_padded(&mut out, y as u128, 4);
    } else {
        push_char(&mut out, '-');
        push_padded(&mut out, (-y) as u128, 3);
    }
    push_char(&mut out, '-');
    push_padded(&mut out, m, 2);
    push_char(&mut out, '-');
    push_padded(&mut out, d, 2);
    push_char(&mut out, 'T');
    push_padded(&mut out, rem / 3600, 2);
    push_char(&mut out, ':');
    push_padded(&mut out, (rem % 3600) / 60, 2);
    push_char(&mut out, ':');
    push_padded(&mut out, rem % 60, 2);
    push_char(&mut out, 'Z');
    proof {
        lemma_rfc3339_ends(secs as int);
        if 0 <= y < 10000 {
            lemma_rfc3339_shape(secs as int, y as int, m as int, d as int);
        }
    }
    out
}

/// `std::time::SystemTime`, carried through opaquely.
#[verifier::external_type_specification]
#[verifier::external_body]
pub struct ExSystemTime(std::time::SystemTime);

/// `std::time::SystemTimeError`, carried through opaquely.
#[verifier::external_type_specification]
#[verifier::external_body]
pub struct ExSystemTimeError(std::time::SystemTimeError);

/// `SystemTime::now`: the clock's current reading; nothing is known of it.
#[verifier::external_body]
fn system_now() -> std::time::SystemTime {
    std::time::SystemTime::now()
}

/// `SystemTime::duration_since(UNIX_EPOCH)`: the time elapsed since the
/// epoch, or an error when the clock reads earlier; nothing more is claimed.
#[verifier::external_body]
fn since_epoch(t: &std::time::SystemTime) -> std::result::Result<core::time::Duration, std::time::SystemTimeError> {
    t.duration_since(std::time::UNIX_EPOCH)
}

/// `Duration::as_secs`: the whole seconds of a duration; nothing is claimed
/// of a duration that Verus cannot see into.
#[verifier::external_body]
fn whole_secs(d: &core::time::Duration) -> u64 {
    d.as_secs()
}

/// The current UTC time as RFC 3339; the epoch when the clock reads before
/// it. Whatever the clock says, the text is that of some `i64` time.
pub fn now_rfc3339() -> (s: String)
    ensures
        exists|secs: i64| s@ == rfc3339_text(secs as int)
            && (0 <= date_of((secs as int) / 86400).0 < 10000 ==> s@.len() == 20),
        s@.len() >= 20,
        s@.last() == 'Z',
{
    let now = system_now();
    let secs: i64 = match since_epoch(&now) {
        Ok(d) => {
            let w = whole_secs(&d);
            #[verifier::truncate]
            (w as i64)
        },
        Err(_) => 0,
    };
    rfc3339_from_unix(secs)
}

} // verus!
