//! UTC calendar dates of Unix timestamps, and the `YYYY-MM` archive folder names built from them.

use vstd::prelude::*;
use vstd::string::*;
use chrono::Datelike;
use crate::text::{
    all_digits, decimal, digit_char, digits_value, lemma_decimal_digits, lemma_decimal_len_bound,
    lemma_digits_order, pow10, push_zero_padded, text_le, zero_padded,
};

verus! {

/// The largest timestamp (seconds since 1970-01-01T00:00:00Z) that chrono can represent
/// as a `DateTime<Utc>`: 262142-12-31T23:59:59Z.
pub const MAX_TIMESTAMP: i64 = 8_210_266_876_799;

/// Seconds in a day (UTC has no leap seconds in Unix time).
pub open spec fn seconds_per_day() -> nat {
    86400
}

/// Leap years of the proleptic Gregorian calendar.
pub open spec fn is_leap_year(y: int) -> bool {
    (y % 4 == 0 && y % 100 != 0) || y % 400 == 0
}

/// Number of days in year `y`.
pub open spec fn year_length(y: int) -> nat {
    if is_leap_year(y) {
        366
    } else {
        365
    }
}

/// Number of days in month `m` (1 = January) of year `y`.
pub open spec fn month_length(y: int, m: int) -> nat {
    if m == 2 {
        if is_leap_year(y) {
            29
        } else {
            28
        }
    } else if m == 4 || m == 6 || m == 9 || m == 11 {
        30
    } else {
        31
    }
}

/// The year and the zero-based day of that year of the day that lies `d` days after
/// January 1 of year `y`.
pub open spec fn year_and_day(y: int, d: nat) -> (int, nat)
    decreases d,
{
    if d < year_length(y) {
        (y, d)
    } else {
        year_and_day(y + 1, (d - year_length(y)) as nat)
    }
}

/// The month (1 to 12) holding the zero-based day `d` of year `y`, counting from month `m`.
pub open spec fn month_of_day(y: int, m: int, d: nat) -> int
    decreases 12 - m,
{
    if m >= 12 || d < month_length(y, m) {
        m
    } else {
        month_of_day(y, m + 1, (d - month_length(y, m)) as nat)
    }
}

/// The UTC year and month (1 to 12) of the day that lies `day` days after 1970-01-01.
pub open spec fn civil_year_month(day: nat) -> (int, int) {
    let (y, yd) = year_and_day(1970, day);
    (y, month_of_day(y, 1, yd))
}

/// The UTC year and month of the Unix timestamp `secs`.
pub open spec fn timestamp_year_month(secs: nat) -> (int, int) {
    civil_year_month(secs / seconds_per_day())
}

/// The archive folder name of a timestamp: the year padded to four digits, a dash, and the
/// month padded to two digits (`format!("{:04}-{:02}", year, month)`).
pub open spec fn folder_name(secs: nat) -> Seq<char> {
    let (y, m) = timestamp_year_month(secs);
    zero_padded(y as nat, 4) + seq!['-'] + zero_padded(m as nat, 2)
}

/// Calls chrono: `DateTime::<Utc>::from(UNIX_EPOCH + Duration::from_secs(secs))`, then reads
/// its `year()` and `month()`. Claimed: chrono's proleptic Gregorian UTC calendar date of the
/// timestamp has the year and month of `timestamp_year_month`. The conversion panics past
/// chrono's last representable date, which `requires` leaves out.
#[verifier::external_body]
fn utc_year_month(secs: u64) -> (r: (i32, u32))
    requires
        secs <= MAX_TIMESTAMP,
    ensures
        (r.0 as int, r.1 as int) == timestamp_year_month(secs as nat),
{
    let t = std::time::UNIX_EPOCH + std::time::Duration::from_secs(secs);
    let dt = chrono::DateTime::<chrono::Utc>::from(t);
    (dt.year(), dt.month())
}

pub proof fn lemma_year_and_day(y: int, d: nat)
    ensures
        year_and_day(y, d).0 >= y,
        year_and_day(y, d).1 < year_length(year_and_day(y, d).0),
        year_and_day(y, d).0 == y ==> year_and_day(y, d).1 == d,
    decreases d,
{
    if d >= year_length(y) {
        lemma_year_and_day(y + 1, (d - year_length(y)) as nat);
    }
}

pub proof fn lemma_month_of_day(y: int, m: int, d: nat)
    requires
        1 <= m <= 12,
    ensures
        m <= month_of_day(y, m, d) <= 12,
    decreases 12 - m,
{
    if !(m >= 12 || d < month_length(y, m)) {
        lemma_month_of_day(y, m + 1, (d - month_length(y, m)) as nat);
    }
}

/// Every timestamp falls in a year from 1970 on and in a month from 1 to 12.
pub proof fn lemma_civil_range(day: nat)
    ensures
        civil_year_month(day).0 >= 1970,
        1 <= civil_year_month(day).1 <= 12,
{
    lemma_year_and_day(1970, day);
    lemma_month_of_day(year_and_day(1970, day).0, 1, year_and_day(1970, day).1);
}

proof fn lemma_year_and_day_monotone(y: int, d1: nat, d2: nat)
    requires
        d1 <= d2,
    ensures
        year_and_day(y, d1).0 < year_and_day(y, d2).0 || (year_and_day(y, d1).0 == year_and_day(
            y,
            d2,
        ).0 && year_and_day(y, d1).1 <= year_and_day(y, d2).1),
    decreases d2,
{
    if d2 >= year_length(y) {
        if d1 >= year_length(y) {
            lemma_year_and_day_monotone(
                y + 1,
                (d1 - year_length(y)) as nat,
                (d2 - year_length(y)) as nat,
            );
        } else {
            lemma_year_and_day(y + 1, (d2 - year_length(y)) as nat);
        }
    }
}

proof fn lemma_month_monotone(y: int, m: int, d1: nat, d2: nat)
    requires
        d1 <= d2,
    ensures
        month_of_day(y, m, d1) <= month_of_day(y, m, d2),
    decreases 12 - m,
{
    if !(m >= 12) {
        if d1 >= month_length(y, m) {
            lemma_month_monotone(
                y,
                m + 1,
                (d1 - month_length(y, m)) as nat,
                (d2 - month_length(y, m)) as nat,
            );
        } else if d2 >= month_length(y, m) {
            lemma_month_at_least(y, m + 1, (d2 - month_length(y, m)) as nat);
        }
    }
}

proof fn lemma_month_at_least(y: int, m: int, d: nat)
    ensures
        month_of_day(y, m, d) >= m,
    decreases 12 - m,
{
    if !(m >= 12 || d < month_length(y, m)) {
        lemma_month_at_least(y, m + 1, (d - month_length(y, m)) as nat);
    }
}

/// A later timestamp never lands in an earlier (year, month) than an earlier timestamp:
/// archive folders follow the order of the files' modification times.
pub proof fn law_year_month_follows_time(t1: nat, t2: nat)
    requires
        t1 <= t2,
    ensures
        timestamp_year_month(t1).0 < timestamp_year_month(t2).0 || (timestamp_year_month(t1).0
            == timestamp_year_month(t2).0 && timestamp_year_month(t1).1 <= timestamp_year_month(
            t2,
        ).1),
{
    let d1 = t1 / seconds_per_day();
    let d2 = t2 / seconds_per_day();
    assert(d1 <= d2) by (nonlinear_arith)
        requires
            t1 <= t2,
            d1 == t1 / 86400,
            d2 == t2 / 86400,
    ;
    lemma_year_and_day_monotone(1970, d1, d2);
    let (y1, yd1) = year_and_day(1970, d1);
    let (y2, yd2) = year_and_day(1970, d2);
    if y1 == y2 {
        lemma_month_monotone(y1, 1, yd1, yd2);
    }
}

/// The archive folder of a timestamp ends in a dash and a two-digit month from `01` to `12`,
/// after the year written with at least four digits.
pub proof fn law_folder_name_shape(secs: nat)
    ensures
        ({
            let f = folder_name(secs);
            let (y, m) = timestamp_year_month(secs);
            &&& f.len() >= 7
            &&& f[f.len() - 3] == '-'
            &&& f.subrange(0, f.len() - 3) == zero_padded(y as nat, 4)
            &&& all_digits(f.subrange(0, f.len() - 3))
            &&& all_digits(f.subrange(f.len() - 2, f.len() as int))
            &&& digits_value(f.subrange(f.len() - 2, f.len() as int)) == m
            &&& 1 <= m <= 12
            &&& y >= 1970
        }),
{
    let (y, m) = timestamp_year_month(secs);
    lemma_civil_range(secs / seconds_per_day());
    lemma_zero_padded_digits(y as nat, 4);
    lemma_zero_padded_digits(m as nat, 2);
    lemma_decimal_digits(m as nat);
    let f = folder_name(secs);
    let ys = zero_padded(y as nat, 4);
    let ms = zero_padded(m as nat, 2);
    assert(ms.len() == 2) by {
        if m >= 10 {
            assert(decimal(m as nat) == decimal((m / 10) as nat).push(digit_char((m % 10) as nat)));
        }
    }
    assert(f.subrange(0, f.len() - 3) =~= ys);
    assert(f.subrange(f.len() - 2, f.len() as int) =~= ms);
}

/// The number of days from January 1 of year `y` to January 1 of year `z`.
pub open spec fn days_between(y: int, z: int) -> nat
    decreases z - y,
{
    if y >= z {
        0
    } else {
        year_length(y) + days_between(y + 1, z)
    }
}

/// Leap years from year 1 to year `x`, for `x >= 0`.
spec fn leaps_through(x: int) -> int {
    x / 4 - x / 100 + x / 400
}

proof fn lemma_leap_step(y: int)
    requires
        y >= 1,
    ensures
        leaps_through(y) - leaps_through(y - 1) == if is_leap_year(y) {
            1int
        } else {
            0int
        },
{
}

proof fn lemma_days_between_closed(y: int, z: int)
    requires
        1 <= y <= z,
    ensures
        days_between(y, z) == 365 * (z - y) + leaps_through(z - 1) - leaps_through(y - 1),
    decreases z - y,
{
    if y < z {
        lemma_days_between_closed(y + 1, z);
        lemma_leap_step(y);
    }
}

/// A day before January 1 of year `z` lies in a year before `z`.
proof fn lemma_year_before(y: int, d: nat, z: int)
    requires
        d < days_between(y, z),
    ensures
        year_and_day(y, d).0 < z,
    decreases d,
{
    if d >= year_length(y) {
        lemma_year_before(y + 1, (d - year_length(y)) as nat, z);
    }
}

/// Timestamps up to 9999-12-31T23:59:59Z fall in four-digit years.
pub proof fn lemma_four_digit_years(secs: nat)
    requires
        secs <= 253402300799,
    ensures
        1970 <= timestamp_year_month(secs).0 <= 9999,
        1 <= timestamp_year_month(secs).1 <= 12,
{
    lemma_days_between_closed(1970, 10000);
    assert(days_between(1970, 10000) == 2932897);
    lemma_year_before(1970, secs / seconds_per_day(), 10000);
    lemma_civil_range(secs / seconds_per_day());
}

proof fn lemma_padded_exact(n: nat, width: nat)
    requires
        width >= 1,
        n < pow10(width),
    ensures
        zero_padded(n, width).len() == width,
{
    lemma_decimal_len_bound(n, width);
}

/// Up to the end of year 9999, archive folder names sort as text in the order of the
/// timestamps: a later file's folder name is never smaller (`String`'s order).
pub proof fn law_folder_names_sort_by_time(a: nat, b: nat)
    requires
        a <= b <= 253402300799,
    ensures
        text_le(folder_name(a), folder_name(b)),
{
    let (y1, m1) = timestamp_year_month(a);
    let (y2, m2) = timestamp_year_month(b);
    lemma_four_digit_years(a);
    lemma_four_digit_years(b);
    law_year_month_follows_time(a, b);
    assert(pow10(4) == 10000) by {
        assert(pow10(0) == 1);
        assert(pow10(1) == 10);
        assert(pow10(2) == 100);
        assert(pow10(3) == 1000);
    }
    assert(pow10(2) == 100) by {
        assert(pow10(0) == 1);
        assert(pow10(1) == 10);
    }
    let p1 = zero_padded(y1 as nat, 4);
    let p2 = zero_padded(y2 as nat, 4);
    let q1 = zero_padded(m1 as nat, 2);
    let q2 = zero_padded(m2 as nat, 2);
    lemma_padded_exact(y1 as nat, 4);
    lemma_padded_exact(y2 as nat, 4);
    lemma_padded_exact(m1 as nat, 2);
    lemma_padded_exact(m2 as nat, 2);
    lemma_zero_padded_digits(y1 as nat, 4);
    lemma_zero_padded_digits(y2 as nat, 4);
    lemma_zero_padded_digits(m1 as nat, 2);
    lemma_zero_padded_digits(m2 as nat, 2);
    let f1 = folder_name(a);
    let f2 = folder_name(b);
    assert(f1 == p1 + seq!['-'] + q1);
    assert(f2 == p2 + seq!['-'] + q2);
    if y1 < y2 {
        lemma_digits_order(p1, p2);
        let k = choose|k: int| 0 <= k < p1.len() && p1.take(k) == p2.take(k) && #[trigger] p1[k] < p2[k];
        assert(f1.take(k) =~= p1.take(k));
        assert(f2.take(k) =~= p2.take(k));
        assert(f1[k] == p1[k] && f2[k] == p2[k]);
        assert(f1[k] < f2[k]);
    } else if m1 < m2 {
        lemma_digits_order(q1, q2);
        let k = choose|k: int| 0 <= k < q1.len() && q1.take(k) == q2.take(k) && #[trigger] q1[k] < q2[k];
        assert(f1.take(5 + k) =~= p1 + seq!['-'] + q1.take(k));
        assert(f2.take(5 + k) =~= p2 + seq!['-'] + q2.take(k));
        assert(f1[5 + k] == q1[k] && f2[5 + k] == q2[k]);
        assert(f1[5 + k] < f2[5 + k]);
    } else {
        assert(f1 == f2);
    }
}

/// Zero padding yields digits only, at least `width` of them, with the padded number's value.
pub proof fn lemma_zero_padded_digits(n: nat, width: nat)
    ensures
        all_digits(zero_padded(n, width)),
        zero_padded(n, width).len() >= width,
        digits_value(zero_padded(n, width)) == n,
{
    lemma_decimal_digits(n);
    let d = decimal(n);
    if d.len() < width {
        let z = Seq::new((width - d.len()) as nat, |i: int| '0');
        lemma_leading_zeros(z, d);
    }
}

proof fn lemma_leading_zeros(z: Seq<char>, d: Seq<char>)
    requires
        forall|k: int| 0 <= k < z.len() ==> z[k] == '0',
        all_digits(d),
    ensures
        all_digits(z + d),
        digits_value(z + d) == digits_value(d),
    decreases d.len(),
{
    if d.len() == 0 {
        assert(z + d =~= z);
        lemma_zeros_value(z);
    } else {
        lemma_leading_zeros(z, d.drop_last());
        assert((z + d).drop_last() =~= z + d.drop_last());
    }
}

proof fn lemma_zeros_value(z: Seq<char>)
    requires
        forall|k: int| 0 <= k < z.len() ==> z[k] == '0',
    ensures
        digits_value(z) == 0,
    decreases z.len(),
{
    if z.len() > 0 {
        lemma_zeros_value(z.drop_last());
    }
}

/// The `YYYY-MM` archive folder for a modification time given in seconds since the Unix epoch
/// (UTC). Timestamps outside `0..=MAX_TIMESTAMP` are refused by the conversion this goes
/// through, so `requires` leaves them out.
pub fn year_month_from_mtime(secs: i64) -> (r: String)
    requires
        0 <= secs <= MAX_TIMESTAMP,
    ensures
        r@ == folder_name(secs as nat),
{
    let (y, m) = utc_year_month(secs as u64);
    proof {
        lemma_civil_range((secs as nat) / seconds_per_day());
    }
    let mut s = String::new();
    push_zero_padded(&mut s, y as u64, 4);
    proof {
        reveal_strlit("-");
    }
    s.append("-");
    push_zero_padded(&mut s, m as u64, 2);
    assert(s@ =~= folder_name(secs as nat));
    s
}

} // verus!
