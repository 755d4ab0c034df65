//! Dates: the proleptic Gregorian calendar, the dump's date lists, and the
//! stamps that links are named with. Everything is UTC.

use vstd::prelude::*;
use vstd::slice::slice_subrange;

use crate::text;

pub mod laws;

verus! {

/// A moment, counted from 1970-01-01.
#[derive(Debug, Clone, Copy, PartialEq, Eq, PartialOrd, Ord, Structural)]
pub struct Date {
    pub secs: u64,
    pub nanos: u32,
}

impl Date {
    /// 1970-01-01.
    pub fn epoch() -> (r: Date)
        ensures
            r == (Date { secs: 0, nanos: 0 }),
    {
        Date { secs: 0, nanos: 0 }
    }

    pub open spec fn earlier(self, other: Date) -> bool {
        self.secs < other.secs || (self.secs == other.secs && self.nanos < other.nanos)
    }

    /// Whether this moment is before another.
    pub fn is_earlier(&self, other: &Date) -> (r: bool)
        ensures
            r == self.earlier(*other),
    {
        self.secs < other.secs || (self.secs == other.secs && self.nanos < other.nanos)
    }
}

// ---- the calendar ---------------------------------------------------------

pub open spec fn is_leap(y: int) -> bool {
    y % 4 == 0 && (y % 100 != 0 || y % 400 == 0)
}

pub open spec fn month_length(y: int, m: int) -> int {
    if m == 2 {
        if is_leap(y) {
            29
        } else {
            28
        }
    } else if m == 4 || m == 6 || m == 9 || m == 11 {
        30
    } else {
        31
    }
}

/// A day that the calendar has.
pub open spec fn is_date(y: int, m: int, d: int) -> bool {
    1 <= m <= 12 && 1 <= d <= month_length(y, m)
}

/// The days of the years before year `y`, for years that begin in March.
pub open spec fn days_before(y: int) -> int {
    365 * y + y / 4 - y / 100 + y / 400
}

/// The days of the months before month `mp`, counted from March as 0.
pub open spec fn days_before_month(mp: int) -> int {
    (153 * mp + 2) / 5
}

/// Days since 1970-01-01 for a proleptic Gregorian date.
pub open spec fn civil_days(y: int, m: int, d: int) -> int {
    let year = if m <= 2 {
        y - 1
    } else {
        y
    };
    days_before(year) + days_before_month((m + 9) % 12) + d - 1 - 719_468
}

/// The date that is `z` days after 1970-01-01.
pub open spec fn civil(z: int) -> (int, int, int) {
    choose|t: (int, int, int)| is_date(t.0, t.1, t.2) && civil_days(t.0, t.1, t.2) == z
}

proof fn lemma_days_before_step(y: int)
    ensures
        days_before(y + 1) - days_before(y) == if is_leap(y + 1) {
            366int
        } else {
            365int
        },
{
    let n = y + 1;
    lemma_step_4(y);
    lemma_step_100(y);
    lemma_step_400(y);
    lemma_multiples(n);
}

proof fn lemma_step_4(y: int)
    ensures
        (y + 1) / 4 - y / 4 == if (y + 1) % 4 == 0 {
            1int
        } else {
            0int
        },
{
}

proof fn lemma_step_100(y: int)
    ensures
        (y + 1) / 100 - y / 100 == if (y + 1) % 100 == 0 {
            1int
        } else {
            0int
        },
{
}

proof fn lemma_step_400(y: int)
    ensures
        (y + 1) / 400 - y / 400 == if (y + 1) % 400 == 0 {
            1int
        } else {
            0int
        },
{
}

proof fn lemma_multiples(n: int)
    ensures
        n % 400 == 0 ==> n % 100 == 0,
        n % 100 == 0 ==> n % 4 == 0,
{
}

proof fn lemma_shift_4(y: int, t: int)
    ensures
        (y + 400 * t) / 4 == y / 4 + 100 * t,
{
}

proof fn lemma_shift_100(y: int, t: int)
    ensures
        (y + 400 * t) / 100 == y / 100 + 4 * t,
{
}

proof fn lemma_shift_400(y: int, t: int)
    ensures
        (y + 400 * t) / 400 == y / 400 + t,
{
}

/// Four hundred years are always the same number of days.
proof fn lemma_days_before_shift(y: int, t: int)
    ensures
        days_before(y + 400 * t) == days_before(y) + 146_097 * t,
{
    lemma_shift_4(y, t);
    lemma_shift_100(y, t);
    lemma_shift_400(y, t);
}

proof fn lemma_days_before_grows(a: int, b: int)
    requires
        a <= b,
    ensures
        days_before(a) <= days_before(b),
    decreases b - a,
{
    if a < b {
        lemma_days_before_grows(a, b - 1);
        lemma_days_before_step(b - 1);
    }
}

/// The place of a date in its year, for years that begin in March.
proof fn lemma_place_in_year(y: int, m: int, d: int)
    requires
        is_date(y, m, d),
    ensures
        ({
            let year = if m <= 2 {
                y - 1
            } else {
                y
            };
            let place = civil_days(y, m, d) + 719_468 - days_before(year);
            0 <= place < days_before(year + 1) - days_before(year)
        }),
{
    let year = if m <= 2 {
        y - 1
    } else {
        y
    };
    lemma_days_before_step(year);
    lemma_month_table();
}

/// Where each month begins.
proof fn lemma_month_table()
    ensures
        days_before_month(0) == 0,
        days_before_month(1) == 31,
        days_before_month(2) == 61,
        days_before_month(3) == 92,
        days_before_month(4) == 122,
        days_before_month(5) == 153,
        days_before_month(6) == 184,
        days_before_month(7) == 214,
        days_before_month(8) == 245,
        days_before_month(9) == 275,
        days_before_month(10) == 306,
        days_before_month(11) == 337,
{
}

/// No two dates are the same number of days after 1970-01-01.
pub proof fn law_dates_are_distinct(y1: int, m1: int, d1: int, y2: int, m2: int, d2: int)
    requires
        is_date(y1, m1, d1),
        is_date(y2, m2, d2),
        civil_days(y1, m1, d1) == civil_days(y2, m2, d2),
    ensures
        y1 == y2,
        m1 == m2,
        d1 == d2,
{
    let a = if m1 <= 2 {
        y1 - 1
    } else {
        y1
    };
    let b = if m2 <= 2 {
        y2 - 1
    } else {
        y2
    };
    lemma_place_in_year(y1, m1, d1);
    lemma_place_in_year(y2, m2, d2);
    if a < b {
        lemma_days_before_grows(a + 1, b);
    }
    if b < a {
        lemma_days_before_grows(b + 1, a);
    }
    lemma_month_table();
}

/// Days since 1970-01-01, in a width that every year, month and day fits.
fn wide_days(y: i64, m: u32, d: u32) -> (r: i128)
    ensures
        r == civil_days(y as int, m as int, d as int),
{
    let year: i128 = if m <= 2 {
        y as i128 - 1
    } else {
        y as i128
    };
    // Shifted by a multiple of 400 years, so that the divisions are of what
    // is not negative.
    let shifted: i128 = year + 10_000_000_000_000_000_000;
    let mp: i128 = ((m as u64 + 9) % 12) as i128;
    let before = wide_days_before(shifted);
    proof {
        lemma_days_before_shift(year as int, 25_000_000_000_000_000);
    }
    before + (153 * mp + 2) / 5 + d as i128 - 1 - 719_468 - 3_652_425_000_000_000_000_000
}

fn wide_days_before(y: i128) -> (r: i128)
    requires
        0 <= y <= 20_000_000_000_000_000_000,
    ensures
        r == days_before(y as int),
        0 <= r <= 10_000_000_000_000_000_000_000,
{
    365 * y + y / 4 - y / 100 + y / 400
}

/// Days since 1970-01-01 for a proleptic Gregorian date.
pub fn days_from_civil(y: i64, m: u32, d: u32) -> (r: i64)
    requires
        i64::MIN <= civil_days(y as int, m as int, d as int) <= i64::MAX,
    ensures
        r == civil_days(y as int, m as int, d as int),
{
    wide_days(y, m, d) as i64
}

/// A day in a span of 400 years as whole spans of 100, of 4 and of 1 year,
/// and the days left over.
fn year_parts(doe: i64) -> (r: (i64, i64, i64, i64))
    requires
        0 <= doe < 146_097,
    ensures
        0 <= r.0 <= 3,
        0 <= r.1 <= 24,
        0 <= r.2 <= 3,
        0 <= r.3 <= 365,
        r.3 == 365 ==> r.2 == 3 && (r.1 == 24 ==> r.0 == 3),
        doe == r.0 * 36_524 + r.1 * 1461 + r.2 * 365 + r.3,
{
    let c: i64 = if doe / 36_524 < 3 {
        doe / 36_524
    } else {
        3
    };
    let in_c: i64 = doe - c * 36_524;
    let q: i64 = in_c / 1461;
    let in_q: i64 = in_c - q * 1461;
    let k: i64 = if in_q / 365 < 3 {
        in_q / 365
    } else {
        3
    };
    (c, q, k, in_q - k * 365)
}

/// The month, counted from March as 0, and the day of a day in the year.
fn month_parts(doy: i64) -> (r: (i64, i64))
    requires
        0 <= doy <= 365,
    ensures
        0 <= r.0 <= 11,
        r.1 == doy - days_before_month(r.0 as int) + 1,
        r.1 >= 1,
        r.0 < 11 ==> doy < days_before_month(r.0 + 1),
{
    let mp: i64 = (5 * doy + 2) / 153;
    (mp, doy - (153 * mp + 2) / 5 + 1)
}

/// The year and the day in it, for years that begin in March.
fn split_days(n: i64) -> (r: (i64, i64))
    ensures
        days_before(r.0 as int) + r.1 == n,
        0 <= r.1 < days_before(r.0 + 1) - days_before(r.0 as int),
        -100_000_000_000_000_000 <= r.0 <= 100_000_000_000_000_000,
{
    let era: i64 = if n >= 0 {
        n / 146_097
    } else {
        -((-(n + 1)) / 146_097) - 1
    };
    let doe: i64 = if n >= 0 {
        n % 146_097
    } else {
        146_096 - (-(n + 1)) % 146_097
    };
    let (c, q, k, doy) = year_parts(doe);
    let year: i64 = era * 400 + c * 100 + q * 4 + k;
    proof {
        lemma_year_parts(era as int, c as int, q as int, k as int);
        lemma_days_before_step(year as int);
        if doy == 365 {
            lemma_span_end(era as int, c as int, q as int);
        }
    }
    (year, doy)
}

/// The inverse of `days_from_civil`.
pub fn civil_from_days(z: i64) -> (r: (i64, u32, u32))
    requires
        z <= i64::MAX - 719_468,
    ensures
        is_date(r.0 as int, r.1 as int, r.2 as int),
        civil_days(r.0 as int, r.1 as int, r.2 as int) == z,
        (r.0 as int, r.1 as int, r.2 as int) == civil(z as int),
{
    let (year, doy) = split_days(z + 719_468);
    proof {
        lemma_days_before_step(year as int);
        lemma_month_table();
    }
    let (mp, day) = month_parts(doy);
    let d: u32 = day as u32;
    let m: u32 = if mp < 10 {
        (mp + 3) as u32
    } else {
        (mp - 9) as u32
    };
    let y: i64 = if m <= 2 {
        year + 1
    } else {
        year
    };
    proof {
        law_calendar_inverse(z as int, y as int, m as int, d as int);
    }
    (y, m, d)
}

/// The last day of a span of four years that has one day more is in a leap
/// year.
proof fn lemma_span_end(era: int, c: int, q: int)
    requires
        0 <= c <= 3,
        0 <= q <= 24,
        q == 24 ==> c == 3,
    ensures
        is_leap(era * 400 + c * 100 + q * 4 + 3 + 1),
{
    let n = era * 400 + c * 100 + q * 4 + 4;
    if q == 24 {
        assert(n == 400 * (era + 1));
    } else {
        assert(n == 100 * (4 * era + c) + (4 * q + 4));
        assert(n % 100 == 4 * q + 4);
        assert(n == 4 * (100 * era + 25 * c + q + 1));
    }
}

/// The days before a year that is given by its spans of 400, 100, 4 and 1.
proof fn lemma_year_parts(era: int, c: int, q: int, k: int)
    requires
        0 <= c <= 3,
        0 <= q <= 24,
        0 <= k <= 3,
    ensures
        days_before(era * 400 + c * 100 + q * 4 + k) == era * 146_097 + c * 36_524 + q * 1461 + k
            * 365,
{
    let y = c * 100 + q * 4 + k;
    lemma_days_before_shift(y, era);
    assert(y / 4 == 25 * c + q);
    assert(y / 100 == c);
    assert(y / 400 == 0);
}

/// `days_from_civil` undoes `civil_from_days`, and the other way round.
pub proof fn law_calendar_inverse(z: int, y: int, m: int, d: int)
    requires
        is_date(y, m, d),
        civil_days(y, m, d) == z,
    ensures
        civil(z) == (y, m, d),
{
    let t = (y, m, d);
    assert(is_date(t.0, t.1, t.2) && civil_days(t.0, t.1, t.2) == z);
    let u = civil(z);
    law_dates_are_distinct(t.0, t.1, t.2, u.0, u.1, u.2);
}

/// The day after a date is one day later, over the ends of months and years
/// too; and the count begins at 1970-01-01.
pub proof fn law_days_count_up(y: int, m: int, d: int)
    requires
        is_date(y, m, d),
    ensures
        civil_days(1970, 1, 1) == 0,
        d < month_length(y, m) ==> civil_days(y, m, d + 1) == civil_days(y, m, d) + 1,
        d == month_length(y, m) && m < 12 ==> civil_days(y, m + 1, 1) == civil_days(y, m, d) + 1,
        d == month_length(y, m) && m == 12 ==> civil_days(y + 1, 1, 1) == civil_days(y, m, d) + 1,
{
    lemma_month_table();
    lemma_days_before_step(y - 1);
}

// ---- dates as text --------------------------------------------------------

/// Three numbers, the first at least `width` digits and the others two.
pub open spec fn dashed(a: nat, width: nat, b: nat, c: nat) -> Seq<char> {
    text::zero_padded(text::dec(a), width) + "-"@ + text::zero_padded(text::dec(b), 2) + "-"@
        + text::zero_padded(text::dec(c), 2)
}

/// `YYYY-MM-DDTHH-MM-SS` for a moment.
pub open spec fn stamp(secs: nat) -> Seq<char> {
    let (y, m, d) = civil(secs as int / 86_400);
    let rem = secs % 86_400;
    dashed(y as nat, 4, m as nat, d as nat) + "T"@ + dashed(
        rem / 3600,
        2,
        (rem / 60) % 60,
        rem % 60,
    )
}

fn push_dashed(out: &mut String, a: u64, width: usize, b: u64, c: u64)
    ensures
        final(out)@ == old(out)@ + dashed(a as nat, width as nat, b as nat, c as nat),
{
    let ghost before = out@;
    text::push_dec_padded(out, a, width);
    text::push_text(out, "-");
    text::push_dec_padded(out, b, 2);
    text::push_text(out, "-");
    text::push_dec_padded(out, c, 2);
    assert(out@ =~= before + dashed(a as nat, width as nat, b as nat, c as nat));
}

proof fn lemma_year_not_negative(z: int)
    requires
        z >= 0,
        is_date(civil(z).0, civil(z).1, civil(z).2),
        civil_days(civil(z).0, civil(z).1, civil(z).2) == z,
    ensures
        civil(z).0 >= 0,
{
    let t = civil(z);
    if t.0 < 0 {
        let year = if t.1 <= 2 {
            t.0 - 1
        } else {
            t.0
        };
        lemma_place_in_year(t.0, t.1, t.2);
        lemma_days_before_grows(year + 1, 0);
    }
}

/// `YYYY-MM-DDTHH-MM-SS` for a unix timestamp (UTC).
pub fn format_stamp(secs: u64) -> (r: String)
    ensures
        r@ == stamp(secs as nat),
{
    let days: i64 = (secs / 86_400) as i64;
    let rem: u64 = secs % 86_400;
    let (y, m, d) = civil_from_days(days);
    proof {
        lemma_year_not_negative(days as int);
    }
    let mut out = String::new();
    push_dashed(&mut out, y as u64, 4, m as u64, d as u64);
    text::push_text(&mut out, "T");
    push_dashed(&mut out, rem / 3600, 2, (rem / 60) % 60, rem % 60);
    assert(out@ =~= stamp(secs as nat));
    out
}

// ---- dates from text ------------------------------------------------------

/// Piece `k` of what `c` divides `s` into, if there are so many.
pub open spec fn piece(s: Seq<char>, c: char, k: nat) -> Option<Seq<char>>
    decreases k,
{
    match text::split_once(s, c) {
        None => if k == 0 {
            Some(s)
        } else {
            None
        },
        Some((head, rest)) => if k == 0 {
            Some(head)
        } else {
            piece(rest, c, (k - 1) as nat)
        },
    }
}

/// `b` to the power `e`.
pub open spec fn power(b: nat, e: nat) -> nat
    decreases e,
{
    if e == 0 {
        1
    } else {
        b * power(b, (e - 1) as nat)
    }
}

/// The nanoseconds that the digits behind a point stand for: the first nine
/// count.
pub open spec fn nanos_of(fraction: Seq<char>) -> Option<nat> {
    let f = if fraction.len() > 9 {
        fraction.take(9)
    } else {
        fraction
    };
    if f.len() == 0 {
        Some(0)
    } else {
        match text::unsigned(f, 10, u32::MAX as nat) {
            None => None,
            Some(n) => Some(n * power(10, (9 - f.len()) as nat)),
        }
    }
}

/// Seconds with an optional fraction.
pub open spec fn seconds_of(s: Seq<char>) -> Option<(nat, nat)> {
    let (whole, fraction) = match text::split_once(s, '.') {
        Some(p) => p,
        None => (s, Seq::empty()),
    };
    match (text::unsigned(whole, 10, u64::MAX as nat), nanos_of(fraction)) {
        (Some(n), Some(nanos)) => Some((n, nanos)),
        _ => None,
    }
}

/// The days that `YYYY-MM-DD` stands for.
pub open spec fn day_of(s: Seq<char>) -> Option<int> {
    match (piece(s, '-', 0), piece(s, '-', 1), piece(s, '-', 2)) {
        (Some(y), Some(m), Some(d)) => match (
            text::signed(y),
            text::unsigned(m, 10, u32::MAX as nat),
            text::unsigned(d, 10, u32::MAX as nat),
        ) {
            (Some(y), Some(m), Some(d)) => Some(civil_days(y, m as int, d as int)),
            _ => None,
        },
        _ => None,
    }
}

/// The seconds and nanoseconds that `HH:MM:SS[.fraction]` stands for.
pub open spec fn time_of(s: Seq<char>) -> Option<(nat, nat)> {
    match (piece(s, ':', 0), piece(s, ':', 1), piece(s, ':', 2)) {
        (Some(h), Some(m), Some(sec)) => match (
            text::unsigned(h, 10, u64::MAX as nat),
            text::unsigned(m, 10, u64::MAX as nat),
            seconds_of(sec),
        ) {
            (Some(h), Some(m), Some(t)) => Some((h * 3600 + m * 60 + t.0, t.1)),
            _ => None,
        },
        _ => None,
    }
}

/// The moment that `YYYY-MM-DD+HH:MM:SS[.fraction]` stands for; nothing for
/// one before 1970 or out of a `Date`'s reach.
pub open spec fn date_of(s: Seq<char>) -> Option<Date> {
    match text::split_once(s, '+') {
        None => None,
        Some((day, time)) => match (day_of(day), time_of(time)) {
            (Some(days), Some((secs, nanos))) => if 0 <= days && days * 86_400 + secs <= u64::MAX {
                Some(Date { secs: (days * 86_400 + secs) as u64, nanos: nanos as u32 })
            } else {
                None
            },
            _ => None,
        },
    }
}

fn piece_of<'a>(s: &'a [char], c: char, k: u64) -> (r: Option<&'a [char]>)
    ensures
        match r {
            Some(p) => piece(s@, c, k as nat) == Some(p@),
            None => piece(s@, c, k as nat) is None,
        },
    decreases k,
{
    match text::split_once_at(s, c) {
        None => if k == 0 {
            Some(s)
        } else {
            None
        },
        Some((head, rest)) => if k == 0 {
            Some(head)
        } else {
            piece_of(rest, c, k - 1)
        },
    }
}

/// A run of `n` digits is less than ten to the power `n`.
proof fn lemma_value_bound(s: Seq<char>)
    requires
        text::all_digits(s, 10),
    ensures
        text::value_of(s, 10) < power(10, s.len()),
    decreases s.len(),
{
    if s.len() > 0 {
        assert(text::digit_value(s.last(), 10) is Some) by {
            assert(text::digit_value(s[s.len() - 1], 10) is Some);
        }
        assert forall|i: int| 0 <= i < s.drop_last().len() implies (#[trigger] text::digit_value(
            s.drop_last()[i],
            10,
        )) is Some by {
            assert(text::digit_value(s[i], 10) is Some);
        }
        lemma_value_bound(s.drop_last());
    }
}

proof fn lemma_power_product(a: nat, b: nat)
    ensures
        power(10, a) * power(10, b) == power(10, a + b),
    decreases a,
{
    if a > 0 {
        lemma_power_product((a - 1) as nat, b);
        assert(power(10, a) * power(10, b) == 10 * (power(10, (a - 1) as nat) * power(10, b)))
            by (nonlinear_arith)
            requires
                power(10, a) == 10 * power(10, (a - 1) as nat),
        ;
        assert(((a - 1) as nat + b) as nat == (a + b - 1) as nat);
    } else {
        assert(power(10, 0) == 1);
    }
}

proof fn lemma_nanos_bound(f: Seq<char>, n: nat)
    requires
        0 < f.len() <= 9,
        text::unsigned(f, 10, u32::MAX as nat) == Some(n),
    ensures
        n * power(10, (9 - f.len()) as nat) < 1_000_000_000,
{
    let body = if f[0] == '+' {
        f.skip(1)
    } else {
        f
    };
    lemma_value_bound(body);
    let e = (9 - f.len()) as nat;
    lemma_power_product(body.len(), e);
    reveal_with_fuel(power, 10);
    assert(power(10, 9) == 1_000_000_000);
    assert(power(10, 8) == 100_000_000);
    assert(power(10, e) > 0) by {
        lemma_power_positive(e);
    }
    assert(n * power(10, e) < power(10, body.len()) * power(10, e)) by (nonlinear_arith)
        requires
            n < power(10, body.len()),
            power(10, e) > 0,
    ;
}

proof fn lemma_power_positive(e: nat)
    ensures
        power(10, e) > 0,
    decreases e,
{
    if e > 0 {
        lemma_power_positive((e - 1) as nat);
    }
}

fn read_nanos(fraction: &[char]) -> (r: Option<u32>)
    ensures
        match r {
            Some(n) => nanos_of(fraction@) == Some(n as nat),
            None => nanos_of(fraction@) is None,
        },
{
    let f = if fraction.len() > 9 {
        slice_subrange(fraction, 0, 9)
    } else {
        fraction
    };
    assert(fraction@.len() > 9 ==> f@ =~= fraction@.take(9));
    if f.len() == 0 {
        return Some(0);
    }
    match text::parse_u32(f, 10) {
        None => None,
        Some(n) => {
            proof {
                lemma_nanos_bound(f@, n as nat);
            }
            let mut out: u64 = n as u64;
            let mut i: usize = f.len();
            let ghost e = (9 - f@.len()) as nat;
            assert(n * power(10, 0) == n) by (nonlinear_arith)
                requires
                    power(10, 0) == 1,
            ;
            while i < 9
                invariant
                    f@.len() <= i <= 9,
                    e == 9 - f@.len(),
                    n * power(10, e) < 1_000_000_000,
                    out == n * power(10, (i - f@.len()) as nat),
                decreases 9 - i,
            {
                proof {
                    let k = (i - f@.len()) as nat;
                    lemma_power_product(k + 1, (e - k - 1) as nat);
                    lemma_power_positive((e - k - 1) as nat);
                    assert(n * power(10, k + 1) <= n * power(10, e)) by (nonlinear_arith)
                        requires
                            power(10, k + 1) * power(10, (e - k - 1) as nat) == power(10, e),
                            power(10, (e - k - 1) as nat) > 0,
                    ;
                    assert(n * power(10, k + 1) == 10 * (n * power(10, k))) by (nonlinear_arith)
                        requires
                            power(10, k + 1) == 10 * power(10, k),
                    ;
                }
                out = out * 10;
                i += 1;
            }
            Some(out as u32)
        },
    }
}

fn read_seconds(s: &[char]) -> (r: Option<(u64, u32)>)
    ensures
        match r {
            Some(t) => seconds_of(s@) == Some((t.0 as nat, t.1 as nat)),
            None => seconds_of(s@) is None,
        },
{
    let none = slice_subrange(s, 0, 0);
    assert(none@ =~= Seq::<char>::empty());
    let (whole, fraction) = match text::split_once_at(s, '.') {
        Some(p) => p,
        None => (s, none),
    };
    match (text::parse_unsigned(whole, 10, u64::MAX), read_nanos(fraction)) {
        (Some(n), Some(nanos)) => Some((n, nanos)),
        _ => None,
    }
}

fn read_day(s: &[char]) -> (r: Option<i128>)
    ensures
        match r {
            Some(d) => day_of(s@) == Some(d as int) && d <= 0x1_0000_0000_0000_0000_0000,
            None => day_of(s@) is None,
        },
{
    match (piece_of(s, '-', 0), piece_of(s, '-', 1), piece_of(s, '-', 2)) {
        (Some(y), Some(m), Some(d)) => match (
            text::parse_signed(y),
            text::parse_u32(m, 10),
            text::parse_u32(d, 10),
        ) {
            (Some(y), Some(m), Some(d)) => Some(wide_days(y, m, d)),
            _ => None,
        },
        _ => None,
    }
}

fn read_time(s: &[char]) -> (r: Option<(u128, u32)>)
    ensures
        match r {
            Some(t) => time_of(s@) == Some((t.0 as nat, t.1 as nat)) && t.0
                <= 0x1_0000_0000_0000_0000_0000,
            None => time_of(s@) is None,
        },
{
    match (piece_of(s, ':', 0), piece_of(s, ':', 1), piece_of(s, ':', 2)) {
        (Some(h), Some(m), Some(sec)) => match (
            text::parse_unsigned(h, 10, u64::MAX),
            text::parse_unsigned(m, 10, u64::MAX),
            read_seconds(sec),
        ) {
            (Some(h), Some(m), Some(t)) => Some(
                (h as u128 * 3600 + m as u128 * 60 + t.0 as u128, t.1),
            ),
            _ => None,
        },
        _ => None,
    }
}

/// `YYYY-MM-DD+HH:MM:SS[.fraction]` (as written by the dump's date lists),
/// interpreted as UTC.
pub fn parse_date(s: &str) -> (r: Option<Date>)
    ensures
        r == date_of(s@),
{
    let v = text::chars_of(s);
    match text::split_once_at(v.as_slice(), '+') {
        None => None,
        Some((day, time)) => match (read_day(day), read_time(time)) {
            (Some(days), Some((secs, nanos))) => {
                // A date before 1970 has no moment here.
                if days < 0 {
                    return None;
                }
                let total: u128 = days as u128 * 86_400 + secs;
                if total <= u64::MAX as u128 {
                    Some(Date { secs: total as u64, nanos })
                } else {
                    None
                }
            },
            _ => None,
        },
    }
}

} // verus!
