//! How dates are written and read.

use vstd::prelude::*;

use super::{
    civil_days, date_of, day_of, is_date, law_calendar_inverse, nanos_of, piece, power, seconds_of,
    stamp, time_of, Date,
};
use crate::text;
use crate::text::laws;

verus! {

/// A number in decimal, with zeros before it up to a width.
pub open spec fn padded(n: nat, width: nat) -> Seq<char> {
    text::zero_padded(text::dec(n), width)
}

/// Three numbers with a separator between them.
pub open spec fn three(a: Seq<char>, b: Seq<char>, c: Seq<char>, sep: char) -> Seq<char> {
    a + seq![sep] + (b + seq![sep] + c)
}

/// The seconds from 1970-01-01 to a moment.
pub open spec fn moment(y: nat, m: nat, d: nat, hour: nat, minute: nat, second: nat) -> int {
    civil_days(y as int, m as int, d as int) * 86_400 + hour * 3600 + minute * 60 + second
}

/// A stamp is the date and the time of its moment, written out.
pub proof fn law_a_stamp_is_the_moment(
    y: nat,
    m: nat,
    d: nat,
    hour: nat,
    minute: nat,
    second: nat,
)
    requires
        is_date(y as int, m as int, d as int),
        hour < 24,
        minute < 60,
        second < 60,
        moment(y, m, d, hour, minute, second) >= 0,
    ensures
        stamp(moment(y, m, d, hour, minute, second) as nat) == three(
            padded(y, 4),
            padded(m, 2),
            padded(d, 2),
            '-',
        ) + seq!['T'] + three(padded(hour, 2), padded(minute, 2), padded(second, 2), '-'),
{
    let days = civil_days(y as int, m as int, d as int);
    let secs = moment(y, m, d, hour, minute, second);
    let rem = hour * 3600 + minute * 60 + second;
    assert(secs / 86_400 == days && secs % 86_400 == rem);
    law_calendar_inverse(days, y as int, m as int, d as int);
    assert((rem / 60) % 60 == minute && rem / 3600 == hour && rem % 60 == second);
    reveal_strlit("-");
    reveal_strlit("T");
    assert(stamp(secs as nat) =~= three(padded(y, 4), padded(m, 2), padded(d, 2), '-') + seq!['T']
        + three(padded(hour, 2), padded(minute, 2), padded(second, 2), '-'));
}

proof fn lemma_lacks(s: Seq<char>, c: char)
    requires
        text::all_digits(s, 10),
        text::digit_value(c, 10) is None,
    ensures
        !s.contains(c),
{
    if s.contains(c) {
        let i = choose|i: int| 0 <= i < s.len() && s[i] == c;
        assert(text::digit_value(s[i], 10) is Some);
    }
}

proof fn lemma_three(a: Seq<char>, b: Seq<char>, c: Seq<char>, sep: char)
    requires
        !a.contains(sep),
        !b.contains(sep),
        !c.contains(sep),
    ensures
        piece(three(a, b, c, sep), sep, 0) == Some(a),
        piece(three(a, b, c, sep), sep, 1) == Some(b),
        piece(three(a, b, c, sep), sep, 2) == Some(c),
{
    let rest = b + seq![sep] + c;
    laws::law_split_is_at_the_first(three(a, b, c, sep), sep, a, rest);
    laws::law_split_is_at_the_first(rest, sep, b, c);
    laws::law_split_is_at_the_first(c, sep, c, c);
    reveal_with_fuel(piece, 3);
}

proof fn lemma_number(n: nat, width: nat, max: nat)
    requires
        n <= max,
    ensures
        text::unsigned(padded(n, width), 10, max) == Some(n),
        text::all_digits(padded(n, width), 10),
        padded(n, width).len() > 0,
        text::digit_value(padded(n, width)[0], 10) is Some,
{
    text::lemma_padded_value(n, 10, width);
    laws::law_written_numbers_are_read(n, 10, width, max);
    assert(text::digit_value(padded(n, width)[0], 10) is Some);
}

/// A date and a time, as a date list writes them.
pub open spec fn written(
    y: nat,
    m: nat,
    d: nat,
    hour: nat,
    minute: nat,
    seconds: Seq<char>,
) -> Seq<char> {
    three(padded(y, 4), padded(m, 2), padded(d, 2), '-') + seq!['+'] + three(
        padded(hour, 2),
        padded(minute, 2),
        seconds,
        ':',
    )
}

/// A date and a time that are written out are read back, to the second where no
/// fraction follows, and to the nanosecond where one does: its first nine digits
/// count, and where there are fewer, zeros stand for the rest.
pub proof fn law_written_dates_are_read(
    y: nat,
    m: nat,
    d: nat,
    hour: nat,
    minute: nat,
    second: nat,
    fraction: Seq<char>,
)
    requires
        y <= 0x7fff_ffff_ffff_ffff,
        m <= u32::MAX,
        d <= u32::MAX,
        civil_days(y as int, m as int, d as int) >= 0,
        moment(y, m, d, hour, minute, second) <= u64::MAX,
        text::all_digits(fraction, 10),
    ensures
        date_of(written(y, m, d, hour, minute, padded(second, 2))) == Some(
            (Date { secs: moment(y, m, d, hour, minute, second) as u64, nanos: 0 }),
        ),
        date_of(written(y, m, d, hour, minute, padded(second, 2) + seq!['.'] + fraction)) == Some(
            (Date {
                secs: moment(y, m, d, hour, minute, second) as u64,
                nanos: text::value_of((fraction + zeros(9)).take(9), 10) as u32,
            }),
        ),
{
    let (a, b, c) = (padded(y, 4), padded(m, 2), padded(d, 2));
    let (h, n, s) = (padded(hour, 2), padded(minute, 2), padded(second, 2));
    lemma_number(y, 4, 0x7fff_ffff_ffff_ffff);
    lemma_number(m, 2, u32::MAX as nat);
    lemma_number(d, 2, u32::MAX as nat);
    lemma_number(hour, 2, u64::MAX as nat);
    lemma_number(minute, 2, u64::MAX as nat);
    lemma_number(second, 2, u64::MAX as nat);
    lemma_lacks(a, '-');
    lemma_lacks(b, '-');
    lemma_lacks(c, '-');
    lemma_three(a, b, c, '-');
    let day = three(a, b, c, '-');
    assert(day_of(day) == Some(civil_days(y as int, m as int, d as int)));
    lemma_lacks(a, '+');
    lemma_lacks(b, '+');
    lemma_lacks(c, '+');
    assert(!day.contains('+')) by {
        if day.contains('+') {
            let i = choose|i: int| 0 <= i < day.len() && day[i] == '+';
            if i < a.len() {
                assert(a.contains(a[i]));
            } else if a.len() < i < a.len() + 1 + b.len() {
                assert(b.contains(b[i - a.len() - 1]));
            } else if i > a.len() + 1 + b.len() {
                assert(c.contains(c[i - a.len() - b.len() - 2]));
            }
        }
    }
    lemma_lacks(h, ':');
    lemma_lacks(n, ':');
    lemma_lacks(s, ':');
    lemma_lacks(s, '.');
    lemma_lacks(fraction, ':');
    lemma_three(h, n, s, ':');
    let plain = three(h, n, s, ':');
    laws::law_split_is_at_the_first(s, '.', s, s);
    assert(seconds_of(s) == Some((second, 0nat)));
    laws::law_split_is_at_the_first(day + seq!['+'] + plain, '+', day, plain);
    let t = s + seq!['.'] + fraction;
    assert(!t.contains(':')) by {
        if t.contains(':') {
            let i = choose|i: int| 0 <= i < t.len() && t[i] == ':';
            if i < s.len() {
                assert(s.contains(s[i]));
            } else if i > s.len() {
                assert(fraction.contains(fraction[i - s.len() - 1]));
            }
        }
    }
    lemma_three(h, n, t, ':');
    let long = three(h, n, t, ':');
    laws::law_split_is_at_the_first(t, '.', s, fraction);
    lemma_fraction(fraction);
    laws::law_split_is_at_the_first(day + seq!['+'] + long, '+', day, long);
}

/// So many zeros.
pub open spec fn zeros(n: nat) -> Seq<char> {
    Seq::new(n, |i: int| '0')
}

proof fn lemma_zeros_behind(s: Seq<char>, n: nat)
    ensures
        text::value_of(s + zeros(n), 10) == text::value_of(s, 10) * power(10, n),
    decreases n,
{
    if n == 0 {
        assert(s + zeros(n) =~= s);
        let v = text::value_of(s, 10);
        assert(v * 1 == v);
        assert(power(10, n) == 1);
    } else {
        let k = (n - 1) as nat;
        lemma_zeros_behind(s, k);
        assert((s + zeros(n)).drop_last() =~= s + zeros(k));
        assert((s + zeros(n)).last() == '0');
        let (v, p) = (text::value_of(s, 10), power(10, k));
        assert(v * p * 10 == v * (10 * p)) by (nonlinear_arith);
        assert(text::digit_value('0', 10) == Some(0nat));
        assert(text::value_of(s + zeros(n), 10) == v * p * 10);
    }
}

proof fn lemma_value_bound(s: Seq<char>)
    requires
        text::all_digits(s, 10),
    ensures
        text::value_of(s, 10) < power(10, s.len()),
    decreases s.len(),
{
    if s.len() > 0 {
        let t = s.drop_last();
        assert forall|i: int| 0 <= i < t.len() implies (#[trigger] text::digit_value(
            t[i],
            10,
        )) is Some by {
            assert(text::digit_value(s[i], 10) is Some);
        }
        lemma_value_bound(t);
        assert(text::digit_value(s[s.len() - 1], 10) is Some);
    }
}

proof fn lemma_fraction(f: Seq<char>)
    requires
        text::all_digits(f, 10),
    ensures
        nanos_of(f) == Some(text::value_of((f + zeros(9)).take(9), 10)),
        text::value_of((f + zeros(9)).take(9), 10) <= u32::MAX,
{
    let g = if f.len() > 9 {
        f.take(9)
    } else {
        f
    };
    let n = (9 - g.len()) as nat;
    let all = (f + zeros(9)).take(9);
    assert(all =~= g + zeros(n));
    lemma_zeros_behind(g, n);
    assert(text::all_digits(all, 10)) by {
        assert forall|i: int| 0 <= i < all.len() implies (#[trigger] text::digit_value(
            all[i],
            10,
        )) is Some by {
            if i < f.len() {
                assert(text::digit_value(f[i], 10) is Some);
            }
        }
    }
    lemma_value_bound(all);
    reveal_with_fuel(power, 10);
    assert(power(10, 9) == 1_000_000_000);
    if g.len() > 0 {
        assert(text::all_digits(g, 10)) by {
            assert forall|i: int| 0 <= i < g.len() implies (#[trigger] text::digit_value(
                g[i],
                10,
            )) is Some by {
                assert(text::digit_value(f[i], 10) is Some);
            }
        }
        assert(text::digit_value(g[0], 10) is Some);
        let (v, p) = (text::value_of(g, 10), power(10, n));
        lemma_power_positive(n);
        assert(v <= v * p) by (nonlinear_arith)
            requires
                p >= 1,
        ;
    } else {
        assert(text::value_of(g, 10) == 0);
        assert(0 * power(10, n) == 0);
    }
}

proof fn lemma_power_positive(n: nat)
    ensures
        power(10, n) >= 1,
    decreases n,
{
    if n > 0 {
        lemma_power_positive((n - 1) as nat);
    }
}

/// A text is read as a date only where it has a day and a time on the two sides of
/// its first `+`.
pub proof fn law_only_dates_are_read(s: Seq<char>)
    ensures
        date_of(s) is Some ==> exists|day: Seq<char>, time: Seq<char>|
            s == #[trigger] (day + seq!['+'] + time) && !day.contains('+') && day_of(day) is Some
                && time_of(time) is Some && day_of(day)->0 >= 0,
{
    if date_of(s) is Some {
        let (day, time) = text::split_once(s, '+')->0;
        laws::law_split_is_at_the_first(s, '+', day, time);
        assert(s == day + seq!['+'] + time);
    }
}

} // verus!
