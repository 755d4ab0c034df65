//! What the operations on texts have to do with each other.

use vstd::prelude::*;

use super::{
    chomp, digit_char, digit_value, digits, find, is_white, lemma_find, lemma_find_is,
    lemma_padded_value, lines, prefixed_hex, signed, split_once, strip_end, strip_start, trim,
    trim_end, trim_start, unsigned, zero_padded,
};

verus! {

/// A text is split at its first separator: what is put together from a part
/// without one, a separator and a rest comes apart into these two, and nothing
/// else does.
pub proof fn law_split_is_at_the_first(s: Seq<char>, c: char, a: Seq<char>, b: Seq<char>)
    ensures
        split_once(s, c) == Some((a, b)) <==> s == a + seq![c] + b && !a.contains(c),
        split_once(s, c) is None <==> !s.contains(c),
{
    lemma_find(s, c);
    if s == a + seq![c] + b && !a.contains(c) {
        let i = a.len() as int;
        assert(s[i] == c);
        assert forall|j: int| 0 <= j < i implies s[j] != c by {
            assert(s[j] == a[j]);
            assert(a.contains(a[j]));
        }
        lemma_find_is(s, c, i);
        assert(s.take(i) =~= a);
        assert(s.skip(i + 1) =~= b);
    }
    if split_once(s, c) == Some((a, b)) {
        let i = find(s, c)->0;
        assert(s =~= a + seq![c] + b);
        if a.contains(c) {
            let j = choose|j: int| 0 <= j < a.len() && a[j] == c;
            assert(s[j] == c);
        }
    }
}

/// An ending is taken off a text exactly where the text is something with that
/// ending behind it; and so with a beginning.
pub proof fn law_ends_are_taken_off(s: Seq<char>, end: Seq<char>, rest: Seq<char>)
    ensures
        strip_end(s, end) == Some(rest) <==> s == rest + end,
        strip_start(s, end) == Some(rest) <==> s == end + rest,
{
    if s == rest + end {
        assert(s.skip(s.len() - end.len()) =~= end);
        assert(s.take(s.len() - end.len()) =~= rest);
    }
    if strip_end(s, end) == Some(rest) {
        assert(s =~= rest + end);
    }
    if s == end + rest {
        assert(s.take(end.len() as int) =~= end);
        assert(s.skip(end.len() as int) =~= rest);
    }
    if strip_start(s, end) == Some(rest) {
        assert(s =~= end + rest);
    }
}

/// Lines, each with its line feed.
pub open spec fn written_lines(ls: Seq<Seq<char>>, feed: Seq<char>) -> Seq<char>
    decreases ls.len(),
{
    if ls.len() == 0 {
        Seq::empty()
    } else {
        ls[0] + feed + written_lines(ls.skip(1), feed)
    }
}

/// Lines that are written one behind the other, each with its line feed, with a
/// carriage return before it or without, are read back; and so is one more
/// behind them that has none.
pub proof fn law_written_lines_are_read(ls: Seq<Seq<char>>, crlf: bool, rest: Seq<char>)
    requires
        forall|k: int|
            0 <= k < ls.len() ==> !(#[trigger] ls[k]).contains('\n') && (crlf || !(ls[k].len() > 0
                && ls[k].last() == '\r')),
        !rest.contains('\n'),
    ensures
        ({
            let feed = if crlf {
                seq!['\r', '\n']
            } else {
                seq!['\n']
            };
            lines(written_lines(ls, feed) + rest) == if rest.len() == 0 {
                ls
            } else {
                ls.push(rest)
            }
        }),
    decreases ls.len(),
{
    let feed = if crlf {
        seq!['\r', '\n']
    } else {
        seq!['\n']
    };
    let s = written_lines(ls, feed) + rest;
    lemma_find(s, '\n');
    if ls.len() == 0 {
        assert(s =~= rest);
        if rest.len() == 0 {
            assert(lines(s) =~= ls);
        } else {
            assert(lines(s) =~= ls.push(rest));
        }
    } else {
        let t = ls.skip(1);
        assert forall|k: int| 0 <= k < t.len() implies !(#[trigger] t[k]).contains('\n') && (crlf
            || !(t[k].len() > 0 && t[k].last() == '\r')) by {
            assert(t[k] == ls[k + 1]);
        }
        law_written_lines_are_read(t, crlf, rest);
        let i = ls[0].len() + feed.len() - 1;
        assert(s =~= ls[0] + feed + (written_lines(t, feed) + rest));
        assert(s[i] == '\n');
        assert forall|j: int| 0 <= j < i implies s[j] != '\n' by {
            if j < ls[0].len() {
                assert(s[j] == ls[0][j]);
                assert(ls[0].contains(ls[0][j]));
            }
        }
        lemma_find_is(s, '\n', i);
        assert(s.skip(i + 1) =~= written_lines(t, feed) + rest);
        let line = s.take(i);
        if crlf {
            assert(line =~= ls[0].push('\r'));
            assert(line.drop_last() =~= ls[0]);
        } else {
            assert(line =~= ls[0]);
        }
        assert(chomp(line) == ls[0]);
        assert(lines(s) == seq![ls[0]] + lines(written_lines(t, feed) + rest));
        if rest.len() == 0 {
            assert(lines(s) =~= ls);
        } else {
            assert(lines(s) =~= ls.push(rest));
        }
    }
}

/// White space is a blank, a tab, a line feed or another end of a line, or one of the
/// wider and narrower blanks.
pub proof fn law_white_space(c: char)
    ensures
        is_white(c) <==> {
            ||| c == ' ' || c == '\t' || c == '\n' || c == '\u{b}' || c == '\u{c}' || c == '\r'
            ||| c == '\u{85}' || c == '\u{a0}' || c == '\u{1680}' || c == '\u{3000}'
            ||| '\u{2000}' <= c <= '\u{200a}'
            ||| c == '\u{2028}' || c == '\u{2029}' || c == '\u{202f}' || c == '\u{205f}'
        },
{
}

/// Every character of `s` is white space.
pub open spec fn all_white(s: Seq<char>) -> bool {
    forall|i: int| 0 <= i < s.len() ==> is_white(#[trigger] s[i])
}

proof fn lemma_trim_start(s: Seq<char>) -> (a: Seq<char>)
    ensures
        all_white(a),
        s == a + trim_start(s),
        trim_start(s).len() > 0 ==> !is_white(trim_start(s)[0]),
    decreases s.len(),
{
    if s.len() > 0 && is_white(s[0]) {
        let b = lemma_trim_start(s.skip(1));
        let a = seq![s[0]] + b;
        assert(s =~= seq![s[0]] + s.skip(1));
        assert(s =~= a + trim_start(s));
        a
    } else {
        assert(s =~= Seq::<char>::empty() + s);
        Seq::empty()
    }
}

proof fn lemma_trim_end(s: Seq<char>) -> (b: Seq<char>)
    ensures
        all_white(b),
        s == trim_end(s) + b,
        trim_end(s).len() > 0 ==> !is_white(trim_end(s).last()),
    decreases s.len(),
{
    if s.len() > 0 && is_white(s.last()) {
        let a = lemma_trim_end(s.drop_last());
        let b = a.push(s.last());
        assert(s =~= s.drop_last().push(s.last()));
        assert(s =~= trim_end(s) + b);
        b
    } else {
        assert(s =~= s + Seq::<char>::empty());
        Seq::empty()
    }
}

/// What is trimmed off a text is white space, at its two ends, and all that
/// there is of it.
pub proof fn law_only_white_space_is_trimmed(s: Seq<char>) -> (r: (Seq<char>, Seq<char>))
    ensures
        s == r.0 + trim(s) + r.1,
        all_white(r.0),
        all_white(r.1),
        trim(s).len() > 0 ==> !is_white(trim(s)[0]) && !is_white(trim(s).last()),
{
    let a = lemma_trim_start(s);
    let t = trim_start(s);
    let b = lemma_trim_end(t);
    assert(s =~= a + trim(s) + b);
    if trim(s).len() > 0 {
        assert(trim(s)[0] == t[0]);
    }
    (a, b)
}

/// A text between white space is what is left when that is trimmed off.
pub proof fn law_white_space_around_is_trimmed(a: Seq<char>, s: Seq<char>, b: Seq<char>)
    requires
        all_white(a),
        all_white(b),
        s.len() > 0 ==> !is_white(s[0]) && !is_white(s.last()),
    ensures
        trim(a + s + b) == s,
{
    let x = a + s + b;
    let (p, q) = law_only_white_space_is_trimmed(x);
    let t = trim(x);
    if s.len() == 0 {
        if t.len() > 0 {
            assert(x[p.len() as int] == t[0]);
            if p.len() < a.len() {
                assert(x[p.len() as int] == a[p.len() as int]);
            } else {
                assert(x[p.len() as int] == b[p.len() - a.len()]);
            }
        }
        assert(t =~= s);
    } else {
        assert(x[a.len() as int] == s[0]);
        assert(x[a.len() + s.len() - 1] == s.last());
        if t.len() == 0 {
            if a.len() < p.len() {
                assert(x[a.len() as int] == p[a.len() as int]);
            } else {
                assert(x[a.len() as int] == q[a.len() - p.len()]);
            }
        } else {
            if a.len() < p.len() {
                assert(x[a.len() as int] == p[a.len() as int]);
            }
            if p.len() < a.len() {
                assert(x[p.len() as int] == t[0]);
                assert(x[p.len() as int] == a[p.len() as int]);
            }
            assert(p.len() == a.len());
            let last = x.len() - q.len() - 1;
            assert(x[last] == t.last());
            if b.len() < q.len() {
                assert(x[a.len() + s.len() - 1] == q[a.len() + s.len() - 1 - p.len() - t.len()]);
            }
            if q.len() < b.len() {
                assert(x[last] == b[last - a.len() - s.len()]);
            }
            assert(q.len() == b.len());
            assert forall|k: int| 0 <= k < s.len() implies t[k] == s[k] by {
                assert(x[a.len() + k] == s[k]);
                assert(x[p.len() + k] == t[k]);
            }
            assert(t =~= s);
        }
    }
}

/// A number is read where it is one, in decimal or in hexadecimal, behind a `+`
/// or not and with zeros before it or not, as far as it is not too great.
pub proof fn law_written_numbers_are_read(n: nat, radix: nat, width: nat, max: nat)
    requires
        2 <= radix <= 16,
    ensures
        ({
            let s = zero_padded(digits(n, radix), width);
            let r = if n <= max {
                Some(n)
            } else {
                None
            };
            unsigned(s, radix, max) == r && unsigned(seq!['+'] + s, radix, max) == r
        }),
{
    lemma_padded_value(n, radix, width);
    let s = zero_padded(digits(n, radix), width);
    assert(digit_value(s[0], radix) is Some);
    assert(s[0] != '+');
    assert((seq!['+'] + s).skip(1) =~= s);
}

/// What each digit stands for, in either case.
pub proof fn law_digits(c: char, v: nat)
    ensures
        digit_value(c, 10) == Some(v) <==> v < 10 && c as nat == '0' as nat + v,
        digit_value(c, 16) == Some(v) <==> {
            ||| v < 10 && c as nat == '0' as nat + v
            ||| 10 <= v < 16 && (c as nat == 'a' as nat + v - 10 || c as nat == 'A' as nat + v - 10)
        },
{
}

/// Nothing is read as a number that holds anything but digits behind one `+`.
pub proof fn law_only_digits_are_read(s: Seq<char>, radix: nat, max: nat, i: int)
    requires
        0 <= i < s.len(),
        !('0' <= s[i] <= '9' || 'a' <= s[i] <= 'f' || 'A' <= s[i] <= 'F'),
        s[i] != '+' || i > 0,
        radix <= 16,
    ensures
        unsigned(s, radix, max) is None,
        unsigned(Seq::empty(), radix, max) is None,
        unsigned(seq!['+'], radix, max) is None,
{
    let body = if s.len() > 0 && s[0] == '+' {
        s.skip(1)
    } else {
        s
    };
    if s[0] == '+' {
        assert(body[i - 1] == s[i]);
        assert(digit_value(body[i - 1], radix) is None);
    } else {
        assert(digit_value(body[i], radix) is None);
    }
    assert(seq!['+'].skip(1) =~= Seq::<char>::empty());
}

/// A number is written without zeros before it, in lower-case digits, and at least as
/// wide as is asked for.
pub proof fn law_how_numbers_are_written(n: nat, radix: nat, width: nat)
    requires
        2 <= radix <= 16,
    ensures
        digits(n, radix).len() > 0,
        n > 0 ==> digits(n, radix)[0] != '0',
        n == 0 ==> digits(n, radix) == seq!['0'],
        forall|i: int|
            0 <= i < digits(n, radix).len() ==> '0' <= (#[trigger] digits(n, radix)[i]) <= '9'
                || 'a' <= digits(n, radix)[i] <= 'f',
        zero_padded(digits(n, radix), width).len() == if digits(n, radix).len() < width {
            width
        } else {
            digits(n, radix).len()
        },
    decreases n,
{
    if n >= radix {
        super::lemma_quotient_smaller(n, radix);
        let q = n / radix;
        assert(q > 0) by (nonlinear_arith)
            requires
                n >= radix,
                radix > 0,
                q == n / radix,
        ;
        assert(n % radix < radix) by (nonlinear_arith)
            requires
                radix > 0,
        ;
        law_how_numbers_are_written(q, radix, width);
        let s = digits(n, radix);
        let t = digits(q, radix);
        assert(s == t.push(digit_char(n % radix)));
        assert(s[0] == t[0]);
        assert forall|i: int| 0 <= i < s.len() implies '0' <= (#[trigger] s[i]) <= '9' || 'a'
            <= s[i] <= 'f' by {
            if i < t.len() {
                assert(s[i] == t[i]);
            }
        }
    } else {
        assert(digits(n, radix) =~= seq![digit_char(n)]);
    }
}

/// A number behind `0x` is its digits in hexadecimal, with zeros before them up to the
/// width, which counts the two signs too.
pub proof fn law_numbers_behind_a_prefix(n: nat, width: nat)
    ensures
        prefixed_hex(n, width).len() >= width,
        prefixed_hex(n, width).take(2) == seq!['0', 'x'],
        unsigned(prefixed_hex(n, width).skip(2), 16, n) == Some(n),
        width <= 3 ==> prefixed_hex(n, width).skip(2) == digits(n, 16),
{
    let w = if width >= 2 {
        (width - 2) as nat
    } else {
        0
    };
    lemma_padded_value(n, 16, w);
    law_written_numbers_are_read(n, 16, w, n);
    law_how_numbers_are_written(n, 16, w);
    let s = prefixed_hex(n, width);
    assert(s.take(2) =~= seq!['0', 'x']);
    assert(s.skip(2) =~= zero_padded(digits(n, 16), w));
    if width <= 3 {
        assert(zero_padded(digits(n, 16), w) =~= digits(n, 16));
    }
}

/// A whole number may carry a sign: a minus makes it negative, and a plus changes
/// nothing.
pub proof fn law_signs_are_read(n: nat)
    requires
        n <= 0x7fff_ffff_ffff_ffff,
    ensures
        signed(digits(n, 10)) == Some(n as int),
        signed(seq!['+'] + digits(n, 10)) == Some(n as int),
        signed(seq!['-'] + digits(n, 10)) == Some(-(n as int)),
{
    let s = digits(n, 10);
    super::lemma_digits_read_back(n, 10);
    law_written_numbers_are_read(n, 10, 0, 0x7fff_ffff_ffff_ffff);
    assert(digit_value(s[0], 10) is Some);
    assert(s[0] != '-');
    let (p, m) = (seq!['+'] + s, seq!['-'] + s);
    assert(p[0] == '+' && m[0] == '-');
    assert(m.skip(1) =~= s);
    assert(p.skip(1) =~= s);
    assert(zero_padded(s, 0) =~= s);
}

} // verus!
