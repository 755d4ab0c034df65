//! Characters, numbers and the small text operations that file names, date
//! lists and key files are read with.

use vstd::prelude::*;
use vstd::slice::slice_subrange;

pub mod laws;

verus! {

// ---- std functions that vstd leaves unspecified ---------------------------

/// `String::push`: appends one character.
pub assume_specification[ String::push ](s: &mut String, c: char)
    ensures
        final(s)@ == old(s)@.push(c),
;

/// What `String::from_utf8_lossy` makes of some bytes.
pub uninterp spec fn utf8_lossy(bytes: Seq<u8>) -> Seq<char>;

/// `String::from_utf8_lossy`: the text of valid UTF-8, with a replacement
/// character for whatever is not. Where, and for how many bytes each stands, is
/// not stated.
#[verifier::external_body]
pub(crate) fn from_utf8_lossy(bytes: &[u8]) -> (r: String)
    ensures
        r@ == utf8_lossy(bytes@),
        vstd::utf8::valid_utf8(bytes@) ==> r@ == vstd::utf8::decode_utf8(bytes@),
        !vstd::utf8::valid_utf8(bytes@) ==> r@.contains('\u{fffd}'),
{
    String::from_utf8_lossy(bytes).into_owned()
}

/// What `{:?}` makes of a text.
pub uninterp spec fn quoted(s: Seq<char>) -> Seq<char>;

/// `format!` with `{:?}` on a text: the text between double quotes, with
/// whatever could not be read there escaped. Which characters are escaped, and
/// how, is not stated.
#[verifier::external_body]
pub(crate) fn quote(s: &str) -> (r: String)
    ensures
        r@ == quoted(s@),
{
    format!("{:?}", s)
}

/// What `{:?}` makes of a character.
pub uninterp spec fn quoted_char(c: char) -> Seq<char>;

/// `format!` with `{:?}` on a character: the character between single quotes,
/// escaped where it could not be read there. Which characters are escaped, and
/// how, is not stated.
#[verifier::external_body]
pub(crate) fn quote_char(c: char) -> (r: String)
    ensures
        r@ == quoted_char(c),
{
    format!("{:?}", c)
}

/// What the standard library says of a text that it cannot read as a `u32`.
pub uninterp spec fn number_refusal(s: Seq<char>, radix: u32) -> Seq<char>;

/// `u32::from_str_radix`: digits behind an optional `+`, as long as the number
/// fits. Of a text that is refused, what the error says is a function of the
/// text and the radix; its wording is not stated.
#[verifier::external_body]
pub(crate) fn read_u32(s: &str, radix: u32) -> (r: core::result::Result<u32, String>)
    requires
        2 <= radix <= 16,
    ensures
        match r {
            Ok(v) => unsigned(s@, radix as nat, u32::MAX as nat) == Some(v as nat),
            Err(m) => unsigned(s@, radix as nat, u32::MAX as nat) is None && m@ == number_refusal(
                s@,
                radix,
            ),
        },
{
    u32::from_str_radix(s, radix).map_err(|e| e.to_string())
}

/// The text of some bytes, as far as they are UTF-8.
pub open spec fn lossy(bytes: Seq<u8>) -> Seq<char> {
    if vstd::utf8::valid_utf8(bytes) {
        vstd::utf8::decode_utf8(bytes)
    } else {
        utf8_lossy(bytes)
    }
}

/// The bytes of a text in UTF-8.
pub open spec fn utf8(s: Seq<char>) -> Seq<u8> {
    vstd::utf8::encode_utf8(s)
}

/// A text is read back from its bytes, which are UTF-8.
pub proof fn law_text_round_trip(s: Seq<char>)
    ensures
        vstd::utf8::valid_utf8(utf8(s)),
        vstd::utf8::decode_utf8(utf8(s)) == s,
        lossy(utf8(s)) == s,
{
    broadcast use vstd::utf8::group_utf8_lib;

}

/// The bytes of a text in UTF-8.
pub fn bytes_of(s: &str) -> (r: Vec<u8>)
    ensures
        r@ == utf8(s@),
{
    copy_bytes(s.as_bytes())
}

// ---- characters -----------------------------------------------------------

/// The characters of `s`.
pub fn chars_of(s: &str) -> (r: Vec<char>)
    ensures
        r@ == s@,
{
    let mut r: Vec<char> = Vec::new();
    for c in it: s.chars()
        invariant
            r@ == s@.take(it.index()),
            it.seq() == s@,
    {
        proof {
            assert(s@.take(it.index() + 1) =~= s@.take(it.index()).push(s@[it.index()]));
        }
        r.push(c);
    }
    assert(s@.take(s@.len() as int) =~= s@);
    r
}

/// The string made of `v`.
pub fn string_of(v: &[char]) -> (r: String)
    ensures
        r@ == v@,
{
    let mut r = String::new();
    push_chars(&mut r, v);
    assert(Seq::<char>::empty() + v@ =~= v@);
    r
}

/// Append every character of `v`.
pub fn push_chars(out: &mut String, v: &[char])
    ensures
        final(out)@ == old(out)@ + v@,
{
    let ghost before = out@;
    let mut i: usize = 0;
    assert(before + v@.take(0) =~= before);
    while i < v.len()
        invariant
            i <= v@.len(),
            out@ == before + v@.take(i as int),
        decreases v@.len() - i,
    {
        out.push(v[i]);
        assert(v@.take(i + 1) =~= v@.take(i as int).push(v@[i as int]));
        assert(before + v@.take(i + 1) =~= (before + v@.take(i as int)).push(v@[i as int]));
        i += 1;
    }
    assert(v@.take(v@.len() as int) =~= v@);
}

/// Append a string.
pub fn push_text(out: &mut String, s: &str)
    ensures
        final(out)@ == old(out)@ + s@,
{
    let v = chars_of(s);
    push_chars(out, v.as_slice());
}

/// An owned copy of a string.
pub fn owned(s: &str) -> (r: String)
    ensures
        r@ == s@,
{
    let v = chars_of(s);
    string_of(v.as_slice())
}

/// Whether two slices of characters are the same.
pub fn same_chars(a: &[char], b: &[char]) -> (r: bool)
    ensures
        r == (a@ == b@),
{
    if a.len() != b.len() {
        return false;
    }
    let mut i: usize = 0;
    while i < a.len()
        invariant
            i <= a@.len(),
            a@.len() == b@.len(),
            forall|j: int| 0 <= j < i ==> a@[j] == b@[j],
        decreases a@.len() - i,
    {
        if a[i] != b[i] {
            assert(a@[i as int] != b@[i as int]);
            return false;
        }
        i += 1;
    }
    assert(a@ =~= b@);
    true
}

/// Whether two strings are the same.
pub fn same_text(a: &str, b: &str) -> (r: bool)
    ensures
        r == (a@ == b@),
{
    let x = chars_of(a);
    let y = chars_of(b);
    same_chars(x.as_slice(), y.as_slice())
}

/// Whether two byte slices are the same.
pub fn same_bytes(a: &[u8], b: &[u8]) -> (r: bool)
    ensures
        r == (a@ == b@),
{
    if a.len() != b.len() {
        return false;
    }
    let mut i: usize = 0;
    while i < a.len()
        invariant
            i <= a@.len(),
            a@.len() == b@.len(),
            forall|j: int| 0 <= j < i ==> a@[j] == b@[j],
        decreases a@.len() - i,
    {
        if a[i] != b[i] {
            assert(a@[i as int] != b@[i as int]);
            return false;
        }
        i += 1;
    }
    assert(a@ =~= b@);
    true
}

/// A copy of `b`.
pub fn copy_bytes(b: &[u8]) -> (r: Vec<u8>)
    ensures
        r@ == b@,
{
    let mut r: Vec<u8> = Vec::new();
    r.extend_from_slice(b);
    assert(r@ =~= b@);
    r
}

// ---- numbers as text ------------------------------------------------------

/// The lower-case digit that stands for `d` (below 16).
pub open spec fn digit_char(d: nat) -> char {
    if d < 10 {
        (0x30 + d) as char
    } else {
        (0x57 + d) as char
    }
}

pub proof fn lemma_quotient_smaller(n: nat, radix: nat)
    by (nonlinear_arith)
    requires
        2 <= radix <= n,
    ensures
        n / radix < n,
{
}

/// `n` written in base `radix`, without leading zeros.
pub open spec fn digits(n: nat, radix: nat) -> Seq<char>
    decreases n,
{
    if radix < 2 || n < radix {
        seq![digit_char(n)]
    } else {
        proof {
            lemma_quotient_smaller(n, radix);
        }
        digits(n / radix, radix).push(digit_char(n % radix))
    }
}

/// `n` in decimal.
pub open spec fn dec(n: nat) -> Seq<char> {
    digits(n, 10)
}

/// `s`, with as many leading zeros as it takes to be `width` long.
pub open spec fn zero_padded(s: Seq<char>, width: nat) -> Seq<char> {
    if s.len() >= width {
        s
    } else {
        Seq::new((width - s.len()) as nat, |i: int| '0') + s
    }
}

/// `n` in lower-case hexadecimal, at least eight digits.
pub open spec fn hex8(n: nat) -> Seq<char> {
    zero_padded(digits(n, 16), 8)
}

/// `n` in hexadecimal behind `0x`, at least `width` characters in all.
pub open spec fn prefixed_hex(n: nat, width: nat) -> Seq<char> {
    seq!['0', 'x'] + zero_padded(digits(n, 16), if width >= 2 { (width - 2) as nat } else { 0 })
}

fn digit_of(d: u64) -> (c: char)
    requires
        d < 16,
    ensures
        c == digit_char(d as nat),
{
    if d < 10 {
        (0x30u8 + d as u8) as char
    } else {
        (0x57u8 + d as u8) as char
    }
}

/// `n` in base `radix`.
pub fn digits_of(n: u64, radix: u64) -> (r: Vec<char>)
    requires
        2 <= radix <= 16,
    ensures
        r@ == digits(n as nat, radix as nat),
    decreases n,
{
    if n >= radix {
        proof {
            lemma_quotient_smaller(n as nat, radix as nat);
        }
        let mut r = digits_of(n / radix, radix);
        r.push(digit_of(n % radix));
        r
    } else {
        let mut r: Vec<char> = Vec::new();
        r.push(digit_of(n));
        assert(r@ =~= digits(n as nat, radix as nat));
        r
    }
}

/// Append `n` in decimal.
pub fn push_dec(out: &mut String, n: u64)
    ensures
        final(out)@ == old(out)@ + dec(n as nat),
{
    let v = digits_of(n, 10);
    push_chars(out, v.as_slice());
}

/// Append `v`, padded with leading zeros to `width`.
fn push_zero_padded(out: &mut String, v: &[char], width: usize)
    ensures
        final(out)@ == old(out)@ + zero_padded(v@, width as nat),
{
    let ghost before = out@;
    if v.len() < width {
        let missing: usize = width - v.len();
        let mut i: usize = 0;
        while i < missing
            invariant
                i <= missing,
                out@ == before + Seq::new(i as nat, |j: int| '0'),
            decreases missing - i,
        {
            out.push('0');
            i += 1;
            assert(out@ =~= before + Seq::new(i as nat, |j: int| '0'));
        }
        push_chars(out, v);
        assert(out@ =~= before + zero_padded(v@, width as nat));
    } else {
        push_chars(out, v);
    }
}

/// A number in decimal.
pub fn decimal(n: u64) -> (r: String)
    ensures
        r@ == dec(n as nat),
{
    let mut s = String::new();
    push_dec(&mut s, n);
    assert(s@ =~= dec(n as nat));
    s
}

/// Append `n` in decimal, at least `width` digits.
pub fn push_dec_padded(out: &mut String, n: u64, width: usize)
    ensures
        final(out)@ == old(out)@ + zero_padded(dec(n as nat), width as nat),
{
    let v = digits_of(n, 10);
    push_zero_padded(out, v.as_slice(), width);
}

/// Append `n` as eight hexadecimal digits.
pub fn push_hex8(out: &mut String, n: u32)
    ensures
        final(out)@ == old(out)@ + hex8(n as nat),
{
    let v = digits_of(n as u64, 16);
    push_zero_padded(out, v.as_slice(), 8);
}

/// Append `n` in hexadecimal behind `0x`, at least `width` characters.
pub fn push_prefixed_hex(out: &mut String, n: u64, width: usize)
    ensures
        final(out)@ == old(out)@ + prefixed_hex(n as nat, width as nat),
{
    let ghost before = out@;
    let v = digits_of(n, 16);
    out.push('0');
    out.push('x');
    let inner: usize = if width >= 2 { width - 2 } else { 0 };
    push_zero_padded(out, v.as_slice(), inner);
    assert(out@ =~= before + prefixed_hex(n as nat, width as nat));
}

// ---- text as numbers ------------------------------------------------------

/// The value of a digit, in either case.
pub open spec fn digit_value(c: char, radix: nat) -> Option<nat> {
    let v = if '0' <= c <= '9' {
        (c as nat - 0x30) as nat
    } else if 'a' <= c <= 'z' {
        (c as nat - 0x57) as nat
    } else if 'A' <= c <= 'Z' {
        (c as nat - 0x37) as nat
    } else {
        99
    };
    if v < radix {
        Some(v)
    } else {
        None
    }
}

pub open spec fn all_digits(s: Seq<char>, radix: nat) -> bool {
    forall|i: int| 0 <= i < s.len() ==> (#[trigger] digit_value(s[i], radix)) is Some
}

/// The number that a run of digits stands for.
pub open spec fn value_of(s: Seq<char>, radix: nat) -> nat
    decreases s.len(),
{
    if s.len() == 0 {
        0
    } else {
        value_of(s.drop_last(), radix) * radix + digit_value(s.last(), radix)->0
    }
}

/// The unsigned number that `s` spells in base `radix`, when there is one
/// and it is at most `max`: digits, behind one optional `+`.
pub open spec fn unsigned(s: Seq<char>, radix: nat, max: nat) -> Option<nat> {
    let body = if s.len() > 0 && s[0] == '+' { s.skip(1) } else { s };
    if body.len() > 0 && all_digits(body, radix) && value_of(body, radix) <= max {
        Some(value_of(body, radix))
    } else {
        None
    }
}

/// The signed decimal number that `s` spells, when it fits 64 bits: digits,
/// behind one optional sign.
pub open spec fn signed(s: Seq<char>) -> Option<int> {
    if s.len() > 0 && s[0] == '-' {
        let body = s.skip(1);
        if body.len() > 0 && all_digits(body, 10) && value_of(body, 10) <= 0x8000_0000_0000_0000 {
            Some(-(value_of(body, 10) as int))
        } else {
            None
        }
    } else {
        match unsigned(s, 10, 0x7fff_ffff_ffff_ffff) {
            Some(n) => Some(n as int),
            None => None,
        }
    }
}

fn digit_value_of(c: char, radix: u64) -> (r: Option<u64>)
    requires
        2 <= radix <= 16,
    ensures
        match r {
            Some(v) => digit_value(c, radix as nat) == Some(v as nat) && v < radix,
            None => digit_value(c, radix as nat) is None,
        },
{
    let v: u64 = if '0' <= c && c <= '9' {
        c as u64 - 0x30
    } else if 'a' <= c && c <= 'z' {
        c as u64 - 0x57
    } else if 'A' <= c && c <= 'Z' {
        c as u64 - 0x37
    } else {
        99
    };
    if v < radix {
        Some(v)
    } else {
        None
    }
}

proof fn lemma_value_monotone(s: Seq<char>, i: int, radix: nat)
    requires
        0 <= i <= s.len(),
        radix >= 1,
    ensures
        value_of(s.take(i), radix) <= value_of(s, radix),
    decreases s.len() - i,
{
    if i == s.len() {
        assert(s.take(i) =~= s);
    } else {
        lemma_value_monotone(s, i + 1, radix);
        assert(s.take(i + 1).drop_last() =~= s.take(i));
        let v = value_of(s.take(i), radix);
        assert(v * radix >= v) by (nonlinear_arith)
            requires
                radix >= 1,
        ;
    }
}

/// Digits only: the value of `s`, when it is at most `max`.
fn parse_digits(s: &[char], radix: u64, max: u64) -> (r: Option<u64>)
    requires
        2 <= radix <= 16,
    ensures
        match r {
            Some(v) => {
                &&& s@.len() > 0
                &&& all_digits(s@, radix as nat)
                &&& v == value_of(s@, radix as nat)
                &&& v <= max
            },
            None => !(s@.len() > 0 && all_digits(s@, radix as nat) && value_of(s@, radix as nat)
                <= max),
        },
{
    if s.len() == 0 {
        return None;
    }
    let mut v: u64 = 0;
    let mut i: usize = 0;
    while i < s.len()
        invariant
            i <= s@.len(),
            2 <= radix <= 16,
            v == value_of(s@.take(i as int), radix as nat),
            v <= max,
            forall|j: int| 0 <= j < i ==> (#[trigger] digit_value(s@[j], radix as nat)) is Some,
        decreases s@.len() - i,
    {
        proof {
            lemma_value_monotone(s@, i + 1, radix as nat);
            assert(s@.take(i + 1).drop_last() =~= s@.take(i as int));
            assert(s@.take(i + 1).last() == s@[i as int]);
        }
        match digit_value_of(s[i], radix) {
            None => {
                assert(digit_value(s@[i as int], radix as nat) is None);
                return None;
            },
            Some(d) => {
                assert(v * radix <= v * 16) by (nonlinear_arith)
                    requires
                        radix <= 16,
                ;
                let wide: u128 = v as u128 * radix as u128 + d as u128;
                if wide > max as u128 {
                    return None;
                }
                v = wide as u64;
            },
        }
        i += 1;
    }
    assert(s@.take(s@.len() as int) =~= s@);
    Some(v)
}

/// Read an unsigned number of at most `max`.
pub fn parse_unsigned(s: &[char], radix: u64, max: u64) -> (r: Option<u64>)
    requires
        2 <= radix <= 16,
    ensures
        match r {
            Some(v) => unsigned(s@, radix as nat, max as nat) == Some(v as nat) && v <= max,
            None => unsigned(s@, radix as nat, max as nat) is None,
        },
{
    if s.len() > 0 && s[0] == '+' {
        let body = slice_subrange(s, 1, s.len());
        assert(body@ =~= s@.skip(1));
        parse_digits(body, radix, max)
    } else {
        parse_digits(s, radix, max)
    }
}

/// Read a `u32`.
pub fn parse_u32(s: &[char], radix: u64) -> (r: Option<u32>)
    requires
        2 <= radix <= 16,
    ensures
        match r {
            Some(v) => unsigned(s@, radix as nat, u32::MAX as nat) == Some(v as nat),
            None => unsigned(s@, radix as nat, u32::MAX as nat) is None,
        },
{
    match parse_unsigned(s, radix, u32::MAX as u64) {
        Some(v) => Some(v as u32),
        None => None,
    }
}

/// Read an `i64`.
pub fn parse_signed(s: &[char]) -> (r: Option<i64>)
    ensures
        match r {
            Some(v) => signed(s@) == Some(v as int),
            None => signed(s@) is None,
        },
{
    if s.len() > 0 && s[0] == '-' {
        let body = slice_subrange(s, 1, s.len());
        assert(body@ =~= s@.skip(1));
        match parse_digits(body, 10, 0x8000_0000_0000_0000) {
            None => None,
            Some(v) => {
                if v == 0x8000_0000_0000_0000 {
                    Some(i64::MIN)
                } else {
                    Some(-(v as i64))
                }
            },
        }
    } else {
        match parse_unsigned(s, 10, 0x7fff_ffff_ffff_ffff) {
            None => None,
            Some(v) => Some(v as i64),
        }
    }
}

proof fn lemma_digit_round_trip(d: nat, radix: nat)
    requires
        2 <= radix <= 16,
        d < radix,
    ensures
        digit_value(digit_char(d), radix) == Some(d),
{
}

/// What `digits` writes is made of digits, and reads back as the number.
pub proof fn lemma_digits_read_back(n: nat, radix: nat)
    requires
        2 <= radix <= 16,
    ensures
        digits(n, radix).len() > 0,
        all_digits(digits(n, radix), radix),
        value_of(digits(n, radix), radix) == n,
    decreases n,
{
    if n < radix {
        let s = digits(n, radix);
        lemma_digit_round_trip(n, radix);
        assert(s == seq![digit_char(n)]);
        assert(0 * radix == 0) by (nonlinear_arith);
        assert(s.drop_last() =~= Seq::<char>::empty());
        assert(value_of(s.drop_last(), radix) == 0);
    } else {
        lemma_quotient_smaller(n, radix);
        lemma_digits_read_back(n / radix, radix);
        let s = digits(n, radix);
        let head = digits(n / radix, radix);
        vstd::arithmetic::div_mod::lemma_mod_bound(n as int, radix as int);
        lemma_digit_round_trip(n % radix, radix);
        assert(s.drop_last() =~= head);
        vstd::arithmetic::div_mod::lemma_fundamental_div_mod(n as int, radix as int);
        assert(value_of(s, radix) == (n / radix) * radix + n % radix);
        assert((n / radix) * radix + n % radix == n) by (nonlinear_arith)
            requires
                n == radix * (n / radix) + n % radix,
        ;
        assert forall|i: int| 0 <= i < s.len() implies (#[trigger] digit_value(s[i], radix)) is Some by {
            if i < head.len() {
                assert(s[i] == head[i]);
                assert(digit_value(head[i], radix) is Some);
            }
        }
    }
}

/// A number is read back through the zeros before it.
pub proof fn lemma_padded_value(n: nat, radix: nat, width: nat)
    requires
        2 <= radix <= 16,
    ensures
        value_of(zero_padded(digits(n, radix), width), radix) == n,
        all_digits(zero_padded(digits(n, radix), width), radix),
        zero_padded(digits(n, radix), width).len() >= width,
        zero_padded(digits(n, radix), width).len() > 0,
{
    let s = digits(n, radix);
    lemma_digits_read_back(n, radix);
    if s.len() < width {
        let zeros = Seq::new((width - s.len()) as nat, |i: int| '0');
        let all = zeros + s;
        lemma_zeros_before(zeros, s, radix);
        assert forall|i: int| 0 <= i < all.len() implies (#[trigger] digit_value(
            all[i],
            radix,
        )) is Some by {
            if i >= zeros.len() {
                assert(digit_value(s[i - zeros.len()], radix) is Some);
            }
        }
    }
}

proof fn lemma_zeros_before(zeros: Seq<char>, s: Seq<char>, radix: nat)
    requires
        2 <= radix <= 16,
        forall|i: int| 0 <= i < zeros.len() ==> zeros[i] == '0',
    ensures
        value_of(zeros + s, radix) == value_of(s, radix),
    decreases s.len(), zeros.len(),
{
    let all = zeros + s;
    if s.len() > 0 {
        assert(all.drop_last() =~= zeros + s.drop_last());
        assert(all.last() == s.last());
        lemma_zeros_before(zeros, s.drop_last(), radix);
    } else if zeros.len() > 0 {
        assert(all.drop_last() =~= zeros.drop_last() + s);
        lemma_zeros_before(zeros.drop_last(), s, radix);
        assert(value_of(all.drop_last(), radix) == 0);
        assert(0 * radix == 0) by (nonlinear_arith);
    } else {
        assert(all =~= s);
    }
}

/// A number of at most `max`, written in decimal, reads back as itself.
pub proof fn law_decimal_round_trip(n: nat, max: nat)
    requires
        n <= max,
    ensures
        unsigned(dec(n), 10, max) == Some(n),
{
    lemma_digits_read_back(n, 10);
    let s = dec(n);
    assert(digit_value(s[0], 10) is Some);
    assert(s[0] != '+');
}

// ---- finding and splitting ------------------------------------------------

/// `i` is the first position of `c` in `s` at or after `from`.
pub open spec fn is_first_of(s: Seq<char>, c: char, from: int, i: int) -> bool {
    &&& from <= i < s.len()
    &&& s[i] == c
    &&& forall|j: int| from <= j < i ==> s[j] != c
}

/// The first position of `c` in `s`, if it occurs.
pub open spec fn find(s: Seq<char>, c: char) -> Option<int>
    decreases s.len(),
{
    if s.len() == 0 {
        None
    } else if s[0] == c {
        Some(0)
    } else {
        match find(s.skip(1), c) {
            Some(i) => Some(i + 1),
            None => None,
        }
    }
}

/// `find` gives the first position, and only where there is one.
pub proof fn lemma_find(s: Seq<char>, c: char)
    ensures
        match find(s, c) {
            Some(i) => is_first_of(s, c, 0, i),
            None => !s.contains(c),
        },
    decreases s.len(),
{
    if s.len() > 0 && s[0] != c {
        lemma_find(s.skip(1), c);
        match find(s.skip(1), c) {
            Some(i) => {
                assert(s[i + 1] == s.skip(1)[i]);
                assert forall|j: int| 0 <= j < i + 1 implies s[j] != c by {
                    if j > 0 {
                        assert(s[j] == s.skip(1)[j - 1]);
                    }
                }
            },
            None => {
                if s.contains(c) {
                    let k = choose|k: int| 0 <= k < s.len() && s[k] == c;
                    assert(s.skip(1)[k - 1] == c);
                }
            },
        }
    }
}

/// A first position is what `find` gives.
pub proof fn lemma_find_is(s: Seq<char>, c: char, i: int)
    requires
        is_first_of(s, c, 0, i),
    ensures
        find(s, c) == Some(i),
{
    lemma_find(s, c);
    match find(s, c) {
        Some(k) => {
            if k < i {
                assert(s[k] != c);
            }
            if i < k {
                assert(s[i] != c);
            }
        },
        None => {
            assert(s.contains(c));
        },
    }
}

/// The first position of `c`, if it occurs.
pub fn find_char(s: &[char], c: char) -> (r: Option<usize>)
    ensures
        match r {
            Some(i) => find(s@, c) == Some(i as int) && i < s@.len(),
            None => find(s@, c) is None,
        },
{
    let mut i: usize = 0;
    while i < s.len()
        invariant
            i <= s@.len(),
            forall|j: int| 0 <= j < i ==> s@[j] != c,
        decreases s@.len() - i,
    {
        if s[i] == c {
            proof {
                lemma_find_is(s@, c, i as int);
            }
            return Some(i);
        }
        i += 1;
    }
    proof {
        lemma_find(s@, c);
    }
    None
}

/// `s` before and after its first `c`, if it has one.
pub open spec fn split_once(s: Seq<char>, c: char) -> Option<(Seq<char>, Seq<char>)> {
    match find(s, c) {
        Some(i) => Some((s.take(i), s.skip(i + 1))),
        None => None,
    }
}

/// Split at the first `c`.
pub fn split_once_at<'a>(s: &'a [char], c: char) -> (r: Option<(&'a [char], &'a [char])>)
    ensures
        match r {
            Some(p) => split_once(s@, c) == Some((p.0@, p.1@)),
            None => split_once(s@, c) is None,
        },
{
    match find_char(s, c) {
        Some(i) => {
            let ghost n = s@.len();
            let a = slice_subrange(s, 0, i);
            assert(i + 1 <= s@.len() <= usize::MAX) by {
                assert(s.len() == s@.len());
            }
            let b = slice_subrange(s, i + 1, s.len());
            assert(a@ =~= s@.take(i as int));
            assert(b@ =~= s@.skip(i + 1));
            Some((a, b))
        },
        None => None,
    }
}

/// `s` without the ending `end`, if it has it.
pub open spec fn strip_end(s: Seq<char>, end: Seq<char>) -> Option<Seq<char>> {
    if s.len() >= end.len() && s.skip(s.len() - end.len()) == end {
        Some(s.take(s.len() - end.len()))
    } else {
        None
    }
}

/// Take the ending `end` off.
pub fn strip_ending<'a>(s: &'a [char], end: &[char]) -> (r: Option<&'a [char]>)
    ensures
        match r {
            Some(p) => strip_end(s@, end@) == Some(p@),
            None => strip_end(s@, end@) is None,
        },
{
    if s.len() < end.len() {
        return None;
    }
    let cut: usize = s.len() - end.len();
    let tail = slice_subrange(s, cut, s.len());
    assert(tail@ =~= s@.skip(s@.len() - end@.len()));
    if same_chars(tail, end) {
        let head = slice_subrange(s, 0, cut);
        assert(head@ =~= s@.take(s@.len() - end@.len()));
        Some(head)
    } else {
        None
    }
}

/// `s` without the beginning `start`, if it has it.
pub open spec fn strip_start(s: Seq<char>, start: Seq<char>) -> Option<Seq<char>> {
    if s.len() >= start.len() && s.take(start.len() as int) == start {
        Some(s.skip(start.len() as int))
    } else {
        None
    }
}

/// Take the beginning `start` off.
pub fn strip_beginning<'a>(s: &'a [char], start: &[char]) -> (r: Option<&'a [char]>)
    ensures
        match r {
            Some(p) => strip_start(s@, start@) == Some(p@),
            None => strip_start(s@, start@) is None,
        },
{
    if s.len() < start.len() {
        return None;
    }
    let head = slice_subrange(s, 0, start.len());
    assert(head@ =~= s@.take(start@.len() as int));
    if same_chars(head, start) {
        let tail = slice_subrange(s, start.len(), s.len());
        assert(tail@ =~= s@.skip(start@.len() as int));
        Some(tail)
    } else {
        None
    }
}

/// The characters with the Unicode property `White_Space`.
pub open spec fn is_white(c: char) -> bool {
    ||| 0x09 <= c as u32 <= 0x0d
    ||| c as u32 == 0x20
    ||| c as u32 == 0x85
    ||| c as u32 == 0xa0
    ||| c as u32 == 0x1680
    ||| 0x2000 <= c as u32 <= 0x200a
    ||| c as u32 == 0x2028
    ||| c as u32 == 0x2029
    ||| c as u32 == 0x202f
    ||| c as u32 == 0x205f
    ||| c as u32 == 0x3000
}

fn white(c: char) -> (r: bool)
    ensures
        r == is_white(c),
{
    let v: u32 = c as u32;
    (0x09 <= v && v <= 0x0d) || v == 0x20 || v == 0x85 || v == 0xa0 || v == 0x1680 || (0x2000 <= v
        && v <= 0x200a) || v == 0x2028 || v == 0x2029 || v == 0x202f || v == 0x205f || v == 0x3000
}

/// `s` without leading white space.
pub open spec fn trim_start(s: Seq<char>) -> Seq<char>
    decreases s.len(),
{
    if s.len() > 0 && is_white(s[0]) {
        trim_start(s.skip(1))
    } else {
        s
    }
}

/// `s` without trailing white space.
pub open spec fn trim_end(s: Seq<char>) -> Seq<char>
    decreases s.len(),
{
    if s.len() > 0 && is_white(s.last()) {
        trim_end(s.drop_last())
    } else {
        s
    }
}

/// `s` without white space at either end.
pub open spec fn trim(s: Seq<char>) -> Seq<char> {
    trim_end(trim_start(s))
}

/// Trim both ends.
pub fn trimmed<'a>(s: &'a [char]) -> (r: &'a [char])
    ensures
        r@ == trim(s@),
{
    let mut a: usize = 0;
    assert(s@.skip(0) =~= s@);
    while a < s.len() && white(s[a])
        invariant
            a <= s@.len(),
            trim_start(s@) == trim_start(s@.skip(a as int)),
        decreases s@.len() - a,
    {
        assert(s@.skip(a as int).skip(1) =~= s@.skip(a + 1));
        a += 1;
    }
    let ghost t = s@.skip(a as int);
    let mut b: usize = s.len();
    assert(trim_start(s@) == t);
    assert(t.take(b - a) =~= t);
    while b > a && white(s[b - 1])
        invariant
            a <= b <= s@.len(),
            t == s@.skip(a as int),
            trim_end(t) == trim_end(t.take(b - a)),
        decreases b,
    {
        assert(t.take(b - a).last() == s@[b - 1]);
        assert(t.take(b - a).drop_last() =~= t.take(b - a - 1));
        b -= 1;
    }
    let r = slice_subrange(s, a, b);
    assert(r@ =~= t.take(b - a));
    assert(b > a ==> t.take(b - a).last() == s@[b - 1]);
    r
}

/// One line without the carriage return that may end it.
pub open spec fn chomp(line: Seq<char>) -> Seq<char> {
    if line.len() > 0 && line.last() == '\r' {
        line.drop_last()
    } else {
        line
    }
}

/// The lines of a text: what stands before each line feed, without a
/// carriage return before it, and what stands behind the last, unless that
/// is nothing.
pub open spec fn lines(s: Seq<char>) -> Seq<Seq<char>>
    decreases s.len(),
{
    match find(s, '\n') {
        Some(i) => if 0 <= i < s.len() {
            seq![chomp(s.take(i))] + lines(s.skip(i + 1))
        } else {
            Seq::empty()
        },
        None => if s.len() == 0 {
            Seq::empty()
        } else {
            seq![s]
        },
    }
}

pub open spec fn views(v: Seq<Vec<char>>) -> Seq<Seq<char>> {
    v.map_values(|x: Vec<char>| x@)
}

/// A copy of some characters.
pub fn copy_chars(s: &[char]) -> (r: Vec<char>)
    ensures
        r@ == s@,
{
    let mut r: Vec<char> = Vec::new();
    let mut i: usize = 0;
    while i < s.len()
        invariant
            i <= s@.len(),
            r@ == s@.take(i as int),
        decreases s@.len() - i,
    {
        r.push(s[i]);
        assert(s@.take(i + 1) =~= s@.take(i as int).push(s@[i as int]));
        i += 1;
    }
    assert(s@.take(s@.len() as int) =~= s@);
    r
}

/// Split a text into its lines.
pub fn lines_of(s: &[char]) -> (r: Vec<Vec<char>>)
    ensures
        views(r@) == lines(s@),
{
    let mut r: Vec<Vec<char>> = Vec::new();
    let mut pos: usize = 0;
    assert(s@.skip(0) =~= s@);
    assert(views(r@) + lines(s@) =~= lines(s@));
    while pos < s.len()
        invariant
            pos <= s@.len(),
            views(r@) + lines(s@.skip(pos as int)) == lines(s@),
        decreases s@.len() - pos,
    {
        let rest = slice_subrange(s, pos, s.len());
        assert(rest@ =~= s@.skip(pos as int));
        let ghost before = views(r@);
        match find_char(rest, '\n') {
            Some(i) => {
                let line = slice_subrange(rest, 0, i);
                assert(line@ =~= rest@.take(i as int));
                let kept: usize = if i > 0 && line[i - 1] == '\r' { i - 1 } else { i };
                let body = slice_subrange(line, 0, kept);
                assert(body@ =~= chomp(line@));
                r.push(copy_chars(body));
                assert(views(r@) =~= before.push(chomp(line@)));
                assert(rest@.skip(i + 1) =~= s@.skip(pos + i + 1));
                assert(views(r@) + lines(s@.skip(pos + i + 1)) =~= before + lines(rest@));
                pos = pos + i + 1;
            },
            None => {
                r.push(copy_chars(rest));
                assert(views(r@) =~= before.push(rest@));
                assert(s@.skip(s@.len() as int) =~= Seq::<char>::empty());
                assert(lines(Seq::<char>::empty()) =~= Seq::<Seq<char>>::empty()) by {
                    lemma_find(Seq::<char>::empty(), '\n');
                }
                assert(views(r@) + lines(s@.skip(s@.len() as int)) =~= before + lines(rest@));
                pos = s.len();
            },
        }
    }
    assert(s@.skip(s@.len() as int) =~= Seq::<char>::empty());
    assert(lines(Seq::<char>::empty()) =~= Seq::<Seq<char>>::empty()) by {
        lemma_find(Seq::<char>::empty(), '\n');
    }
    assert(views(r@) + Seq::<Seq<char>>::empty() =~= views(r@));
    r
}

} // verus!
