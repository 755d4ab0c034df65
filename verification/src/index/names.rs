//! The names that versions and links go by tell them apart.

use vstd::prelude::*;

use super::IndexView;
use crate::calendar;
use crate::text;

verus! {

/// No two blobs of depot `d` have the same version and crc.
pub open spec fn distinct(v: IndexView, d: u32) -> bool {
    forall|i: u32, j: u32|
        #![trigger v.in_depot(d, i), v.in_depot(d, j)]
        v.in_depot(d, i) && v.in_depot(d, j) && i != j ==> v.blobs[i as int].version
            != v.blobs[j as int].version || v.blobs[i as int].crc != v.blobs[j as int].crc
}

/// `s` is without the character `c`.
spec fn lacks(s: Seq<char>, c: char) -> bool {
    forall|i: int| 0 <= i < s.len() ==> #[trigger] s[i] != c
}

/// Numbers with as many leading zeros as you like are told apart.
proof fn lemma_padded_apart(a: nat, b: nat, radix: nat, width: nat)
    requires
        2 <= radix <= 16,
        text::zero_padded(text::digits(a, radix), width) == text::zero_padded(
            text::digits(b, radix),
            width,
        ),
    ensures
        a == b,
{
    text::lemma_padded_value(a, radix, width);
    text::lemma_padded_value(b, radix, width);
}

/// A number is written without characters that are no digits.
proof fn lemma_digits_lack(n: nat, radix: nat, width: nat, c: char)
    requires
        2 <= radix <= 16,
        text::digit_value(c, radix) is None,
    ensures
        lacks(text::digits(n, radix), c),
        lacks(text::zero_padded(text::digits(n, radix), width), c),
{
    let s = text::digits(n, radix);
    text::lemma_digits_read_back(n, radix);
    assert forall|i: int| 0 <= i < s.len() implies #[trigger] s[i] != c by {
        assert(text::digit_value(s[i], radix) is Some);
    }
}

/// Where two texts are cut at their first `c`, equal wholes have equal parts.
proof fn lemma_cut(a: Seq<char>, x: Seq<char>, b: Seq<char>, y: Seq<char>, c: char)
    requires
        lacks(a, c),
        lacks(b, c),
        a + seq![c] + x == b + seq![c] + y,
    ensures
        a == b,
        x == y,
{
    let l = a + seq![c] + x;
    let r = b + seq![c] + y;
    assert(l[a.len() as int] == c);
    assert(r[b.len() as int] == c);
    if a.len() < b.len() {
        assert(r[a.len() as int] == b[a.len() as int]);
    }
    if b.len() < a.len() {
        assert(l[b.len() as int] == a[b.len() as int]);
    }
    assert(a =~= l.take(a.len() as int));
    assert(b =~= r.take(b.len() as int));
    assert(x =~= l.skip(a.len() as int + 1));
    assert(y =~= r.skip(b.len() as int + 1));
}

/// A version directory name begins with a digit, and is without a `v`.
pub proof fn lemma_version_name(v: IndexView, i: u32)
    ensures
        v.version_name(i).len() > 0,
        '0' <= v.version_name(i)[0] <= '9',
        forall|k: int| 0 <= k < v.version_name(i).len() ==> #[trigger] v.version_name(i)[k] != 'v',
{
    let b = v.blobs[i as int];
    let number = text::dec(b.version as nat);
    text::lemma_digits_read_back(b.version as nat, 10);
    lemma_digits_lack(b.version as nat, 10, 0, 'v');
    lemma_digits_lack(b.crc as nat, 16, 8, 'v');
    assert(text::digit_value(number[0], 10) is Some);
    reveal_strlit("-");
    assert(v.version_name(i)[0] == number[0]);
}

/// Two blobs of a depot with the same version directory name are the same.
pub proof fn law_version_names_are_distinct(v: IndexView, d: u32, i: u32, j: u32)
    requires
        distinct(v, d),
        v.in_depot(d, i),
        v.in_depot(d, j),
        v.version_name(i) == v.version_name(j),
    ensures
        i == j,
{
    let a = v.blobs[i as int];
    let b = v.blobs[j as int];
    let da = text::dec(a.version as nat);
    let db = text::dec(b.version as nat);
    reveal_strlit("-");
    lemma_digits_lack(a.version as nat, 10, 0, '-');
    lemma_digits_lack(b.version as nat, 10, 0, '-');
    if v.shares_version(i) && v.shares_version(j) {
        assert("-"@ =~= seq!['-']);
        lemma_cut(da, text::hex8(a.crc as nat), db, text::hex8(b.crc as nat), '-');
        text::lemma_digits_read_back(a.version as nat, 10);
        text::lemma_digits_read_back(b.version as nat, 10);
        lemma_padded_apart(a.crc as nat, b.crc as nat, 16, 8);
        assert(a.version == b.version && a.crc == b.crc);
    } else if v.shares_version(i) {
        assert(v.version_name(i)[da.len() as int] == '-');
        assert(v.version_name(j)[da.len() as int] == db[da.len() as int]);
    } else if v.shares_version(j) {
        assert(v.version_name(j)[db.len() as int] == '-');
        assert(v.version_name(i)[db.len() as int] == da[db.len() as int]);
    } else {
        text::lemma_digits_read_back(a.version as nat, 10);
        text::lemma_digits_read_back(b.version as nat, 10);
        if i != j {
            assert(v.in_depot(a.depot, j));
            assert(v.shares_version(i));
        }
    }
}

/// A date is written with digits, dashes and a `T`.
proof fn lemma_stamp_lacks(secs: nat, c: char)
    requires
        text::digit_value(c, 10) is None,
        c != '-',
        c != 'T',
    ensures
        lacks(calendar::stamp(secs), c),
{
    let (y, m, d) = calendar::civil(secs as int / 86_400);
    let rem = secs % 86_400;
    lemma_dashed_lacks(y as nat, 4, m as nat, d as nat, c);
    lemma_dashed_lacks(rem / 3600, 2, (rem / 60) % 60, rem % 60, c);
    reveal_strlit("T");
}

proof fn lemma_dashed_lacks(x: nat, width: nat, y: nat, z: nat, c: char)
    requires
        text::digit_value(c, 10) is None,
        c != '-',
    ensures
        lacks(calendar::dashed(x, width, y, z), c),
{
    lemma_digits_lack(x, 10, width, c);
    lemma_digits_lack(y, 10, 2, c);
    lemma_digits_lack(z, 10, 2, c);
    reveal_strlit("-");
}

/// The names of versions and links are ASCII.
pub proof fn lemma_names_are_ascii(v: IndexView, i: u32, c: char)
    requires
        c as u32 >= 0x80,
    ensures
        !v.version_name(i).contains(c),
        !v.link_name(i).contains(c),
{
    let b = v.blobs[i as int];
    let name = v.version_name(i);
    let when = match b.date {
        Some(d) => calendar::stamp(d.secs as nat),
        None => "unknown"@,
    };
    reveal_strlit("-");
    reveal_strlit("_v");
    reveal_strlit("unknown");
    lemma_digits_lack(b.version as nat, 10, 0, c);
    lemma_digits_lack(b.crc as nat, 16, 8, c);
    assert(lacks(name, c));
    match b.date {
        Some(d) => lemma_stamp_lacks(d.secs as nat, c),
        None => {},
    }
    assert(lacks(when, c));
    assert(lacks(v.link_name(i), c));
}

/// Two blobs of a depot with the same link name are the same.
pub proof fn law_link_names_are_distinct(v: IndexView, d: u32, i: u32, j: u32)
    requires
        distinct(v, d),
        v.in_depot(d, i),
        v.in_depot(d, j),
        v.link_name(i) == v.link_name(j),
    ensures
        i == j,
{
    let (a, x) = lemma_link_parts(v, i);
    let (b, y) = lemma_link_parts(v, j);
    lemma_cut(a, x, b, y, 'v');
    law_version_names_are_distinct(v, d, i, j);
}

/// A link name cut at its first `v`.
proof fn lemma_link_parts(v: IndexView, i: u32) -> (r: (Seq<char>, Seq<char>))
    ensures
        lacks(r.0, 'v'),
        r.1 == v.version_name(i),
        v.link_name(i) == r.0 + seq!['v'] + r.1,
{
    let when = match v.blobs[i as int].date {
        Some(d) => calendar::stamp(d.secs as nat),
        None => "unknown"@,
    };
    reveal_strlit("unknown");
    reveal_strlit("_v");
    match v.blobs[i as int].date {
        Some(d) => lemma_stamp_lacks(d.secs as nat, 'v'),
        None => {},
    }
    let head = when + seq!['_'];
    assert(when + "_v"@ + v.version_name(i) =~= head + seq!['v'] + v.version_name(i));
    (head, v.version_name(i))
}

} // verus!
