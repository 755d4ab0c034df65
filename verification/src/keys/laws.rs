//! What the key lines and the key lists promise.

use vstd::prelude::*;

use super::{
    built_in, find, is_comment, key_of, lemma_hex_digits, lemma_hex_reads_back, spec_of, with_lines,
    with_spec, Key, KeyFault, KeysView, SpecView,
};
use crate::codec;
use crate::text;
use crate::text::laws;

verus! {

/// Two digits for each byte of `k`, the greater one first.
pub open spec fn spells(s: Seq<u8>, k: Key) -> bool {
    &&& s.len() == 32
    &&& forall|i: int|
        0 <= i < 16 ==> codec::nibble(s[2 * i]) == Some((#[trigger] k@[i]) as nat / 16)
            && codec::nibble(s[2 * i + 1]) == Some(k@[i] as nat % 16)
}

/// A key is read from thirty-two hexadecimal digits, two for each of its bytes,
/// the greater one first; and nothing else is read as one.
pub proof fn law_a_key_is_its_digits(s: Seq<u8>, k: Key)
    ensures
        spells(s, k) ==> key_of(s) == Ok::<Key, KeyFault>(k),
        key_of(s) is Ok <==> s.len() == 32 && forall|i: int|
            0 <= i < s.len() ==> (#[trigger] codec::nibble(s[i])) is Some,
        s.len() % 2 != 0 ==> key_of(s) == Err::<Key, KeyFault>(
            KeyFault::Hex(codec::HexError::OddLength),
        ),
{
    if forall|i: int| 0 <= i < s.len() ==> (#[trigger] codec::nibble(s[i])) is Some {
        if exists|i: int| codec::first_bad_digit(s, i) {
            let i = choose|i: int| codec::first_bad_digit(s, i);
            assert(codec::nibble(s[i]) is Some);
        }
    } else {
        let i = choose|i: int|
            0 <= i < s.len() && !((#[trigger] codec::nibble(s[i])) is Some);
        lemma_first_bad(s, i);
    }
    if spells(s, k) {
        assert forall|i: int| 0 <= i < s.len() implies (#[trigger] codec::nibble(s[i])) is Some by {
            let j = i / 2;
            assert(codec::nibble(s[2 * j]) == Some(k@[j] as nat / 16));
            assert(2 * j == i || 2 * j + 1 == i);
        }
        assert(codec::hex_bytes(s) =~= k@) by {
            assert forall|i: int| 0 <= i < 16 implies codec::hex_bytes(s)[i] == k@[i] by {
                assert(codec::nibble(s[2 * i]) == Some(k@[i] as nat / 16));
                assert(k@[i] as nat / 16 * 16 + k@[i] as nat % 16 == k@[i]);
            }
        }
        let x = choose|x: Key| x@ == codec::hex_bytes(s);
        assert(x@ == k@);
        assert(x =~= k);
    }
}

proof fn lemma_first_bad(s: Seq<u8>, i: int)
    requires
        0 <= i < s.len(),
        codec::nibble(s[i]) is None,
    ensures
        exists|j: int| codec::first_bad_digit(s, j),
    decreases i,
{
    if forall|j: int| 0 <= j < i ==> (#[trigger] codec::nibble(s[j])) is Some {
        assert(codec::first_bad_digit(s, i));
    } else {
        let j = choose|j: int| 0 <= j < i && !((#[trigger] codec::nibble(s[j])) is Some);
        lemma_first_bad(s, j);
    }
}

/// A line that gives the key of a depot is read back as that, whatever white space
/// stands around its two sides.
pub proof fn law_a_depot_key_is_read(
    depot: u32,
    key: Key,
    a: Seq<char>,
    b: Seq<char>,
    c: Seq<char>,
    d: Seq<char>,
)
    requires
        laws::all_white(a),
        laws::all_white(b),
        laws::all_white(c),
        laws::all_white(d),
    ensures
        spec_of((a + text::dec(depot as nat) + b) + seq!['='] + (c + codec::hex_text(key@) + d))
            == Ok::<SpecView, KeyFault>(SpecView::Depot(depot, key)),
{
    let n = text::dec(depot as nat);
    let h = codec::hex_text(key@);
    let target = a + n + b;
    let hex = c + h + d;
    text::lemma_digits_read_back(depot as nat, 10);
    lemma_hex_digits(key@);
    lemma_no_sign(a, n, b, '=');
    laws::law_split_is_at_the_first(target + seq!['='] + hex, '=', target, hex);
    assert(text::digit_value(n[0], 10) is Some);
    assert(text::digit_value(n.last(), 10) is Some);
    assert(text::digit_value(h[0], 16) is Some);
    assert(text::digit_value(h.last(), 16) is Some);
    laws::law_white_space_around_is_trimmed(a, n, b);
    laws::law_white_space_around_is_trimmed(c, h, d);
    lemma_hex_reads_back(key);
    lemma_no_sign(Seq::empty(), n, Seq::empty(), '@');
    assert(Seq::<char>::empty() + n + Seq::<char>::empty() =~= n);
    laws::law_split_is_at_the_first(n, '@', n, n);
    text::law_decimal_round_trip(depot as nat, u32::MAX as nat);
}

proof fn lemma_no_sign(a: Seq<char>, n: Seq<char>, b: Seq<char>, c: char)
    requires
        laws::all_white(a),
        laws::all_white(b),
        text::all_digits(n, 10),
        c == '=' || c == '@',
    ensures
        !(a + n + b).contains(c),
{
    let s = a + n + b;
    if s.contains(c) {
        let i = choose|i: int| 0 <= i < s.len() && s[i] == c;
        if i < a.len() {
            assert(text::is_white(a[i]));
        } else if i < a.len() + n.len() {
            assert(text::digit_value(n[i - a.len()], 10) is Some);
        } else {
            assert(text::is_white(b[i - a.len() - n.len()]));
        }
    }
}

proof fn lemma_lines_from(keys: KeysView, lines: Seq<Seq<char>>, i: int)
    requires
        0 <= i <= lines.len(),
    ensures
        with_lines(keys, lines, i) == with_lines(keys, lines.skip(i), 0),
    decreases lines.len() - i,
{
    lemma_lines_shifted(keys, lines, i, 0);
}

proof fn lemma_lines_shifted(keys: KeysView, lines: Seq<Seq<char>>, n: int, i: int)
    requires
        0 <= n,
        0 <= i,
        n + i <= lines.len(),
    ensures
        with_lines(keys, lines, n + i) == with_lines(keys, lines.skip(n), i),
    decreases lines.len() - i,
{
    let t = lines.skip(n);
    if n + i < lines.len() {
        assert(t[i] == lines[n + i]);
        if is_comment(text::trim(lines[n + i])) {
            lemma_lines_shifted(keys, lines, n, i + 1);
        } else {
            match spec_of(text::trim(lines[n + i])) {
                Err(_) => {},
                Ok(x) => {
                    lemma_lines_shifted(with_spec(keys, x), lines, n, i + 1);
                },
            }
        }
    }
}

/// A keys file is read line by line: what its first line gives is added before the
/// rest is read; an empty line and a comment give nothing; and at a line that is
/// refused the reading ends, with what was read so far.
pub proof fn law_a_keys_file_is_read_line_by_line(
    keys: KeysView,
    line: Seq<char>,
    rest: Seq<Seq<char>>,
)
    ensures
        with_lines(keys, Seq::empty(), 0) == (keys, None::<KeyFault>),
        ({
            let s = text::trim(line);
            let all = with_lines(keys, seq![line] + rest, 0);
            if s.len() == 0 || s[0] == '#' {
                all == with_lines(keys, rest, 0)
            } else {
                match spec_of(s) {
                    Err(e) => all == (keys, Some(e)),
                    Ok(SpecView::Depot(depot, key)) => all == with_lines(
                        keys.with_depot(depot, key),
                        rest,
                        0,
                    ),
                    Ok(SpecView::Blob(depot, crc, key)) => all == with_lines(
                        keys.with_blob(depot, crc, key),
                        rest,
                        0,
                    ),
                }
            }
        }),
{
    let all = seq![line] + rest;
    assert(all[0] == line);
    assert(all.skip(1) =~= rest);
    lemma_lines_from(keys, all, 1);
    match spec_of(text::trim(line)) {
        Err(_) => {},
        Ok(x) => {
            lemma_lines_from(with_spec(keys, x), all, 1);
        },
    }
}

proof fn lemma_find_in(s: Seq<(u64, Key)>, id: u64)
    ensures
        match find(s, id) {
            Some(k) => exists|i: int| 0 <= i < s.len() && #[trigger] s[i] == (id, k),
            None => forall|i: int| 0 <= i < s.len() ==> (#[trigger] s[i]).0 != id,
        },
    decreases s.len(),
{
    if s.len() > 0 {
        let t = s.drop_last();
        lemma_find_in(t, id);
        if s.last().0 == id {
            assert(s[s.len() - 1] == (id, s.last().1));
        } else {
            match find(t, id) {
                Some(k) => {
                    let i = choose|i: int| 0 <= i < t.len() && #[trigger] t[i] == (id, k);
                    assert(s[i] == (id, k));
                },
                None => {
                    assert forall|i: int| 0 <= i < s.len() implies (#[trigger] s[i]).0 != id by {
                        if i < t.len() {
                            assert(t[i].0 != id);
                        }
                    }
                },
            }
        }
    }
}

/// The key of a depot is one that a search tries too, under the label of the
/// depot; and a depot has none only where no list has one for it.
pub proof fn law_configured_keys_are_candidates(keys: KeysView, depot: u32)
    requires
        keys.sound(),
    ensures
        match keys.get(depot) {
            Some(k) => exists|i: int|
                0 <= i < keys.candidates().len() && #[trigger] keys.candidates()[i] == (
                    text::dec(depot as nat),
                    k,
                ),
            None => {
                &&& forall|i: int| 0 <= i < keys.depots.len() ==> (#[trigger] keys.depots[i]).0 != depot
                &&& forall|i: int| 0 <= i < keys.table.len() ==> (#[trigger] keys.table[i]).0 != depot
            },
        },
{
    lemma_find_in(keys.depots, depot as u64);
    let c = keys.candidates();
    let n = keys.blobs.len() as int;
    let m = n + keys.depots.len();
    match find(keys.depots, depot as u64) {
        Some(k) => {
            let i = choose|i: int|
                0 <= i < keys.depots.len() && #[trigger] keys.depots[i] == (depot as u64, k);
            assert(c[n + i] == (text::dec(depot as nat), k));
        },
        None => {
            if built_in(keys.table, depot) is Some {
                let i = choose|i: int|
                    0 <= i < keys.table.len() && (#[trigger] keys.table[i]).0 == depot;
                assert(keys.table[i].0 == depot);
                assert(keys.get(depot) == Some(keys.table[i].1));
                assert(c[m + i] == (text::dec(depot as nat), keys.table[i].1));
            } else {
                assert forall|i: int| 0 <= i < keys.table.len() implies (
                #[trigger] keys.table[i]).0 != depot by {}
                assert forall|i: int| 0 <= i < keys.depots.len() implies (
                #[trigger] keys.depots[i]).0 != depot by {}
            }
        },
    }
}

/// What each refusal of a key says, and what is refused for which reason: a line without
/// a `=` is none; then its key has to be one, and only then its target.
pub proof fn law_what_refused_keys_say(line: Seq<char>, n: nat, byte: u8, index: usize)
    ensures
        spec_of(line) == Err::<SpecView, KeyFault>(KeyFault::NotASpec(line)) <==> !line.contains('='),
        KeyFault::NotASpec(line).text() == "key spec "@ + text::quoted(line)
            + " is not DEPOT[@CRC]=HEX"@,
        KeyFault::Length(n).text() == "key must be 16 bytes, got "@ + text::dec(n),
        KeyFault::Hex(codec::HexError::InvalidCharacter { byte, index }).text()
            == "Invalid character "@ + text::quoted_char(byte as char) + " at position "@
            + text::dec(index as nat),
{
    laws::law_split_is_at_the_first(line, '=', line, line);
}

} // verus!
