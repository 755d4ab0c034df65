//! What the formats promise, stated from the writer's side: bytes that were
//! written so are read as what was written, and nothing else is.

use vstd::prelude::*;

use super::blob;
use super::checksums;
use super::checksums::{Block, FileView, Mode};
use super::chunk;
use super::manifest;
use super::manifest::{ManifestView, Node};
use super::Fault;
use crate::codec;

verus! {

// ---- numbers --------------------------------------------------------------

/// `n` in `width` bytes, the least significant first.
pub open spec fn le_bytes(n: nat, width: nat) -> Seq<u8>
    decreases width,
{
    if width == 0 {
        Seq::empty()
    } else {
        seq![(n % 0x100) as u8] + le_bytes(n / 0x100, (width - 1) as nat)
    }
}

/// `part` stands at `at` in `b`.
pub open spec fn holds(b: Seq<u8>, at: int, part: Seq<u8>) -> bool {
    &&& 0 <= at
    &&& at + part.len() <= b.len()
    &&& b.subrange(at, at + part.len()) == part
}

pub proof fn lemma_le_length(n: nat, width: nat)
    ensures
        le_bytes(n, width).len() == width,
    decreases width,
{
    if width > 0 {
        lemma_le_length(n / 0x100, (width - 1) as nat);
    }
}

proof fn lemma_le_two(n: nat)
    ensures
        le_bytes(n, 2) == seq![(n % 0x100) as u8, (n / 0x100 % 0x100) as u8],
{
    reveal_with_fuel(le_bytes, 3);
    assert(le_bytes(n, 2) =~= seq![(n % 0x100) as u8, (n / 0x100 % 0x100) as u8]);
}

proof fn lemma_le_four(n: nat)
    ensures
        le_bytes(n, 4) == le_bytes(n % 0x1_0000, 2) + le_bytes(n / 0x1_0000, 2),
{
    reveal_with_fuel(le_bytes, 5);
    assert(n / 0x100 / 0x100 == n / 0x1_0000);
    assert(n / 0x100 / 0x100 / 0x100 == n / 0x1_0000 / 0x100);
    assert((n % 0x1_0000) % 0x100 == n % 0x100);
    assert((n % 0x1_0000) / 0x100 % 0x100 == n / 0x100 % 0x100);
    assert(le_bytes(n, 4) =~= le_bytes(n % 0x1_0000, 2) + le_bytes(n / 0x1_0000, 2));
}

/// The eight bytes of a number are those of its two halves.
proof fn lemma_le_eight(n: nat)
    ensures
        le_bytes(n, 8) == le_bytes(n % 0x1_0000_0000, 4) + le_bytes(n / 0x1_0000_0000, 4),
{
    let a = n / 0x100;
    let b = a / 0x100;
    let c = b / 0x100;
    let d = c / 0x100;
    let m = n % 0x1_0000_0000;
    assert(d == n / 0x1_0000_0000);
    assert(m % 0x100 == n % 0x100);
    assert(m / 0x100 % 0x100 == a % 0x100);
    assert(m / 0x100 / 0x100 % 0x100 == b % 0x100);
    assert(m / 0x100 / 0x100 / 0x100 % 0x100 == c % 0x100);
    reveal_with_fuel(le_bytes, 5);
    let head = seq![(n % 0x100) as u8, (a % 0x100) as u8, (b % 0x100) as u8, (c % 0x100) as u8];
    assert(le_bytes(m, 4) =~= head);
    assert(le_bytes(n, 8) =~= head + le_bytes(d, 4));
}

/// A two-byte field reads as `n` exactly where `n` is written there.
pub proof fn law_two_bytes(b: Seq<u8>, at: int, n: nat)
    requires
        0 <= at,
        at + 2 <= b.len(),
        n < 0x1_0000,
    ensures
        super::le16(b, at) == n <==> holds(b, at, le_bytes(n, 2)),
        super::le16(b, at) < 0x1_0000,
{
    lemma_le_two(n);
    let s = b.subrange(at, at + 2);
    assert(s[0] == b[at] && s[1] == b[at + 1]);
    if super::le16(b, at) == n {
        assert(s =~= le_bytes(n, 2));
    }
}

/// A four-byte field reads as `n` exactly where `n` is written there.
pub proof fn law_four_bytes(b: Seq<u8>, at: int, n: nat)
    requires
        0 <= at,
        at + 4 <= b.len(),
        n < 0x1_0000_0000,
    ensures
        super::le32(b, at) == n <==> holds(b, at, le_bytes(n, 4)),
        super::le32(b, at) < 0x1_0000_0000,
{
    lemma_le_four(n);
    law_two_bytes(b, at, n % 0x1_0000);
    law_two_bytes(b, at + 2, n / 0x1_0000);
    lemma_le_length(n, 4);
    lemma_le_length(n % 0x1_0000, 2);
    lemma_le_length(n / 0x1_0000, 2);
    let s = b.subrange(at, at + 4);
    assert(b.subrange(at, at + 2) =~= s.take(2));
    assert(b.subrange(at + 2, at + 4) =~= s.skip(2));
    if holds(b, at, le_bytes(n, 4)) {
        assert(s.take(2) =~= le_bytes(n % 0x1_0000, 2));
        assert(s.skip(2) =~= le_bytes(n / 0x1_0000, 2));
    }
    if super::le32(b, at) == n {
        assert(s =~= s.take(2) + s.skip(2));
    }
}

/// An eight-byte field reads as `n` exactly where `n` is written there.
pub proof fn law_eight_bytes(b: Seq<u8>, at: int, n: nat)
    requires
        0 <= at,
        at + 8 <= b.len(),
        n < 0x1_0000_0000_0000_0000,
    ensures
        super::le64(b, at) == n <==> holds(b, at, le_bytes(n, 8)),
        super::le64(b, at) < 0x1_0000_0000_0000_0000,
{
    lemma_le_eight(n);
    law_four_bytes(b, at, n % 0x1_0000_0000);
    law_four_bytes(b, at + 4, n / 0x1_0000_0000);
    lemma_le_length(n, 8);
    lemma_le_length(n % 0x1_0000_0000, 4);
    lemma_le_length(n / 0x1_0000_0000, 4);
    let s = b.subrange(at, at + 8);
    assert(b.subrange(at, at + 4) =~= s.take(4));
    assert(b.subrange(at + 4, at + 8) =~= s.skip(4));
    if holds(b, at, le_bytes(n, 8)) {
        assert(s.take(4) =~= le_bytes(n % 0x1_0000_0000, 4));
        assert(s.skip(4) =~= le_bytes(n / 0x1_0000_0000, 4));
    }
    if super::le64(b, at) == n {
        assert(s =~= s.take(4) + s.skip(4));
    }
}

/// What stands at a place can be taken apart and put together.
proof fn lemma_holds_parts(b: Seq<u8>, at: int, x: Seq<u8>, y: Seq<u8>)
    ensures
        holds(b, at, x + y) <==> holds(b, at, x) && holds(b, at + x.len(), y),
{
    if holds(b, at, x + y) {
        let s = b.subrange(at, at + (x + y).len());
        assert(b.subrange(at, at + x.len()) =~= s.take(x.len() as int));
        assert(s.take(x.len() as int) =~= x);
        assert(b.subrange(at + x.len(), at + x.len() + y.len()) =~= s.skip(x.len() as int));
        assert(s.skip(x.len() as int) =~= y);
    }
    if holds(b, at, x) && holds(b, at + x.len(), y) {
        let s = b.subrange(at, at + (x + y).len());
        assert(s =~= b.subrange(at, at + x.len()) + b.subrange(
            at + x.len(),
            at + x.len() + y.len(),
        ));
    }
}

// ---- blobs ----------------------------------------------------------------

/// One entry of a blob, written: how long its key and its value are, and both.
pub open spec fn written_entry(key: Seq<u8>, value: Seq<u8>) -> Seq<u8> {
    le_bytes(key.len(), 2) + le_bytes(value.len(), 4) + key + value
}

/// Some entries, written one behind the other.
pub open spec fn written_entries(entries: Seq<(Seq<u8>, Seq<u8>)>) -> Seq<u8>
    decreases entries.len(),
{
    if entries.len() == 0 {
        Seq::empty()
    } else {
        written_entry(entries[0].0, entries[0].1) + written_entries(entries.skip(1))
    }
}

/// The lengths of every key and value can be written.
pub open spec fn entries_fit(entries: Seq<(Seq<u8>, Seq<u8>)>) -> bool {
    forall|i: int|
        0 <= i < entries.len() ==> (#[trigger] entries[i]).0.len() < 0x1_0000
            && entries[i].1.len() < 0x1_0000_0000
}

/// `b` has the keys and values of `entries`, each value at its place in `d`.
pub open spec fn has_entries(
    b: Seq<blob::EntryView>,
    entries: Seq<(Seq<u8>, Seq<u8>)>,
    d: Seq<u8>,
) -> bool {
    &&& b.len() == entries.len()
    &&& forall|i: int|
        0 <= i < b.len() ==> (#[trigger] b[i]).key == entries[i].0 && b[i].value == entries[i].1
            && holds(d, b[i].at, entries[i].1)
}

proof fn lemma_entry_is_read(d: Seq<u8>, pos: int, key: Seq<u8>, value: Seq<u8>)
    requires
        key.len() < 0x1_0000,
        value.len() < 0x1_0000_0000,
        holds(d, pos, written_entry(key, value)),
    ensures
        blob::entry_at(d, pos) == Ok::<blob::EntryView, Fault>(
            blob::EntryView { key, value, at: pos + 6 + key.len() },
        ),
        written_entry(key, value).len() == 6 + key.len() + value.len(),
        holds(d, pos + 6 + key.len(), value),
{
    let k = le_bytes(key.len(), 2);
    let v = le_bytes(value.len(), 4);
    lemma_le_length(key.len(), 2);
    lemma_le_length(value.len(), 4);
    lemma_holds_parts(d, pos, k + v + key, value);
    lemma_holds_parts(d, pos, k + v, key);
    lemma_holds_parts(d, pos, k, v);
    law_two_bytes(d, pos, key.len());
    law_four_bytes(d, pos + 2, value.len());
}

proof fn lemma_entries_are_read(d: Seq<u8>, pos: int, entries: Seq<(Seq<u8>, Seq<u8>)>) -> (r: Seq<
    blob::EntryView,
>)
    requires
        entries_fit(entries),
        holds(d, pos, written_entries(entries)),
    ensures
        blob::entries_at(d, pos, pos + written_entries(entries).len()) == Ok::<
            Seq<blob::EntryView>,
            Fault,
        >(r),
        has_entries(r, entries, d),
    decreases entries.len(),
{
    if entries.len() == 0 {
        Seq::empty()
    } else {
        let (key, value) = entries[0];
        let rest = entries.skip(1);
        let e = written_entry(key, value);
        let end = pos + written_entries(entries).len();
        lemma_holds_parts(d, pos, e, written_entries(rest));
        lemma_entry_is_read(d, pos, key, value);
        assert forall|i: int| 0 <= i < rest.len() implies (#[trigger] rest[i]).0.len() < 0x1_0000
            && rest[i].1.len() < 0x1_0000_0000 by {
            assert(rest[i] == entries[i + 1]);
        }
        let tail = lemma_entries_are_read(d, pos + e.len(), rest);
        let first = blob::EntryView { key, value, at: pos + 6 + key.len() };
        let r = seq![first] + tail;
        assert forall|i: int| 0 <= i < r.len() implies (#[trigger] r[i]).key == entries[i].0
            && r[i].value == entries[i].1 && holds(d, r[i].at, entries[i].1) by {
            if i > 0 {
                assert(r[i] == tail[i - 1]);
                assert(rest[i - 1] == entries[i]);
            }
        }
        r
    }
}

/// A blob that was written is read as its entries, in their order, whatever
/// stands in the four bytes of its header that mean nothing and behind it.
pub proof fn law_written_blob_is_read(
    entries: Seq<(Seq<u8>, Seq<u8>)>,
    slack: Seq<u8>,
    behind: Seq<u8>,
) -> (r: Seq<blob::EntryView>)
    requires
        entries_fit(entries),
        slack.len() == 4,
        10 + written_entries(entries).len() < 0x1_0000_0000,
    ensures
        ({
            let body = written_entries(entries);
            let d = le_bytes(0x5001, 2) + le_bytes(10 + body.len(), 4) + slack + body + behind;
            &&& blob::blob_of(d) == Ok::<Seq<blob::EntryView>, Fault>(r)
            &&& has_entries(r, entries, d)
        }),
{
    let body = written_entries(entries);
    let a = le_bytes(0x5001, 2);
    let n = le_bytes(10 + body.len(), 4);
    let d = a + n + slack + body + behind;
    lemma_le_length(0x5001, 2);
    lemma_le_length(10 + body.len(), 4);
    assert(d.subrange(0, d.len() as int) =~= d);
    lemma_holds_parts(d, 0, a + n + slack + body, behind);
    lemma_holds_parts(d, 0, a + n + slack, body);
    lemma_holds_parts(d, 0, a + n, slack);
    lemma_holds_parts(d, 0, a, n);
    law_two_bytes(d, 0, 0x5001);
    law_four_bytes(d, 2, 10 + body.len());
    lemma_entries_are_read(d, 10, entries)
}

/// Bytes that begin otherwise than a plain blob are none.
pub proof fn law_other_magic_is_no_blob(d: Seq<u8>)
    requires
        !holds(d, 0, le_bytes(0x5001, 2)),
    ensures
        blob::blob_of(d) is Err,
{
    if d.len() >= 2 {
        law_two_bytes(d, 0, 0x5001);
    }
}

/// A search by key gives the first entry with that key.
pub proof fn law_first_entry_is_found(b: Seq<blob::EntryView>, key: Seq<u8>, i: int)
    requires
        0 <= i < b.len(),
        b[i].key == key,
        forall|j: int| 0 <= j < i ==> (#[trigger] b[j]).key != key,
    ensures
        blob::find(b, key) == Some(b[i]),
    decreases i,
{
    if i > 0 {
        let rest = b.skip(1);
        assert(b[0].key != key);
        assert(rest[i - 1] == b[i]);
        assert forall|j: int| 0 <= j < i - 1 implies (#[trigger] rest[j]).key != key by {
            assert(rest[j] == b[j + 1]);
        }
        law_first_entry_is_found(rest, key, i - 1);
    }
}

/// A search by a key that no entry has finds nothing; what is found has the
/// key, and is one of the entries.
pub proof fn law_found_entry_has_the_key(b: Seq<blob::EntryView>, key: Seq<u8>)
    ensures
        match blob::find(b, key) {
            Some(e) => e.key == key && b.contains(e),
            None => forall|i: int| 0 <= i < b.len() ==> (#[trigger] b[i]).key != key,
        },
    decreases b.len(),
{
    if b.len() > 0 {
        let rest = b.skip(1);
        law_found_entry_has_the_key(rest, key);
        match blob::find(b, key) {
            Some(e) => {
                if b[0].key == key {
                    assert(b[0] == e);
                } else {
                    let i = choose|i: int| 0 <= i < rest.len() && rest[i] == e;
                    assert(b[i + 1] == e);
                }
            },
            None => {
                assert forall|i: int| 0 <= i < b.len() implies (#[trigger] b[i]).key != key by {
                    if i > 0 {
                        assert(rest[i - 1] == b[i]);
                    }
                }
            },
        }
    }
}

/// The key of a numbered field is its number, written.
pub proof fn law_numbered_key(key: u32)
    ensures
        blob::key_bytes(key) == le_bytes(key as nat, 4),
{
    let n = key as nat;
    reveal_with_fuel(le_bytes, 5);
    assert(n / 0x100 / 0x100 == n / 0x1_0000);
    assert(n / 0x100 / 0x100 / 0x100 == n / 0x100_0000);
    assert(n / 0x100_0000 % 0x100 == n / 0x100_0000);
    assert(blob::key_bytes(key) =~= le_bytes(n, 4));
}

/// A packed blob that was written unpacks to `out` exactly where its body
/// inflates to that, and it is as long as was written; whatever stands in the
/// two bytes before the body and behind it. The packed size counts from the
/// first byte, and may be too large where nothing follows.
pub proof fn law_packed_blob_is_unpacked(
    body: Seq<u8>,
    packed: u64,
    size: u64,
    slack: Seq<u8>,
    behind: Seq<u8>,
    out: Seq<u8>,
)
    requires
        slack.len() == 2,
        packed == 20 + body.len() || (packed > 20 + body.len() && behind.len() == 0),
    ensures
        ({
            let d = le_bytes(0x4301, 2) + le_bytes(packed as nat, 8) + le_bytes(size as nat, 8)
                + slack + body + behind;
            &&& blob::packed_body(d) == Ok::<(Seq<u8>, u64), Fault>((body, size))
            &&& blob::decompressed(d) == Ok::<Seq<u8>, Fault>(out) <==> codec::zlib_output(
                body,
                u64::MAX,
            ) == Ok::<Seq<u8>, Seq<char>>(out) && out.len() == size
        }),
{
    let a = le_bytes(0x4301, 2);
    let p = le_bytes(packed as nat, 8);
    let u = le_bytes(size as nat, 8);
    let d = a + p + u + slack + body + behind;
    lemma_le_length(0x4301, 2);
    lemma_le_length(packed as nat, 8);
    lemma_le_length(size as nat, 8);
    assert(d.subrange(0, d.len() as int) =~= d);
    lemma_holds_parts(d, 0, a + p + u + slack + body, behind);
    lemma_holds_parts(d, 0, a + p + u + slack, body);
    lemma_holds_parts(d, 0, a + p + u, slack);
    lemma_holds_parts(d, 0, a + p, u);
    lemma_holds_parts(d, 0, a, p);
    law_two_bytes(d, 0, 0x4301);
    law_eight_bytes(d, 2, packed as nat);
    law_eight_bytes(d, 10, size as nat);
}

/// Bytes that begin otherwise than a packed blob do not unpack.
pub proof fn law_other_magic_does_not_unpack(d: Seq<u8>)
    requires
        !holds(d, 0, le_bytes(0x4301, 2)),
    ensures
        blob::decompressed(d) is Err,
{
    if d.len() >= 2 {
        law_two_bytes(d, 0, 0x4301);
    }
}

// ---- manifests ------------------------------------------------------------

/// `b` is `d` with its fingerprint and its checksum blank.
pub open spec fn is_blanked(d: Seq<u8>, b: Seq<u8>) -> bool {
    &&& b.len() == d.len()
    &&& forall|i: int|
        0 <= i < d.len() ==> #[trigger] b[i] == if 0x30 <= i < 0x38 {
            0u8
        } else {
            d[i]
        }
}

/// The seven words of a node, written.
pub open spec fn written_node(n: Node) -> Seq<u8> {
    le_bytes(n.name_offset as nat, 4) + le_bytes(n.count_or_size as nat, 4) + le_bytes(
        n.file_id as nat,
        4,
    ) + le_bytes(n.flags as nat, 4) + le_bytes(n.parent as nat, 4) + le_bytes(
        n.next_sibling as nat,
        4,
    ) + le_bytes(n.first_child as nat, 4)
}

/// A manifest is written in `d`: the words of its header, its nodes behind
/// that, and the names behind the nodes.
pub open spec fn is_written(d: Seq<u8>, m: ManifestView) -> bool {
    let n = m.nodes.len();
    &&& holds(d, 0, le_bytes(m.format_version as nat, 4))
    &&& holds(d, 4, le_bytes(m.app_id as nat, 4))
    &&& holds(d, 8, le_bytes(m.version_id as nat, 4))
    &&& holds(d, 12, le_bytes(n, 4))
    &&& holds(d, 20, le_bytes(0x8000, 4))
    &&& holds(d, 24, le_bytes(d.len(), 4))
    &&& holds(d, 28, le_bytes(m.strings.len(), 4))
    &&& holds(d, 44, le_bytes(m.depot_info as nat, 4))
    &&& holds(d, 48, le_bytes(m.fingerprint as nat, 4))
    &&& forall|i: int|
        #![trigger m.nodes[i]]
        0 <= i < n ==> holds(d, 56 + 28 * i, written_node(m.nodes[i]))
    &&& holds(d, 56 + 28 * n as int, m.strings)
}

/// The numbers of a manifest fit its words, and every name, parent and link is
/// in range.
pub open spec fn is_well_formed(d: Seq<u8>, m: ManifestView) -> bool {
    let n = m.nodes.len();
    &&& m.format_version == 3 || m.format_version == 4
    &&& 56 <= d.len() < 0x1_0000_0000
    &&& n < 0x1_0000_0000
    &&& m.strings.len() < 0x1_0000_0000
    &&& forall|i: int|
        0 <= i < n ==> {
            let x = #[trigger] m.nodes[i];
            &&& x.name_offset < m.strings.len()
            &&& x.parent == 0xffff_ffff || x.parent < n
            &&& x.first_child == 0 || x.first_child == 0xffff_ffff || x.first_child < n
            &&& x.next_sibling == 0 || x.next_sibling == 0xffff_ffff || x.next_sibling < n
        }
}

proof fn lemma_blanked(d: Seq<u8>, b: Seq<u8>)
    requires
        is_blanked(d, b),
        d.len() >= 56,
    ensures
        manifest::zeroed(d) == b,
{
    assert(manifest::zeroed(d) =~= b);
}

proof fn lemma_word(d: Seq<u8>, at: int, n: nat)
    requires
        0 <= at,
        at + 4 <= d.len(),
    ensures
        n < 0x1_0000_0000 ==> (super::le32(d, at) == n <==> holds(d, at, le_bytes(n, 4))),
        super::le32(d, at) < 0x1_0000_0000,
        holds(d, at, le_bytes(super::le32(d, at), 4)),
{
    law_four_bytes(d, at, 0);
    law_four_bytes(d, at, super::le32(d, at));
    if n < 0x1_0000_0000 {
        law_four_bytes(d, at, n);
    }
}

proof fn lemma_node_is_read(d: Seq<u8>, i: int, n: Node)
    requires
        0 <= i,
        56 + 28 * i + 28 <= d.len(),
    ensures
        manifest::node_at(d, i) == n <==> holds(d, 56 + 28 * i, written_node(n)),
{
    let at = 56 + 28 * i;
    let a = le_bytes(n.name_offset as nat, 4);
    let b = le_bytes(n.count_or_size as nat, 4);
    let c = le_bytes(n.file_id as nat, 4);
    let e = le_bytes(n.flags as nat, 4);
    let f = le_bytes(n.parent as nat, 4);
    let g = le_bytes(n.next_sibling as nat, 4);
    let h = le_bytes(n.first_child as nat, 4);
    lemma_le_length(n.name_offset as nat, 4);
    lemma_le_length(n.count_or_size as nat, 4);
    lemma_le_length(n.file_id as nat, 4);
    lemma_le_length(n.flags as nat, 4);
    lemma_le_length(n.parent as nat, 4);
    lemma_le_length(n.next_sibling as nat, 4);
    lemma_le_length(n.first_child as nat, 4);
    lemma_holds_parts(d, at, a + b + c + e + f + g, h);
    lemma_holds_parts(d, at, a + b + c + e + f, g);
    lemma_holds_parts(d, at, a + b + c + e, f);
    lemma_holds_parts(d, at, a + b + c, e);
    lemma_holds_parts(d, at, a + b, c);
    lemma_holds_parts(d, at, a, b);
    lemma_word(d, at, n.name_offset as nat);
    lemma_word(d, at + 4, n.count_or_size as nat);
    lemma_word(d, at + 8, n.file_id as nat);
    lemma_word(d, at + 12, n.flags as nat);
    lemma_word(d, at + 16, n.parent as nat);
    lemma_word(d, at + 20, n.next_sibling as nat);
    lemma_word(d, at + 24, n.first_child as nat);
}

/// The words of the header, where there is one.
proof fn lemma_header(d: Seq<u8>, m: ManifestView, sum: u32)
    requires
        d.len() >= 56,
    ensures
        holds(d, 0, le_bytes(m.format_version as nat, 4)) <==> super::le32(d, 0)
            == m.format_version,
        holds(d, 4, le_bytes(m.app_id as nat, 4)) <==> super::le32(d, 4) == m.app_id,
        holds(d, 8, le_bytes(m.version_id as nat, 4)) <==> super::le32(d, 8) == m.version_id,
        holds(d, 20, le_bytes(0x8000, 4)) <==> super::le32(d, 20) == 0x8000,
        holds(d, 44, le_bytes(m.depot_info as nat, 4)) <==> super::le32(d, 44) == m.depot_info,
        holds(d, 48, le_bytes(m.fingerprint as nat, 4)) <==> super::le32(d, 48) == m.fingerprint,
        holds(d, 52, le_bytes(sum as nat, 4)) <==> super::le32(d, 52) == sum,
        forall|at: int| 0 <= at && at + 4 <= d.len() ==> #[trigger] super::le32(d, at)
            < 0x1_0000_0000,
{
    lemma_word(d, 0, m.format_version as nat);
    lemma_word(d, 4, m.app_id as nat);
    lemma_word(d, 8, m.version_id as nat);
    lemma_word(d, 20, 0x8000);
    lemma_word(d, 44, m.depot_info as nat);
    lemma_word(d, 48, m.fingerprint as nat);
    lemma_word(d, 52, sum as nat);
    assert forall|at: int| 0 <= at && at + 4 <= d.len() implies #[trigger] super::le32(d, at)
        < 0x1_0000_0000 by {
        lemma_word(d, at, 0);
    }
}

proof fn lemma_first_problem(m: ManifestView, i: int)
    requires
        0 <= i <= m.nodes.len(),
    ensures
        m.first_problem(i) is None <==> forall|j: int|
            i <= j < m.nodes.len() ==> (#[trigger] m.node_problem(j)) is None,
    decreases m.nodes.len() - i,
{
    if i < m.nodes.len() {
        lemma_first_problem(m, i + 1);
        if m.node_problem(i) is None {
            assert forall|j: int| i <= j < m.nodes.len() && m.first_problem(i + 1) is None implies (
            #[trigger] m.node_problem(j)) is None by {}
        }
    }
}

/// A manifest is read as `m` exactly where `m` is written in it, is well
/// formed, and the word at 0x34 is the adler32, from 0, of all of its bytes with
/// the eight at 0x30 blank.
pub proof fn law_manifest_is_what_is_written(d: Seq<u8>, b: Seq<u8>, m: ManifestView)
    requires
        is_blanked(d, b),
    ensures
        manifest::manifest_of(d) == Ok::<ManifestView, Fault>(m) <==> is_well_formed(d, m)
            && is_written(d, m) && holds(d, 52, le_bytes(codec::adler32(0, b) as nat, 4)),
{
    if d.len() >= 56 {
        let sum = codec::adler32(0, b);
        lemma_blanked(d, b);
        lemma_header(d, m, sum);
        if manifest::manifest_of(d) == Ok::<ManifestView, Fault>(m) {
            lemma_read_is_written(d, m);
        }
        if is_well_formed(d, m) && is_written(d, m) && holds(d, 52, le_bytes(sum as nat, 4)) {
            lemma_written_is_read(d, m);
        }
    }
}

proof fn lemma_read_is_written(d: Seq<u8>, m: ManifestView)
    requires
        d.len() >= 56,
        manifest::manifest_of(d) == Ok::<ManifestView, Fault>(m),
    ensures
        is_well_formed(d, m),
        is_written(d, m),
{
    lemma_header(d, m, 0);
    lemma_word(d, 12, m.nodes.len());
    lemma_word(d, 24, d.len());
    lemma_word(d, 28, m.strings.len());
    assert(m == manifest::fields(d));
    lemma_first_problem(m, 0);
    let n = m.nodes.len() as int;
    assert(m.strings.len() == super::le32(d, 28));
    assert forall|i: int|
        #![trigger m.nodes[i]]
        0 <= i < n implies holds(d, 56 + 28 * i, written_node(m.nodes[i])) by {
        lemma_node_is_read(d, i, m.nodes[i]);
    }
    assert forall|i: int| 0 <= i < n implies {
        let x = #[trigger] m.nodes[i];
        &&& x.name_offset < m.strings.len()
        &&& x.parent == 0xffff_ffff || x.parent < n
        &&& x.first_child == 0 || x.first_child == 0xffff_ffff || x.first_child < n
        &&& x.next_sibling == 0 || x.next_sibling == 0xffff_ffff || x.next_sibling < n
    } by {
        assert(m.node_problem(i) is None);
    }
}

proof fn lemma_written_is_read(d: Seq<u8>, m: ManifestView)
    requires
        is_well_formed(d, m),
        is_written(d, m),
        holds(d, 52, le_bytes(codec::adler32(0, manifest::zeroed(d)) as nat, 4)),
    ensures
        manifest::manifest_of(d) == Ok::<ManifestView, Fault>(m),
{
    lemma_header(d, m, codec::adler32(0, manifest::zeroed(d)));
    lemma_word(d, 12, m.nodes.len());
    lemma_word(d, 24, d.len());
    lemma_word(d, 28, m.strings.len());
    let f = manifest::fields(d);
    assert forall|i: int| 0 <= i < m.nodes.len() implies f.nodes[i] == m.nodes[i] by {
        assert(holds(d, 56 + 28 * i, written_node(m.nodes[i])));
        lemma_node_is_read(d, i, m.nodes[i]);
    }
    assert(f.nodes =~= m.nodes);
    assert(f.strings =~= m.strings);
    assert(f == m);
    assert forall|j: int| 0 <= j < m.nodes.len() implies (#[trigger] m.node_problem(j)) is None by {
        let x = m.nodes[j];
        assert(x.name_offset < m.strings.len());
    }
    lemma_first_problem(m, 0);
}

// ---- checksum tables ------------------------------------------------------

/// The number that a mode is written as.
pub open spec fn mode_number(m: Mode) -> nat {
    match m {
        Mode::Plain => 0,
        Mode::Compressed => 1,
        Mode::CompressedEncrypted => 2,
        Mode::Encrypted => 3,
    }
}

pub open spec fn written_block(b: Block) -> Seq<u8> {
    le_bytes(b.compressed_size as nat, 4) + le_bytes(b.checksum as nat, 4)
}

pub open spec fn written_blocks(blocks: Seq<Block>) -> Seq<u8>
    decreases blocks.len(),
{
    if blocks.len() == 0 {
        Seq::empty()
    } else {
        written_block(blocks[0]) + written_blocks(blocks.skip(1))
    }
}

/// The entry of a file, written: its size and its offset, in four bytes each or,
/// in a `wide` table, in eight; its number of blocks, with its mode in the upper
/// byte; and its blocks.
pub open spec fn written_file(wide: bool, f: FileView) -> Seq<u8> {
    let width: nat = if wide {
        8
    } else {
        4
    };
    le_bytes(f.size as nat, width) + le_bytes(f.offset as nat, width) + le_bytes(
        f.blocks.len() + 0x100_0000 * mode_number(f.mode),
        4,
    ) + written_blocks(f.blocks)
}

pub open spec fn written_files(wide: bool, files: Seq<FileView>) -> Seq<u8>
    decreases files.len(),
{
    if files.len() == 0 {
        Seq::empty()
    } else {
        written_file(wide, files[0]) + written_files(wide, files.skip(1))
    }
}

/// The numbers of a file fit the fields that they are written in.
pub open spec fn file_fits(wide: bool, f: FileView) -> bool {
    &&& f.blocks.len() < 0x100_0000
    &&& !wide ==> f.size < 0x1_0000_0000 && f.offset < 0x1_0000_0000
}

/// The files of one fileblock, numbered in a row from `start` on.
pub struct Fileblock {
    pub start: u32,
    pub files: Seq<FileView>,
    /// The word of its header that means nothing.
    pub slack: u32,
}

pub open spec fn fileblock_fits(wide: bool, fb: Fileblock) -> bool {
    &&& fb.start + fb.files.len() <= 0x1_0000_0000
    &&& fb.files.len() < 0x1_0000_0000
    &&& forall|k: int|
        0 <= k < fb.files.len() ==> file_fits(wide, #[trigger] fb.files[k]) && fb.files[k].file_id
            == fb.start + k
}

/// The header of a fileblock whose entries begin at `at`.
pub open spec fn written_header(fb: Fileblock, at: nat) -> Seq<u8> {
    le_bytes(fb.start as nat, 4) + le_bytes(fb.files.len(), 4) + le_bytes(at, 4) + le_bytes(
        fb.slack as nat,
        4,
    )
}

/// The headers of some fileblocks whose entries begin at `at`.
pub open spec fn written_headers(wide: bool, fbs: Seq<Fileblock>, at: nat) -> Seq<u8>
    decreases fbs.len(),
{
    if fbs.len() == 0 {
        Seq::empty()
    } else {
        written_header(fbs[0], at) + written_headers(
            wide,
            fbs.skip(1),
            at + written_files(wide, fbs[0].files).len(),
        )
    }
}

/// The entries of some fileblocks.
pub open spec fn written_bodies(wide: bool, fbs: Seq<Fileblock>) -> Seq<u8>
    decreases fbs.len(),
{
    if fbs.len() == 0 {
        Seq::empty()
    } else {
        written_files(wide, fbs[0].files) + written_bodies(wide, fbs.skip(1))
    }
}

/// All files of some fileblocks.
pub open spec fn all_files(fbs: Seq<Fileblock>) -> Seq<FileView>
    decreases fbs.len(),
{
    if fbs.len() == 0 {
        Seq::empty()
    } else {
        fbs[0].files + all_files(fbs.skip(1))
    }
}

proof fn lemma_blocks_are_read(t: Seq<u8>, pos: int, blocks: Seq<Block>)
    requires
        holds(t, pos, written_blocks(blocks)),
    ensures
        written_blocks(blocks).len() == 8 * blocks.len(),
        checksums::blocks_at(t, pos, blocks.len()) == Ok::<Seq<Block>, Fault>(blocks),
    decreases blocks.len(),
{
    if blocks.len() == 0 {
        assert(checksums::blocks_at(t, pos, 0)->Ok_0 =~= blocks);
    } else {
        let b = blocks[0];
        let rest = blocks.skip(1);
        let x = le_bytes(b.compressed_size as nat, 4);
        let y = le_bytes(b.checksum as nat, 4);
        lemma_le_length(b.compressed_size as nat, 4);
        lemma_le_length(b.checksum as nat, 4);
        lemma_holds_parts(t, pos, x + y, written_blocks(rest));
        lemma_holds_parts(t, pos, x, y);
        lemma_word(t, pos, b.compressed_size as nat);
        lemma_word(t, pos + 4, b.checksum as nat);
        lemma_blocks_are_read(t, pos + 8, rest);
        let tail = checksums::blocks_at(t, pos + 8, rest.len())->Ok_0;
        let got = checksums::blocks_at(t, pos, blocks.len())->Ok_0;
        assert forall|i: int| 0 <= i < blocks.len() implies got[i] == blocks[i] by {
            if i > 0 {
                assert(tail[i - 1] == rest[i - 1]);
                assert(pos + 8 + 8 * (i - 1) == pos + 8 * i);
            }
        }
        assert(got =~= blocks);
    }
}

proof fn lemma_file_is_read(t: Seq<u8>, wide: bool, pos: int, f: FileView)
    requires
        file_fits(wide, f),
        holds(t, pos, written_file(wide, f)),
    ensures
        checksums::file_at(
            t,
            if wide {
                1
            } else {
                0
            },
            pos,
            f.file_id,
        ) == Ok::<(FileView, int), Fault>((f, pos + written_file(wide, f).len())),
{
    let width: nat = if wide {
        8
    } else {
        4
    };
    let n = f.blocks.len() + 0x100_0000 * mode_number(f.mode);
    let a = le_bytes(f.size as nat, width);
    let b = le_bytes(f.offset as nat, width);
    let c = le_bytes(n, 4);
    lemma_le_length(f.size as nat, width);
    lemma_le_length(f.offset as nat, width);
    lemma_le_length(n, 4);
    lemma_holds_parts(t, pos, a + b + c, written_blocks(f.blocks));
    lemma_holds_parts(t, pos, a + b, c);
    lemma_holds_parts(t, pos, a, b);
    if wide {
        law_eight_bytes(t, pos, f.size as nat);
        law_eight_bytes(t, pos + 8, f.offset as nat);
        law_four_bytes(t, pos + 16, n);
    } else {
        law_four_bytes(t, pos, f.size as nat);
        law_four_bytes(t, pos + 4, f.offset as nat);
        law_four_bytes(t, pos + 8, n);
    }
    assert(n % 0x100_0000 == f.blocks.len());
    assert(n / 0x100_0000 == mode_number(f.mode));
    lemma_blocks_are_read(t, pos + (a + b + c).len(), f.blocks);
}

proof fn lemma_files_are_read(t: Seq<u8>, wide: bool, pos: int, fb: Fileblock, k: nat)
    requires
        fileblock_fits(wide, fb),
        k <= fb.files.len(),
        holds(t, pos, written_files(wide, fb.files.skip(k as int))),
    ensures
        checksums::files_at(
            t,
            if wide {
                1
            } else {
                0
            },
            pos,
            fb.start,
            k,
            fb.files.len(),
        ) == Ok::<(Seq<FileView>, int), Fault>(
            (
                fb.files.skip(k as int),
                pos + written_files(wide, fb.files.skip(k as int)).len(),
            ),
        ),
    decreases fb.files.len() - k,
{
    let now = fb.files.skip(k as int);
    if k < fb.files.len() {
        let f = fb.files[k as int];
        assert(now[0] == f);
        assert(now.skip(1) =~= fb.files.skip(k as int + 1));
        lemma_holds_parts(t, pos, written_file(wide, f), written_files(wide, now.skip(1)));
        lemma_file_is_read(t, wide, pos, f);
        lemma_files_are_read(t, wide, pos + written_file(wide, f).len(), fb, k + 1);
        assert(seq![f] + now.skip(1) =~= now);
    } else {
        assert(now =~= Seq::empty());
    }
}

proof fn lemma_fileblocks_are_read(
    t: Seq<u8>,
    wide: bool,
    pos: int,
    fbs: Seq<Fileblock>,
    k: nat,
    n: nat,
)
    requires
        k + fbs.len() == n,
        forall|i: int| 0 <= i < fbs.len() ==> fileblock_fits(wide, #[trigger] fbs[i]),
        0 <= pos,
        pos + written_bodies(wide, fbs).len() < 0x1_0000_0000,
        holds(t, 0x20 + 0x10 * k as int, written_headers(wide, fbs, pos as nat)),
        holds(t, pos, written_bodies(wide, fbs)),
    ensures
        checksums::fileblocks_at(
            t,
            if wide {
                1
            } else {
                0
            },
            pos,
            k,
            n,
        ) == Ok::<(Seq<FileView>, int), Fault>(
            (all_files(fbs), pos + written_bodies(wide, fbs).len()),
        ),
    decreases fbs.len(),
{
    if fbs.len() > 0 {
        let fb = fbs[0];
        let rest = fbs.skip(1);
        let body = written_files(wide, fb.files);
        let at = 0x20 + 0x10 * k as int;
        let a = le_bytes(fb.start as nat, 4);
        let b = le_bytes(fb.files.len(), 4);
        let c = le_bytes(pos as nat, 4);
        let e = le_bytes(fb.slack as nat, 4);
        lemma_le_length(fb.start as nat, 4);
        lemma_le_length(fb.files.len(), 4);
        lemma_le_length(pos as nat, 4);
        lemma_le_length(fb.slack as nat, 4);
        lemma_holds_parts(
            t,
            at,
            written_header(fb, pos as nat),
            written_headers(wide, rest, (pos + body.len()) as nat),
        );
        lemma_holds_parts(t, at, a + b + c, e);
        lemma_holds_parts(t, at, a + b, c);
        lemma_holds_parts(t, at, a, b);
        law_four_bytes(t, at, fb.start as nat);
        law_four_bytes(t, at + 4, fb.files.len());
        law_four_bytes(t, at + 8, pos as nat);
        lemma_holds_parts(t, pos, body, written_bodies(wide, rest));
        assert(fb.files.skip(0) =~= fb.files);
        assert(fileblock_fits(wide, fbs[0]));
        lemma_files_are_read(t, wide, pos, fb, 0);
        assert forall|i: int| 0 <= i < rest.len() implies fileblock_fits(
            wide,
            #[trigger] rest[i],
        ) by {
            assert(rest[i] == fbs[i + 1]);
        }
        lemma_fileblocks_are_read(t, wide, pos + body.len(), rest, k + 1, n);
    }
}

/// The greatest number of blocks that a file has.
pub open spec fn is_most_blocks(files: Seq<FileView>, n: nat) -> bool {
    &&& forall|i: int| 0 <= i < files.len() ==> (#[trigger] files[i]).blocks.len() <= n
    &&& n == 0 || exists|i: int| 0 <= i < files.len() && (#[trigger] files[i]).blocks.len() == n
}

proof fn lemma_most_blocks(files: Seq<FileView>)
    ensures
        is_most_blocks(files, checksums::most_blocks(files)),
    decreases files.len(),
{
    if files.len() > 0 {
        let t = files.drop_last();
        let n = checksums::most_blocks(files);
        lemma_most_blocks(t);
        assert forall|i: int| 0 <= i < files.len() implies (#[trigger] files[i]).blocks.len() <= n by {
            if i < t.len() {
                assert(files[i] == t[i]);
            }
        }
        if n > 0 {
            if files.last().blocks.len() == n {
                assert(files[files.len() - 1].blocks.len() == n);
            } else {
                let i = choose|i: int| 0 <= i < t.len() && (#[trigger] t[i]).blocks.len() == n;
                assert(files[i] == t[i]);
            }
        }
    }
}

/// The header of a checksum table, written: eight words.
pub open spec fn written_top(wide: bool, blocks: nat, files: nat, most: nat) -> Seq<u8> {
    le_bytes(0x3445_7234, 4) + le_bytes(
        if wide {
            1
        } else {
            0
        },
        4,
    ) + le_bytes(blocks, 4) + le_bytes(files, 4) + le_bytes(0x20, 4) + le_bytes(
        0x20 + 0x10 * blocks,
        4,
    ) + le_bytes(0x8000, 4) + le_bytes(most, 4)
}

proof fn lemma_top_is_read(t: Seq<u8>, wide: bool, blocks: nat, files: nat, most: nat)
    requires
        holds(t, 0, written_top(wide, blocks, files, most)),
        files < 0x1_0000_0000,
        most < 0x1_0000_0000,
        0x20 + 0x10 * blocks < 0x1_0000_0000,
    ensures
        written_top(wide, blocks, files, most).len() == 0x20,
        super::le32(t, 0) == 0x3445_7234,
        super::le32(t, 4) == if wide {
            1nat
        } else {
            0
        },
        super::le32(t, 8) == blocks,
        super::le32(t, 12) == files,
        super::le32(t, 16) == 0x20,
        super::le32(t, 20) == 0x20 + 0x10 * blocks,
        super::le32(t, 24) == 0x8000,
        super::le32(t, 28) == most,
{
    let version: nat = if wide {
        1
    } else {
        0
    };
    let at = 0x20 + 0x10 * blocks;
    let m = le_bytes(0x3445_7234, 4);
    let a = le_bytes(version, 4);
    let b = le_bytes(blocks, 4);
    let c = le_bytes(files, 4);
    let e = le_bytes(0x20, 4);
    let f = le_bytes(at, 4);
    let g = le_bytes(0x8000, 4);
    let h = le_bytes(most, 4);
    lemma_le_length(0x3445_7234, 4);
    lemma_le_length(version, 4);
    lemma_le_length(blocks, 4);
    lemma_le_length(files, 4);
    lemma_le_length(0x20, 4);
    lemma_le_length(at, 4);
    lemma_le_length(0x8000, 4);
    lemma_le_length(most, 4);
    lemma_holds_parts(t, 0, m + a + b + c + e + f + g, h);
    lemma_holds_parts(t, 0, m + a + b + c + e + f, g);
    lemma_holds_parts(t, 0, m + a + b + c + e, f);
    lemma_holds_parts(t, 0, m + a + b + c, e);
    lemma_holds_parts(t, 0, m + a + b, c);
    lemma_holds_parts(t, 0, m + a, b);
    lemma_holds_parts(t, 0, m, a);
    law_four_bytes(t, 0, 0x3445_7234);
    law_four_bytes(t, 4, version);
    law_four_bytes(t, 8, blocks);
    law_four_bytes(t, 12, files);
    law_four_bytes(t, 16, 0x20);
    law_four_bytes(t, 20, at);
    law_four_bytes(t, 24, 0x8000);
    law_four_bytes(t, 28, most);
}

/// A checksum table that was written is read as its files, in their order,
/// whatever stands behind it.
pub proof fn law_written_table_is_read(
    wide: bool,
    fbs: Seq<Fileblock>,
    most: nat,
    behind: Seq<u8>,
)
    requires
        forall|i: int| 0 <= i < fbs.len() ==> fileblock_fits(wide, #[trigger] fbs[i]),
        all_files(fbs).len() < 0x1_0000_0000,
        is_most_blocks(all_files(fbs), most),
        most < 0x100_0000,
        0x20 + 0x10 * fbs.len() + written_bodies(wide, fbs).len() < 0x1_0000_0000,
    ensures
        checksums::table(
            written_top(wide, fbs.len(), all_files(fbs).len(), most) + written_headers(
                wide,
                fbs,
                0x20 + 0x10 * fbs.len(),
            ) + written_bodies(wide, fbs) + le_bytes(0x3445_7234, 4) + behind,
        ) == Ok::<Seq<FileView>, Fault>(all_files(fbs)),
{
    let at = 0x20 + 0x10 * fbs.len();
    let files = all_files(fbs);
    let m = le_bytes(0x3445_7234, 4);
    let heads = written_headers(wide, fbs, at);
    let bodies = written_bodies(wide, fbs);
    let top = written_top(wide, fbs.len(), files.len(), most);
    let t = top + heads + bodies + m + behind;
    lemma_le_length(0x3445_7234, 4);
    lemma_headers_length(wide, fbs, at);
    assert(t.subrange(0, t.len() as int) =~= t);
    lemma_holds_parts(t, 0, top + heads + bodies + m, behind);
    lemma_holds_parts(t, 0, top + heads + bodies, m);
    lemma_holds_parts(t, 0, top + heads, bodies);
    lemma_holds_parts(t, 0, top, heads);
    lemma_top_is_read(t, wide, fbs.len(), files.len(), most);
    lemma_table_is_read(t, wide, fbs, most);
}

proof fn lemma_table_is_read(t: Seq<u8>, wide: bool, fbs: Seq<Fileblock>, most: nat)
    requires
        forall|i: int| 0 <= i < fbs.len() ==> fileblock_fits(wide, #[trigger] fbs[i]),
        all_files(fbs).len() < 0x1_0000_0000,
        is_most_blocks(all_files(fbs), most),
        most < 0x100_0000,
        0x20 + 0x10 * fbs.len() + written_bodies(wide, fbs).len() < 0x1_0000_0000,
        holds(t, 0, written_top(wide, fbs.len(), all_files(fbs).len(), most)),
        holds(t, 0x20, written_headers(wide, fbs, 0x20 + 0x10 * fbs.len())),
        holds(t, 0x20 + 0x10 * fbs.len() as int, written_bodies(wide, fbs)),
        holds(
            t,
            0x20 + 0x10 * fbs.len() + written_bodies(wide, fbs).len() as int,
            le_bytes(0x3445_7234, 4),
        ),
    ensures
        checksums::table(t) == Ok::<Seq<FileView>, Fault>(all_files(fbs)),
{
    let at = 0x20 + 0x10 * fbs.len() as int;
    let files = all_files(fbs);
    lemma_le_length(0x3445_7234, 4);
    lemma_top_is_read(t, wide, fbs.len(), files.len(), most);
    lemma_fileblocks_are_read(t, wide, at, fbs, 0, fbs.len());
    law_four_bytes(t, at + written_bodies(wide, fbs).len() as int, 0x3445_7234);
    lemma_most_blocks(files);
    lemma_one_most(files, most, checksums::most_blocks(files));
}

proof fn lemma_headers_length(wide: bool, fbs: Seq<Fileblock>, at: nat)
    ensures
        written_headers(wide, fbs, at).len() == 0x10 * fbs.len(),
    decreases fbs.len(),
{
    if fbs.len() > 0 {
        lemma_le_length(fbs[0].start as nat, 4);
        lemma_le_length(fbs[0].files.len(), 4);
        lemma_le_length(at, 4);
        lemma_le_length(fbs[0].slack as nat, 4);
        lemma_headers_length(
            wide,
            fbs.skip(1),
            at + written_files(wide, fbs[0].files).len(),
        );
    }
}

proof fn lemma_one_most(files: Seq<FileView>, a: nat, b: nat)
    requires
        is_most_blocks(files, a),
        is_most_blocks(files, b),
    ensures
        a == b,
{
    if a > 0 {
        let i = choose|i: int| 0 <= i < files.len() && (#[trigger] files[i]).blocks.len() == a;
        assert(files[i].blocks.len() <= b);
    }
    if b > 0 {
        let i = choose|i: int| 0 <= i < files.len() && (#[trigger] files[i]).blocks.len() == b;
        assert(files[i].blocks.len() <= a);
    }
}

/// What is read of a checksum table is what its header says: it has the two
/// magic words and the block size, as many files as it counts, and the greatest
/// number of blocks that it gives.
pub proof fn law_read_table_keeps_its_header(t: Seq<u8>, files: Seq<FileView>)
    requires
        checksums::table(t) == Ok::<Seq<FileView>, Fault>(files),
    ensures
        holds(t, 0, le_bytes(0x3445_7234, 4)),
        holds(t, 4, le_bytes(0, 4)) || holds(t, 4, le_bytes(1, 4)),
        holds(t, 12, le_bytes(files.len(), 4)),
        holds(t, 16, le_bytes(0x20, 4)),
        holds(t, 24, le_bytes(0x8000, 4)),
        exists|n: nat| is_most_blocks(files, n) && #[trigger] holds(t, 28, le_bytes(n, 4)),
        exists|end: int| 0x20 <= end && #[trigger] holds(t, end, le_bytes(0x3445_7234, 4)),
{
    lemma_word(t, 0, 0x3445_7234);
    lemma_word(t, 4, 0);
    lemma_word(t, 4, 1);
    lemma_word(t, 8, 0);
    lemma_word(t, 12, files.len());
    lemma_word(t, 16, 0x20);
    lemma_word(t, 20, 0);
    lemma_word(t, 24, 0x8000);
    let n = checksums::most_blocks(files);
    lemma_most_blocks(files);
    lemma_word(t, 28, n);
    assert(is_most_blocks(files, n) && holds(t, 28, le_bytes(n, 4)));
    let version = super::le32(t, 4) as u32;
    let count = super::le32(t, 8);
    let r = checksums::fileblocks_at(t, version, super::le32(t, 20) as int, 0, count);
    let end = r->Ok_0.1;
    lemma_fileblocks_go_on(t, version, super::le32(t, 20) as int, 0, count);
    lemma_word(t, end, 0x3445_7234);
    assert(holds(t, end, le_bytes(0x3445_7234, 4)));
}

proof fn lemma_files_go_on(t: Seq<u8>, version: u32, pos: int, start: u32, k: nat, count: nat)
    requires
        checksums::files_at(t, version, pos, start, k, count) is Ok,
    ensures
        checksums::files_at(t, version, pos, start, k, count)->Ok_0.1 >= pos,
    decreases count - k,
{
    if k < count {
        let r = checksums::file_at(t, version, pos, (start + k) as u32);
        lemma_files_go_on(t, version, r->Ok_0.1, start, k + 1, count);
    }
}

proof fn lemma_fileblocks_go_on(t: Seq<u8>, version: u32, pos: int, fb: nat, n: nat)
    requires
        checksums::fileblocks_at(t, version, pos, fb, n) is Ok,
    ensures
        checksums::fileblocks_at(t, version, pos, fb, n)->Ok_0.1 >= pos,
    decreases n - fb,
{
    if fb < n {
        let base = (0x20 + 0x10 * fb) as int;
        let start = super::u32_of(t, base)->Ok_0;
        let count = super::u32_of(t, base + 4)->Ok_0;
        lemma_files_go_on(t, version, pos, start, 0, count as nat);
        let r = checksums::fileblock_at(t, version, pos, fb);
        lemma_fileblocks_go_on(t, version, r->Ok_0.1, fb + 1, n);
    }
}

/// A mode is encrypted or not as its number says: the upper two are.
pub proof fn law_modes(m: Mode, n: nat)
    ensures
        checksums::Mode::of(n) == Some(m) <==> n == mode_number(m),
        m.encrypted() <==> mode_number(m) >= 2,
        n > 3 ==> checksums::Mode::of(n) is None,
{
}

/// The blocks of a file cover its bytes: each begins where the one before ends,
/// the first at 0, and all are whole but the last, which ends with the file.
pub proof fn law_blocks_cover_the_file(f: FileView, i: int)
    requires
        0 <= i,
        i * 0x8000 < f.size,
    ensures
        f.range(0).0 == 0,
        f.range(i).0 == i * 0x8000,
        f.range(i + 1).0 == f.range(i).0 + 0x8000,
        (i + 1) * 0x8000 < f.size ==> f.range(i).1 == f.range(i + 1).0,
        (i + 1) * 0x8000 >= f.size ==> f.range(i).1 == f.size,
        0 < f.range(i).1 - f.range(i).0 <= 0x8000,
{
}

// ---- stored blocks --------------------------------------------------------

/// A stored block decodes to `out` exactly where: it is plain and is `out`; it is
/// compressed and inflates to `out`, which is no longer than a block; or it is
/// encrypted, the key is known, and what that deciphers it to is `out`, or, for a
/// compressed one with its header cut off, decodes to `out` as a compressed
/// block, with both lengths as the header says.
pub proof fn law_blocks_decode(mode: Mode, raw: Seq<u8>, key: Option<Seq<u8>>, out: Seq<u8>)
    ensures
        chunk::decoded(mode, raw, key) == Ok::<Seq<u8>, Fault>(out) <==> match mode {
            Mode::Plain => raw == out,
            Mode::Compressed => codec::zlib_output(raw, 0x8001) == Ok::<Seq<u8>, Seq<char>>(out)
                && out.len() <= 0x8000,
            Mode::Encrypted => key matches Some(k) && out == codec::aes_cfb_decrypted(k, raw),
            Mode::CompressedEncrypted => {
                &&& key matches Some(k)
                &&& holds(raw, 0, le_bytes((raw.len() - 8) as nat, 4))
                &&& raw.len() < 0x1_0000_0008
                &&& holds(raw, 4, le_bytes(out.len(), 4))
                &&& chunk::decoded(
                    Mode::Compressed,
                    codec::aes_cfb_decrypted(k, raw.subrange(8, raw.len() as int)),
                    None,
                ) == Ok::<Seq<u8>, Fault>(out)
            },
        },
{
    match mode {
        Mode::CompressedEncrypted => {
            if raw.len() >= 8 {
                assert(raw.subrange(8, raw.len() as int) =~= raw.skip(8));
                lemma_word(raw, 0, (raw.len() - 8) as nat);
                lemma_word(raw, 4, out.len());
            } else {
                lemma_le_length((raw.len() - 8) as nat, 4);
                lemma_le_length(out.len(), 4);
            }
        },
        _ => {},
    }
}

/// A block passes its check exactly where it decodes, and the stored sum is the
/// adler32, from 0, of what it decodes to, combined with the crc32 of that.
pub proof fn law_blocks_are_checked(
    mode: Mode,
    raw: Seq<u8>,
    key: Option<Seq<u8>>,
    expected: u32,
    out: Seq<u8>,
)
    ensures
        chunk::decoded_verified(mode, raw, key, expected) == Ok::<Seq<u8>, Fault>(out)
            <==> chunk::decoded(mode, raw, key) == Ok::<Seq<u8>, Fault>(out) && expected
            ^ codec::adler32(0, out) == codec::crc32(0, out),
{
    let (a, c) = (codec::adler32(0, out), codec::crc32(0, out));
    assert(((a ^ c) == expected) == ((expected ^ a) == c)) by (bit_vector);
}

// ---- what is read of a table ----------------------------------------------

proof fn lemma_blocks_stand(t: Seq<u8>, pos: int, blocks: Seq<Block>)
    requires
        0 <= pos,
        pos + 8 * blocks.len() <= t.len(),
        forall|i: int|
            0 <= i < blocks.len() ==> (#[trigger] blocks[i]).compressed_size as nat == super::le32(
                t,
                pos + 8 * i,
            ) && blocks[i].checksum as nat == super::le32(t, pos + 8 * i + 4),
    ensures
        holds(t, pos, written_blocks(blocks)),
        written_blocks(blocks).len() == 8 * blocks.len(),
    decreases blocks.len(),
{
    if blocks.len() == 0 {
        assert(t.subrange(pos, pos) =~= Seq::<u8>::empty());
    } else {
        let b = blocks[0];
        let rest = blocks.skip(1);
        assert forall|i: int| 0 <= i < rest.len() implies (#[trigger] rest[i]).compressed_size as nat
            == super::le32(t, pos + 8 + 8 * i) && rest[i].checksum as nat == super::le32(
            t,
            pos + 8 + 8 * i + 4,
        ) by {
            assert(rest[i] == blocks[i + 1]);
        }
        lemma_blocks_stand(t, pos + 8, rest);
        lemma_word(t, pos, b.compressed_size as nat);
        lemma_word(t, pos + 4, b.checksum as nat);
        let (x, y) = (le_bytes(b.compressed_size as nat, 4), le_bytes(b.checksum as nat, 4));
        lemma_le_length(b.compressed_size as nat, 4);
        lemma_le_length(b.checksum as nat, 4);
        lemma_holds_parts(t, pos, x, y);
        lemma_holds_parts(t, pos, written_block(b), written_blocks(rest));
    }
}

/// Whatever is read as the entry of a file stands there as such an entry is written:
/// nothing else is taken for one, and the next is looked for right behind it.
pub proof fn law_read_files_are_what_is_written(
    t: Seq<u8>,
    wide: bool,
    pos: int,
    file_id: u32,
    f: FileView,
    end: int,
)
    requires
        0 <= pos,
        checksums::file_at(
            t,
            if wide {
                1
            } else {
                0
            },
            pos,
            file_id,
        ) == Ok::<(FileView, int), Fault>((f, end)),
    ensures
        f.file_id == file_id,
        file_fits(wide, f),
        holds(t, pos, written_file(wide, f)),
        end == pos + written_file(wide, f).len(),
{
    let width: nat = if wide {
        8
    } else {
        4
    };
    let body = pos + 2 * width + 4;
    let packed = super::le32(t, pos + 2 * width);
    let n = f.blocks.len() + 0x100_0000 * mode_number(f.mode);
    assert(body <= t.len());
    lemma_word(t, pos + 2 * width, packed);
    law_modes(f.mode, packed / 0x100_0000);
    assert(packed == n);
    if wide {
        law_eight_bytes(t, pos, f.size as nat);
        law_eight_bytes(t, pos + 8, f.offset as nat);
    } else {
        lemma_word(t, pos, f.size as nat);
        lemma_word(t, pos + 4, f.offset as nat);
    }
    lemma_blocks_stand(t, body, f.blocks);
    let (a, b, c) = (le_bytes(f.size as nat, width), le_bytes(f.offset as nat, width), le_bytes(n, 4));
    lemma_le_length(f.size as nat, width);
    lemma_le_length(f.offset as nat, width);
    lemma_le_length(n, 4);
    lemma_holds_parts(t, pos, a, b);
    lemma_holds_parts(t, pos, a + b, c);
    lemma_holds_parts(t, pos, a + b + c, written_blocks(f.blocks));
}

/// Files that are read in a row stand one right behind the other, numbered in a row.
pub proof fn law_read_files_stand_in_a_row(
    t: Seq<u8>,
    wide: bool,
    pos: int,
    start: u32,
    k: nat,
    count: nat,
    files: Seq<FileView>,
    end: int,
)
    requires
        0 <= pos,
        k <= count,
        checksums::files_at(
            t,
            if wide {
                1
            } else {
                0
            },
            pos,
            start,
            k,
            count,
        ) == Ok::<(Seq<FileView>, int), Fault>((files, end)),
    ensures
        files.len() == count - k,
        forall|i: int| 0 <= i < files.len() ==> (#[trigger] files[i]).file_id == start + k + i,
        files.len() > 0 ==> holds(t, pos, written_files(wide, files)),
        end == pos + written_files(wide, files).len(),
    decreases count - k,
{
    let version: u32 = if wide {
        1
    } else {
        0
    };
    if k < count {
        let (f, next) = checksums::file_at(t, version, pos, (start + k) as u32)->Ok_0;
        let (rest, last) = checksums::files_at(t, version, next, start, k + 1, count)->Ok_0;
        law_read_files_are_what_is_written(t, wide, pos, (start + k) as u32, f, next);
        law_read_files_stand_in_a_row(t, wide, next, start, k + 1, count, rest, last);
        assert(files == seq![f] + rest);
        assert(files.skip(1) =~= rest);
        assert forall|i: int| 0 <= i < files.len() implies (#[trigger] files[i]).file_id == start + k
            + i by {
            if i > 0 {
                assert(rest[i - 1] == files[i]);
            }
        }
        let x = written_file(wide, f);
        lemma_holds_parts(t, pos, x, written_files(wide, rest));
        if rest.len() == 0 {
            assert(written_files(wide, rest) =~= Seq::<u8>::empty());
            assert(x + written_files(wide, rest) =~= x);
        }
    }
}

// ---- what is read of a blob -----------------------------------------------

/// Whatever is read as an entry stands there as such an entry is written, its value
/// right behind its key.
pub proof fn law_read_entries_are_what_is_written(d: Seq<u8>, pos: int, e: blob::EntryView)
    requires
        0 <= pos,
        blob::entry_at(d, pos) == Ok::<blob::EntryView, Fault>(e),
    ensures
        holds(d, pos, written_entry(e.key, e.value)),
        e.at == pos + 6 + e.key.len(),
        e.at + e.value.len() == pos + written_entry(e.key, e.value).len(),
{
    let (k, v) = (super::le16(d, pos), super::le32(d, pos + 2));
    law_two_bytes(d, pos, k);
    lemma_word(d, pos + 2, v);
    assert(e.key.len() == k && e.value.len() == v);
    let (x, y) = (le_bytes(k, 2), le_bytes(v, 4));
    lemma_le_length(k, 2);
    lemma_le_length(v, 4);
    lemma_holds_parts(d, pos, x, y);
    lemma_holds_parts(d, pos, x + y, e.key);
    lemma_holds_parts(d, pos, x + y + e.key, e.value);
}

/// The keys and values of some entries.
pub open spec fn pairs(b: Seq<blob::EntryView>) -> Seq<(Seq<u8>, Seq<u8>)> {
    b.map_values(|e: blob::EntryView| (e.key, e.value))
}

proof fn lemma_entries_stand(d: Seq<u8>, pos: int, total: int, b: Seq<blob::EntryView>)
    requires
        0 <= pos,
        blob::entries_at(d, pos, total) == Ok::<Seq<blob::EntryView>, Fault>(b),
    ensures
        b.len() > 0 ==> holds(d, pos, written_entries(pairs(b))),
        pos + written_entries(pairs(b)).len() >= total,
        b.len() > 0 ==> b.last().at + b.last().value.len() == pos + written_entries(pairs(b)).len(),
    decreases
            if pos < total {
                total - pos
            } else {
                0
            },
{
    if pos < total {
        let e = blob::entry_at(d, pos)->Ok_0;
        let next = e.at + e.value.len() as int;
        let rest = blob::entries_at(d, next, total)->Ok_0;
        law_read_entries_are_what_is_written(d, pos, e);
        lemma_entries_stand(d, next, total, rest);
        assert(b == seq![e] + rest);
        assert(pairs(b).skip(1) =~= pairs(rest));
        assert(pairs(b)[0] == (e.key, e.value));
        let x = written_entry(e.key, e.value);
        lemma_holds_parts(d, pos, x, written_entries(pairs(rest)));
        if rest.len() == 0 {
            assert(written_entries(pairs(rest)) =~= Seq::<u8>::empty());
            assert(x + written_entries(pairs(rest)) =~= x);
        } else {
            assert(b.last() == rest.last());
        }
    }
}

/// Whatever is read as a blob begins as one does, and its entries stand one right behind
/// the other from the tenth byte on, up to the length that it tells.
pub proof fn law_read_blobs_are_what_is_written(d: Seq<u8>, b: Seq<blob::EntryView>) -> (total: nat)
    requires
        blob::blob_of(d) == Ok::<Seq<blob::EntryView>, Fault>(b),
    ensures
        holds(d, 0, le_bytes(0x5001, 2)),
        holds(d, 2, le_bytes(total, 4)),
        total <= d.len(),
        b.len() > 0 ==> holds(d, 10, written_entries(pairs(b))),
        10 + written_entries(pairs(b)).len() >= total,
{
    law_two_bytes(d, 0, 0x5001);
    let total = super::le32(d, 2);
    lemma_word(d, 2, total);
    lemma_entries_stand(d, 10, total as int, b);
    total
}

// ---- fields of blobs ------------------------------------------------------

/// A field of four bytes is read as the number that they hold, and one of eight as the
/// number that those do; a field of any other length is refused, and so is one that is
/// not there.
pub proof fn law_fields_have_their_width(b: Seq<blob::EntryView>, key: u32, n: u32, m: u64)
    ensures
        blob::u32_field(b, key) == Ok::<u32, Fault>(n) <==> (blob::find(
            b,
            le_bytes(key as nat, 4),
        ) matches Some(e) && e.value == le_bytes(n as nat, 4)),
        blob::u64_field(b, key) == Ok::<u64, Fault>(m) <==> (blob::find(
            b,
            le_bytes(key as nat, 4),
        ) matches Some(e) && e.value == le_bytes(m as nat, 8)),
        blob::required(b, key) is Ok <==> blob::find(b, le_bytes(key as nat, 4)) is Some,
{
    law_numbered_key(key);
    lemma_le_length(n as nat, 4);
    lemma_le_length(m as nat, 8);
    match blob::find(b, le_bytes(key as nat, 4)) {
        Some(e) => {
            let v = e.value;
            if v.len() == 4 {
                law_four_bytes(v, 0, n as nat);
                assert(v.subrange(0, 4) =~= v);
            }
            if v.len() == 8 {
                law_eight_bytes(v, 0, m as nat);
                assert(v.subrange(0, 8) =~= v);
            }
        },
        None => {},
    }
}

/// A blob in either form is the entries of its plain form: its first two bytes tell
/// which it is in, and there is no third.
pub proof fn law_blobs_come_in_two_forms(d: Seq<u8>)
    requires
        d.len() >= 2,
    ensures
        holds(d, 0, le_bytes(0x5001, 2)) ==> blob::any_blob_of(d) == blob::blob_of(d),
        holds(d, 0, le_bytes(0x4301, 2)) ==> blob::any_blob_of(d) == match blob::decompressed(
            d,
        ) {
            Ok(plain) => blob::blob_of(plain),
            Err(e) => Err(e),
        },
        !holds(d, 0, le_bytes(0x5001, 2)) && !holds(d, 0, le_bytes(0x4301, 2))
            ==> blob::any_blob_of(d) is Err,
{
    law_two_bytes(d, 0, 0x5001);
    law_two_bytes(d, 0, 0x4301);
}

/// So many words in a row are read where they are all there, each from its own four
/// bytes; and it is refused where they are not.
pub proof fn law_words_are_read_in_a_row(b: Seq<u8>, at: int, n: nat, i: int)
    requires
        0 <= at,
        n > 0,
        0 <= i < n,
    ensures
        super::words_of(b, at, n) is Ok <==> at + 4 * n <= b.len(),
        super::words_of(b, at, n) matches Ok(w) ==> w.len() == n && holds(
            b,
            at + 4 * i,
            le_bytes(w[i] as nat, 4),
        ),
{
    if at + 4 * n <= b.len() {
        let w = super::words_of(b, at, n)->Ok_0;
        law_four_bytes(b, at + 4 * i, w[i] as nat);
    }
}

} // verus!
