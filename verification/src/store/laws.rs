//! What a store promises of what it hands out, in terms of the files that a
//! dump is made of.

use vstd::prelude::*;

use super::block;
use super::block::{KeyResolution, Sample};
use super::contents;
use super::contents::ParsedView;
use super::error::{Outcome, ReadFault};
use super::kept::Kept;
use super::notes;
use super::notes::NoteView;
use super::setup;
use super::setup::{Past, Setup, RAW_WINDOW};
use super::table;
use super::table::{FileTable, LocView};
use crate::backend::{Backend, ReplyView, TroubleView};
use crate::cache;
use crate::cache::Buffer;
use crate::codec;
use crate::format::blob;
use crate::format::checksums;
use crate::format::checksums::FileView;
use crate::format::chunk;
use crate::format::laws;
use crate::format::laws::le_bytes;
use crate::format::manifest;
use crate::format::manifest::ManifestView;
use crate::format::Fault;
use crate::index::laws as index_laws;
use crate::index::{BlobId, BlobView, DatId, Index, IndexView};
use crate::keys;
use crate::keys::KeysView;
use crate::text;

verus! {

// ---- version blobs --------------------------------------------------------

/// The first entry whose key is the number `n` has the value `v`.
pub open spec fn field(top: Seq<blob::EntryView>, n: nat, v: Seq<u8>) -> bool {
    blob::find(top, le_bytes(n, 4)) matches Some(e) && e.value == v
}

/// `b` is `d` with the four bytes at `at` blank.
pub open spec fn is_blank_at(d: Seq<u8>, at: int, b: Seq<u8>) -> bool {
    &&& b.len() == d.len()
    &&& forall|i: int|
        0 <= i < d.len() ==> #[trigger] b[i] == if at <= i < at + 4 {
            0u8
        } else {
            d[i]
        }
}

/// The packed blob `packed` holds, in its field 0, the manifest `m`.
pub open spec fn packs_manifest(packed: Seq<u8>, m: ManifestView) -> bool {
    exists|plain: Seq<u8>, inner: Seq<blob::EntryView>, bytes: Seq<u8>|
        {
            &&& blob::decompressed(packed) == Ok::<Seq<u8>, Fault>(plain)
            &&& blob::blob_of(plain) == Ok::<Seq<blob::EntryView>, Fault>(inner)
            &&& #[trigger] field(inner, 0, bytes)
            &&& #[trigger] manifest_bytes(plain, bytes, m)
        }
}

pub open spec fn manifest_bytes(plain: Seq<u8>, bytes: Seq<u8>, m: ManifestView) -> bool {
    manifest::manifest_of(bytes) == Ok::<ManifestView, Fault>(m)
}

/// The numbers of a version blob, each under its own number.
pub open spec fn says_meta(top: Seq<blob::EntryView>, m: blob::VersionMeta) -> bool {
    &&& field(top, 0, le_bytes(m.format as nat, 4))
    &&& field(top, 7, le_bytes(m.dat_crc as nat, 4))
    &&& field(top, 10, le_bytes(m.own_crc as nat, 4))
    &&& match m.prev {
        Some((version, crc)) => version != 0xffff_ffff && field(
            top,
            11,
            le_bytes(version as nat, 4),
        ) && field(top, 12, le_bytes(crc as nat, 4)),
        None => field(top, 11, le_bytes(0xffff_ffff, 4)) && exists|crc: u32| #[trigger]
            field(top, 12, le_bytes(crc as nat, 4)),
    }
    &&& field(top, 13, le_bytes(m.dat_size as nat, 8)) || (m.dat_size < 0x1_0000_0000 && field(
        top,
        13,
        le_bytes(m.dat_size as nat, 4),
    ))
}

/// The manifest of a version blob, and its fingerprint.
pub open spec fn says_manifest(top: Seq<blob::EntryView>, m: ManifestView) -> bool {
    &&& field(top, 2, le_bytes(m.fingerprint as nat, 4))
    &&& exists|packed: Seq<u8>| #[trigger] field(top, 3, packed) && packs_manifest(packed, m)
}

/// The checksum table of a version blob.
pub open spec fn says_records(top: Seq<blob::EntryView>, records: Seq<FileView>) -> bool {
    exists|t: Seq<u8>| #[trigger]
        field(top, 4, t) && checksums::table(t) == Ok::<Seq<FileView>, Fault>(records)
}

/// The crc32 of all the bytes of a version blob, with the field of the crc32
/// blank.
pub open spec fn has_crc(d: Seq<u8>, top: Seq<blob::EntryView>, crc: u32) -> bool {
    exists|b: Seq<u8>| #[trigger]
        is_blank_at(d, blob::find(top, le_bytes(10, 4))->0.at, b) && codec::crc32(0, b) == crc
}

proof fn lemma_entries_lie_in(d: Seq<u8>, pos: int, total: int, b: Seq<blob::EntryView>)
    requires
        0 <= pos,
        blob::entries_at(d, pos, total) == Ok::<Seq<blob::EntryView>, Fault>(b),
    ensures
        blob::lies_in(b, d),
    decreases
            if pos < total {
                total - pos
            } else {
                0
            },
{
    if pos < total {
        let e = blob::entry_at(d, pos)->Ok_0;
        let next = e.at + e.value.len() as int;
        let rest = blob::entries_at(d, next, total)->Ok_0;
        lemma_entries_lie_in(d, next, total, rest);
        assert(b =~= seq![e] + rest);
        assert forall|i: int| 0 <= i < b.len() implies {
            let x = #[trigger] b[i];
            0 <= x.at && x.at + x.value.len() <= d.len() && x.value == d.subrange(
                x.at,
                x.at + x.value.len(),
            )
        } by {
            if i > 0 {
                assert(b[i] == rest[i - 1]);
            }
        }
    }
}

proof fn lemma_word_field(top: Seq<blob::EntryView>, key: u32, n: u32)
    ensures
        blob::u32_field(top, key) == Ok::<u32, Fault>(n) <==> field(
            top,
            key as nat,
            le_bytes(n as nat, 4),
        ),
        blob::u32_field(top, key) is Ok ==> blob::u32_field(top, key)->Ok_0 as nat
            == crate::format::le32(blob::find(top, le_bytes(key as nat, 4))->0.value, 0),
{
    laws::law_numbered_key(key);
    laws::lemma_le_length(n as nat, 4);
    match blob::find(top, le_bytes(key as nat, 4)) {
        Some(e) => {
            let v = e.value;
            if v.len() == 4 {
                laws::law_four_bytes(v, 0, n as nat);
                assert(v.subrange(0, 4) =~= v);
            }
        },
        None => {},
    }
}

proof fn lemma_size_field(top: Seq<blob::EntryView>, n: u64)
    ensures
        blob::size_field(top, 13) == Ok::<u64, Fault>(n) <==> (field(
            top,
            13,
            le_bytes(n as nat, 8),
        ) || (n < 0x1_0000_0000 && field(top, 13, le_bytes(n as nat, 4)))),
{
    laws::law_numbered_key(13);
    laws::lemma_le_length(n as nat, 4);
    laws::lemma_le_length(n as nat, 8);
    match blob::find(top, le_bytes(13, 4)) {
        Some(e) => {
            let v = e.value;
            if v.len() == 4 {
                laws::law_four_bytes(v, 0, 0);
                if n < 0x1_0000_0000 {
                    laws::law_four_bytes(v, 0, n as nat);
                }
                assert(v.subrange(0, 4) =~= v);
            } else if v.len() == 8 {
                laws::law_eight_bytes(v, 0, n as nat);
                assert(v.subrange(0, 8) =~= v);
            }
        },
        None => {},
    }
}

proof fn lemma_meta_says(top: Seq<blob::EntryView>, m: blob::VersionMeta)
    ensures
        blob::meta_of(top) == Ok::<blob::VersionMeta, Fault>(m) <==> says_meta(top, m),
{
    lemma_word_field(top, 0, m.format);
    lemma_word_field(top, 7, m.dat_crc);
    lemma_word_field(top, 10, m.own_crc);
    lemma_size_field(top, m.dat_size);
    lemma_word_field(top, 11, 0xffff_ffff);
    match m.prev {
        Some((version, crc)) => {
            lemma_word_field(top, 11, version);
            lemma_word_field(top, 12, crc);
        },
        None => {
            if blob::u32_field(top, 12) is Ok {
                lemma_word_field(top, 12, blob::u32_field(top, 12)->Ok_0);
            }
            if exists|crc: u32| #[trigger] field(top, 12, le_bytes(crc as nat, 4)) {
                let crc = choose|crc: u32| #[trigger] field(top, 12, le_bytes(crc as nat, 4));
                lemma_word_field(top, 12, crc);
            }
        },
    }
}

proof fn lemma_manifest_says(top: Seq<blob::EntryView>, m: ManifestView)
    ensures
        (contents::manifest_in(top) == Ok::<ManifestView, Fault>(m) && blob::u32_field(top, 2)
            == Ok::<u32, Fault>(m.fingerprint)) <==> says_manifest(top, m),
{
    lemma_word_field(top, 2, m.fingerprint);
    laws::law_numbered_key(3);
    laws::law_numbered_key(0);
    if contents::manifest_in(top) == Ok::<ManifestView, Fault>(m) {
        let packed = blob::required(top, 3)->Ok_0;
        let plain = blob::decompressed(packed)->Ok_0;
        let inner = blob::blob_of(plain)->Ok_0;
        let bytes = blob::required(inner, 0)->Ok_0;
        assert(field(inner, 0, bytes) && manifest_bytes(plain, bytes, m));
        assert(packs_manifest(packed, m));
        assert(field(top, 3, packed));
    }
    if exists|packed: Seq<u8>| #[trigger] field(top, 3, packed) && packs_manifest(packed, m) {
        let packed = choose|packed: Seq<u8>| #[trigger]
            field(top, 3, packed) && packs_manifest(packed, m);
        let (plain, inner, bytes) = choose|
            plain: Seq<u8>,
            inner: Seq<blob::EntryView>,
            bytes: Seq<u8>,
        |
            {
                &&& blob::decompressed(packed) == Ok::<Seq<u8>, Fault>(plain)
                &&& blob::blob_of(plain) == Ok::<Seq<blob::EntryView>, Fault>(inner)
                &&& #[trigger] field(inner, 0, bytes)
                &&& #[trigger] manifest_bytes(plain, bytes, m)
            };
        assert(blob::required(inner, 0) == Ok::<Seq<u8>, Fault>(bytes));
    }
}

proof fn lemma_records_say(top: Seq<blob::EntryView>, records: Seq<FileView>)
    ensures
        (blob::required(top, 4) matches Ok(t) && checksums::table(t) == Ok::<Seq<FileView>, Fault>(
            records,
        )) <==> says_records(top, records),
{
    laws::law_numbered_key(4);
    if blob::required(top, 4) is Ok {
        assert(field(top, 4, blob::required(top, 4)->Ok_0));
    }
}

proof fn lemma_crc_is(d: Seq<u8>, top: Seq<blob::EntryView>, crc: u32)
    requires
        blob::blob_of(d) == Ok::<Seq<blob::EntryView>, Fault>(top),
        field(top, 10, le_bytes(crc as nat, 4)),
    ensures
        contents::own_crc_of(d, top) == crc <==> has_crc(d, top, crc),
{
    laws::law_numbered_key(10);
    laws::law_found_entry_has_the_key(top, le_bytes(10, 4));
    laws::lemma_le_length(crc as nat, 4);
    lemma_entries_lie_in(d, 10, crate::format::u32_of(d, 2)->Ok_0 as int, top);
    let e = blob::find(top, le_bytes(10, 4))->0;
    let at = e.at;
    let i = choose|i: int| 0 <= i < top.len() && top[i] == e;
    assert(blob::lies_in(top, d));
    assert(0 <= top[i].at && top[i].at + 4 <= d.len());
    let z = contents::zeroed_at(d, at);
    assert(is_blank_at(d, at, z));
    assert forall|b: Seq<u8>| #[trigger] is_blank_at(d, at, b) implies b == z by {
        assert(b =~= z);
    }
}

/// A version blob is read as `p` exactly where its fields say what `p` does:
/// each is found under its number, the crc32 of the blob is what its field says,
/// and the fingerprint of the manifest stands in the blob too.
pub proof fn law_version_blob_is_what_its_fields_say(
    d: Seq<u8>,
    top: Seq<blob::EntryView>,
    p: ParsedView,
)
    requires
        blob::blob_of(d) == Ok::<Seq<blob::EntryView>, Fault>(top),
    ensures
        contents::parsed_of(d) == Ok::<ParsedView, Fault>(p) <==> {
            &&& says_meta(top, p.meta)
            &&& says_manifest(top, p.manifest)
            &&& says_records(top, p.records)
            &&& has_crc(d, top, p.meta.own_crc)
        },
{
    lemma_meta_says(top, p.meta);
    lemma_manifest_says(top, p.manifest);
    lemma_records_say(top, p.records);
    if says_meta(top, p.meta) {
        lemma_crc_is(d, top, p.meta.own_crc);
    }
    lemma_parsed(d, top, p);
}

proof fn lemma_parsed(d: Seq<u8>, top: Seq<blob::EntryView>, p: ParsedView)
    requires
        blob::blob_of(d) == Ok::<Seq<blob::EntryView>, Fault>(top),
    ensures
        contents::parsed_of(d) == Ok::<ParsedView, Fault>(p) <==> {
            &&& blob::meta_of(top) == Ok::<blob::VersionMeta, Fault>(p.meta)
            &&& contents::manifest_in(top) == Ok::<ManifestView, Fault>(p.manifest)
            &&& blob::u32_field(top, 2) == Ok::<u32, Fault>(p.manifest.fingerprint)
            &&& blob::required(top, 4) matches Ok(t)
            &&& checksums::table(t) == Ok::<Seq<FileView>, Fault>(p.records)
            &&& contents::own_crc_of(d, top) == p.meta.own_crc
        },
{
}

/// Contents are taken for a blob exactly where they have the digest that its
/// name carries, or, where it carries none, the size that was listed; and a
/// copy that was kept has to parse too where its name carries no digest.
pub proof fn law_contents_are_held_to_the_name(
    e: BlobView,
    bytes: Seq<u8>,
    digest: Seq<char>,
    parses: bool,
)
    ensures
        contents::contents_fault(e, digest, bytes.len()) is None <==> if e.sha256 is Some {
            e.sha256 == Some(digest)
        } else {
            bytes.len() == e.size
        },
        contents::kept_fault(e, digest, bytes.len(), parses) is None
            <==> contents::contents_fault(e, digest, bytes.len()) is None && (e.sha256 is Some
            || parses),
        contents::bytes_of(e, Ok(bytes)) is Ok ==> contents::bytes_of(e, Ok(bytes))->Ok_0
            == bytes,
        contents::bytes_of(e, Ok(bytes)) is Ok <==> if e.sha256 is Some {
            e.sha256 == Some(codec::hex_text(codec::sha256(bytes)))
        } else {
            bytes.len() == e.size
        },
{
}

// ---- stored bytes ---------------------------------------------------------

/// The lesser of two numbers.
pub open spec fn lesser(a: int, b: int) -> int {
    if a < b {
        a
    } else {
        b
    }
}

/// The file at `rel` has the contents `c`: whatever is read of it is what stands
/// there, as far as it goes.
pub open spec fn is_file<B: Backend>(b: B, rel: Seq<char>, c: Seq<u8>) -> bool {
    forall|offset: u64, len: usize, r: ReplyView<Seq<u8>>| #[trigger]
        b.may_read_at(rel, offset, len, r) ==> r == Ok::<Seq<u8>, TroubleView>(
            c.subrange(
                lesser(offset as int, c.len() as int),
                lesser(offset + len, c.len() as int),
            ),
        )
}

/// The bytes of a dat from `pos` to `end`, as far as the file goes and as it was
/// listed.
pub open spec fn stored_part(c: Seq<u8>, size: u64, pos: int, end: int) -> Seq<u8> {
    let m = lesser(c.len() as int, size as int);
    if pos < end {
        c.subrange(lesser(pos, m), lesser(end, m))
    } else {
        Seq::empty()
    }
}

/// What a store fetches of a dat from `pos` to `end` is what the file at the
/// dat's path holds there, in whichever windows it is fetched; and it never
/// fails to.
pub proof fn law_stored_bytes_are_those_of_the_file<B: Backend>(
    s: Setup<B>,
    dat: DatId,
    c: Seq<u8>,
    pos: int,
    end: int,
    out: Seq<u8>,
)
    requires
        is_file(s.backend, s.index.dat(dat).path, c),
        0 <= pos,
    ensures
        s.may_stitch(dat, pos, end, out) ==> out == stored_part(c, s.index.dat(dat).size, pos, end),
        forall|f: ReadFault| !#[trigger] s.may_stitch_fail(dat, pos, end, f),
    decreases end - pos,
{
    reveal(Setup::may_stitch);
    reveal(Setup::may_window);
    reveal(Setup::may_stitch_fail);
    let size = s.index.dat(dat).size;
    if pos < end && s.may_stitch(dat, pos, end, out) {
        let w = choose|w: Seq<u8>|
            {
                let part = s.window_part(pos, end, w);
                &&& #[trigger] s.window_begins(dat, pos, end, out, w)
                &&& if part > 0 {
                    s.may_stitch(dat, pos + part, end, out.skip(part))
                } else {
                    out.len() == 0
                }
            };
        let n = setup::window_no(pos);
        let at = setup::window_at(pos);
        let start = n * RAW_WINDOW;
        let part = s.window_part(pos, end, w);
        let m = lesser(c.len() as int, size as int);
        assert(start + at == pos);
        assert(w == c.subrange(
            lesser(start, m),
            lesser(start + RAW_WINDOW, m),
        )) by {
            assert(w =~= c.subrange(
                lesser(start, m),
                lesser(start + RAW_WINDOW, m),
            ));
        }
        if part > 0 {
            law_stored_bytes_are_those_of_the_file(s, dat, c, pos + part, end, out.skip(part));
            assert(out =~= out.take(part) + out.skip(part));
            assert(out =~= stored_part(c, size, pos, end));
        } else {
            assert(out =~= stored_part(c, size, pos, end));
        }
    }
    if pos >= end && s.may_stitch(dat, pos, end, out) {
        assert(out =~= Seq::empty());
    }
}

/// The blocks of a file are stored one behind the other, from its offset on, each
/// as long as its record says.
pub proof fn law_blocks_are_stored_in_a_row(loc: LocView, i: int)
    requires
        loc.offsets == table::offsets_of(loc.record),
        0 <= i < loc.record.blocks.len(),
        loc.span(i).1 < u64::MAX,
    ensures
        loc.span(0).0 == loc.record.offset,
        loc.span(i).1 - loc.span(i).0 == loc.record.blocks[i].compressed_size,
        i + 1 < loc.record.blocks.len() ==> loc.span(i + 1).0 == loc.span(i).1,
{
    assert(table::stored_before(loc.record.blocks, 0) == 0);
    assert(table::stored_before(loc.record.blocks, i + 1) == table::stored_before(
        loc.record.blocks,
        i,
    ) + loc.record.blocks[i].compressed_size as nat);
}

/// The key that a file is decoded with, if it needs one and one was found.
pub open spec fn key_of(past: Past, loc: LocView) -> Option<Seq<u8>> {
    if loc.record.mode.encrypted() {
        match past.keys[loc.source.0] {
            KeyResolution::Configured(k) => Some(k@),
            KeyResolution::Discovered(k, _) => Some(k@),
            KeyResolution::Nothing { .. } => None,
        }
    } else {
        None
    }
}

/// The bytes of `c` from `a` on, up to `b`.
pub open spec fn bytes_from(c: Seq<u8>, a: int, b: int) -> Seq<u8> {
    if a < b {
        c.subrange(a, b)
    } else {
        Seq::empty()
    }
}

/// `c` reaches to `b`, where it is asked for anything from `a` on.
pub open spec fn holds_from(c: Seq<u8>, a: int, b: int) -> bool {
    a < b ==> b <= c.len()
}

/// Block `i` of a file is `b`: that is what the dat's bytes at its place decode
/// to; it is as long as it should be, and has the checksum of its record where
/// that counts.
pub open spec fn is_block<B: Backend>(
    s: Setup<B>,
    past: Past,
    loc: LocView,
    c: Seq<u8>,
    i: int,
    b: Seq<u8>,
) -> bool {
    &&& 0 <= i < loc.record.blocks.len()
    &&& holds_from(c, loc.span(i).0 as int, loc.span(i).1 as int)
    &&& chunk::decoded(
        loc.record.mode,
        bytes_from(c, loc.span(i).0 as int, loc.span(i).1 as int),
        key_of(past, loc),
    ) == Ok::<Seq<u8>, Fault>(b)
    &&& b.len() == lesser(0x8000, loc.record.size - i * 0x8000)
    &&& s.verify ==> chunk::block_sum(b) == loc.record.blocks[i].checksum
}

/// A block that is served for a file is in order: it is what the dat holds at its
/// place, decoded, as long as it should be, and with the checksum of its record
/// where that counts; as long as every other file that was asked for has the same
/// block where it has one in its place.
pub proof fn law_served_blocks_are_in_order<B: Backend>(
    s: Setup<B>,
    past: Past,
    loc: LocView,
    c: Seq<u8>,
    i: int,
    b: Seq<u8>,
)
    requires
        loc.dat is Some,
        loc.fits(s.index),
        is_file(s.backend, s.index.dat(loc.dat->0).path, c),
        0 <= i < loc.record.blocks.len(),
        setup::alike(past, loc, i),
        s.may_block(past, loc.dat->0, loc.span(i).0, b),
    ensures
        is_block(s, past, loc, c, i, b),
{
    let (raw, key) = setup::lemma_alike_block(s, past, loc, i, b);
    table::lemma_offsets_grow(loc.record, i);
    law_stored_bytes_are_those_of_the_file(
        s,
        loc.dat->0,
        c,
        loc.span(i).0 as int,
        loc.span(i).1 as int,
        raw,
    );
    assert(raw =~= bytes_from(c, loc.span(i).0 as int, loc.span(i).1 as int));
}

/// Every byte that is read of a file is the one at its place of the block that it
/// is in, which is what the dat holds there, decoded; as long as every other file
/// that was asked for has the same blocks where it has any in their place.
pub proof fn law_read_bytes_are_decoded_from_the_dat<B: Backend>(
    s: Setup<B>,
    past: Past,
    loc: LocView,
    c: Seq<u8>,
    pos: int,
    end: int,
    out: Seq<u8>,
    k: int,
)
    requires
        loc.dat is Some,
        loc.fits(s.index),
        is_file(s.backend, s.index.dat(loc.dat->0).path, c),
        forall|i: int| 0 <= i < loc.record.blocks.len() ==> #[trigger] setup::alike(past, loc, i),
        0 <= pos <= end,
        s.may_file(past, loc, pos, end, out),
        0 <= k < end - pos,
    ensures
        out.len() == end - pos,
        exists|b: Seq<u8>| #[trigger]
            is_block(s, past, loc, c, (pos + k) / 0x8000, b) && out[k] == b[(pos + k) % 0x8000],
{
    let i = setup::block_no(pos + k);
    setup::law_reads_are_whole(s, past, loc, pos, end, out);
    setup::lemma_read_bytes(s, past, loc, pos, end, out, k);
    let b = choose|b: Seq<u8>| #[trigger]
        s.may_block(past, loc.dat->0, loc.span(i).0, b) && setup::in_block(pos + k) < b.len()
            && out[k] == b[setup::in_block(pos + k)];
    assert(setup::alike(past, loc, i));
    law_served_blocks_are_in_order(s, past, loc, c, i, b);
    assert(is_block(s, past, loc, c, i, b));
}

/// Block `i` of a file is there, and in order.
pub open spec fn has_block<B: Backend>(
    s: Setup<B>,
    past: Past,
    loc: LocView,
    c: Seq<u8>,
    i: int,
) -> bool {
    exists|b: Seq<u8>| #[trigger] is_block(s, past, loc, c, i, b)
}

/// A file whose blocks the dat all holds in order can be read: no part of it fails
/// to be, as long as every other file that was asked for has the same blocks where
/// it has any in their place.
pub proof fn law_good_files_are_read<B: Backend>(
    s: Setup<B>,
    past: Past,
    loc: LocView,
    c: Seq<u8>,
    pos: int,
    end: int,
    f: ReadFault,
)
    requires
        loc.dat is Some,
        loc.fits(s.index),
        is_file(s.backend, s.index.dat(loc.dat->0).path, c),
        forall|i: int| 0 <= i < loc.record.blocks.len() ==> #[trigger] setup::alike(past, loc, i),
        forall|i: int|
            0 <= i < loc.record.blocks.len() ==> #[trigger] has_block(s, past, loc, c, i),
        forall|i: int|
            0 <= i < loc.record.blocks.len() ==> #[trigger] loc.span(i).1 <= s.index.dat(
                loc.dat->0,
            ).size,
        0 <= pos,
        end <= loc.record.size <= loc.record.blocks.len() * 0x8000,
    ensures
        !s.may_read_fail(past, loc, pos, end, f),
{
    reveal(Setup::may_read_fail);
    if s.may_read_fail(past, loc, pos, end, f) {
        let i = choose|i: int| #[trigger]
            s.may_fail_at(past, loc, i, f) && setup::block_no(pos) <= i && i * 0x8000 < end;
        assert(0 <= i < loc.record.blocks.len());
        assert(setup::alike(past, loc, i));
        assert(has_block(s, past, loc, c, i));
        let good = choose|b: Seq<u8>| #[trigger] is_block(s, past, loc, c, i, b);
        lemma_good_block(s, past, loc, c, i, good, f);
        reveal(Setup::may_clash);
        if s.may_clash(past, loc, i) {
            let b = choose|b: Seq<u8>| #[trigger]
                s.may_block(past, loc.dat->0, loc.span(i).0, b) && b.len() < loc.record.range(i).1
                    - loc.record.range(i).0;
            let (raw, key) = setup::lemma_alike_block(s, past, loc, i, b);
        }
    }
}

pub proof fn lemma_good_block<B: Backend>(
    s: Setup<B>,
    past: Past,
    loc: LocView,
    c: Seq<u8>,
    i: int,
    b: Seq<u8>,
    f: ReadFault,
)
    requires
        loc.dat is Some,
        is_file(s.backend, s.index.dat(loc.dat->0).path, c),
        is_block(s, past, loc, c, i, b),
        loc.span(i).0 <= loc.span(i).1 <= s.index.dat(loc.dat->0).size,
    ensures
        !s.may_block_fail(past, loc, i, f),
{
    reveal(Setup::may_block_fail);
    reveal(Setup::may_decode_fail);
    let (start, end) = (loc.span(i).0 as int, loc.span(i).1 as int);
    law_stored_bytes_are_those_of_the_file(s, loc.dat->0, c, start, end, Seq::empty());
    if s.may_decode_fail(past, loc, i, f) {
        let (raw, key) = choose|raw: Seq<u8>, key: KeyResolution|
            {
                &&& #[trigger] s.may_stitch(
                    loc.dat->0,
                    loc.span(i).0 as int,
                    loc.span(i).1 as int,
                    raw,
                )
                &&& raw.len() == loc.span(i).1 - loc.span(i).0 ==> s.uses_key(past, loc, key)
                &&& #[trigger] s.keyed_outcome(loc, i, raw, key) == Err::<Seq<u8>, ReadFault>(f)
            };
        law_stored_bytes_are_those_of_the_file(s, loc.dat->0, c, start, end, raw);
        assert(raw =~= bytes_from(c, start, end));
        reveal(Setup::uses_key);
    }
}

// ---- blobs and versions ---------------------------------------------------

/// The file at `rel` is `c`, whenever it is read whole.
pub open spec fn is_whole_file<B: Backend>(b: B, rel: Seq<char>, c: Seq<u8>) -> bool {
    forall|r: ReplyView<Seq<u8>>| #[trigger]
        b.may_read_all(rel, r) ==> r == Ok::<Seq<u8>, TroubleView>(c)
}

/// The contents have the digest that the name of a blob carries, or, where it
/// carries none, the size that was listed.
pub open spec fn is_accepted(e: BlobView, c: Seq<u8>) -> bool {
    match e.sha256 {
        Some(sha) => sha == codec::hex_text(codec::sha256(c)),
        None => c.len() == e.size,
    }
}

/// What is fetched of a blob is the file at its path, and what it is parsed as is
/// what that file holds; both where its contents are accepted, and only there.
pub proof fn law_a_blob_is_the_file_at_its_path<B: Backend>(
    s: Setup<B>,
    id: BlobId,
    c: Seq<u8>,
    fetched: Outcome<Seq<u8>>,
    parsed: Outcome<ParsedView>,
)
    requires
        is_whole_file(s.backend, s.index.blob(id).path, c),
        s.may_fetch(id, fetched),
        s.may_parse(id, parsed),
    ensures
        fetched is Ok <==> is_accepted(s.index.blob(id), c),
        fetched is Ok ==> fetched->Ok_0 == c,
        parsed is Ok <==> is_accepted(s.index.blob(id), c) && contents::parsed_of(c) is Ok,
        parsed is Ok ==> contents::parsed_of(c) == Ok::<ParsedView, Fault>(parsed->Ok_0),
{
    reveal(Setup::may_fetch);
    reveal(Setup::may_parse);
}

/// `b` is a blob of `depot` with a version and a crc.
pub open spec fn is_blob(v: IndexView, b: u32, depot: u32, version: u32, crc: u32) -> bool {
    v.in_depot(depot, b) && v.blobs[b as int].version == version && v.blobs[b as int].crc == crc
}

/// The parent of a blob is the one of its depot with the version and crc that it
/// records; where there is none, the only one with that version; and where there
/// are none or several of them, or it records none, it has no parent.
pub proof fn law_the_parent_of_a_blob<B: Backend>(
    s: Setup<B>,
    ix: &Index,
    id: BlobId,
    p: ParsedView,
)
    requires
        ix.wf(),
        s.index == ix@,
    ensures
        ({
            let depot = s.index.blob(id).depot;
            let v = s.index;
            match (s.parent_from(id, p), p.meta.prev) {
                (Some(b), Some((version, crc))) => {
                    ||| is_blob(v, b.0, depot, version, crc)
                    ||| {
                        &&& forall|x: u32| !#[trigger] is_blob(v, x, depot, version, crc)
                        &&& v.in_depot(depot, b.0)
                        &&& v.blob(b).version == version
                        &&& forall|x: u32| #[trigger]
                            v.in_depot(depot, x) && v.blobs[x as int].version == version ==> x
                                == b.0
                    }
                },
                (Some(_), None) => false,
                (None, Some((version, crc))) => {
                    &&& forall|x: u32| !#[trigger] is_blob(v, x, depot, version, crc)
                    &&& forall|x: u32| #[trigger]
                        v.in_depot(depot, x) && v.blobs[x as int].version == version ==> exists|
                            y: u32,
                        |
                            y != x && #[trigger] v.in_depot(depot, y) && v.blobs[y as int].version
                                == version
                },
                (None, None) => true,
            }
        }),
{
    ix.lemma_sizes();
    let v = s.index;
    let depot = v.blob(id).depot;
    match p.meta.prev {
        Some((version, crc)) => {
            index_laws::law_the_blob_that_is_found(v, depot, version, crc);
            index_laws::law_blobs_of_a_version(ix, depot, version);
            let w = v.with_version(depot, version);
            assert forall|x: u32| #[trigger] is_blob(v, x, depot, version, crc) implies v.find_blob(
                depot,
                version,
                crc,
            ) is Some by {
                assert(v.in_depot(depot, x));
            }
            if v.find_blob(depot, version, crc) is None {
                if w.len() == 1 {
                    assert(w.contains(w[0]));
                    assert(v.in_depot(depot, w[0]));
                    assert forall|x: u32| #[trigger]
                        v.in_depot(depot, x) && v.blobs[x as int].version == version implies x
                        == w[0] by {
                        assert(w.contains(x));
                    }
                } else {
                    assert forall|x: u32| #[trigger]
                        v.in_depot(depot, x) && v.blobs[x as int].version == version implies exists|
                        y: u32,
                    |
                        y != x && #[trigger] v.in_depot(depot, y) && v.blobs[y as int].version
                            == version by {
                        assert(w.contains(x));
                        let k = choose|k: int| 0 <= k < w.len() && w[k] == x;
                        let j = if k == 0 {
                            1int
                        } else {
                            0int
                        };
                        assert(w.contains(w[j]));
                        assert(v.in_depot(depot, w[j]));
                    }
                }
            }
        },
        None => {},
    }
}

/// A blob holds no record of a file.
pub open spec fn is_silent<B: Backend>(s: Setup<B>, b: BlobId, file_id: u32) -> bool {
    exists|p: ParsedView| #[trigger]
        s.may_parse(b, Ok(p)) && forall|k: int|
            0 <= k < p.records.len() ==> (#[trigger] p.records[k]).file_id != file_id
}

/// A blob brings a file: it holds a record of it, the last there is, and the dat
/// is the one of the blob's depot and version that the blob itself names.
pub open spec fn brings<B: Backend>(s: Setup<B>, b: BlobId, file_id: u32, loc: LocView) -> bool {
    exists|p: ParsedView, k: int|
        {
            &&& #[trigger] s.may_parse(b, Ok(p))
            &&& 0 <= k < p.records.len()
            &&& #[trigger] p.records[k] == loc.record
            &&& loc.record.file_id == file_id
            &&& forall|j: int|
                k < j < p.records.len() ==> (#[trigger] p.records[j]).file_id != file_id
            &&& loc.source == b
            &&& loc.dat == s.index.find_dat(
                s.index.blob(b).depot,
                s.index.blob(b).version,
                p.meta.dat_crc,
            )
        }
}

/// `c` leads to `id`, each blob the parent of the next, and none but the first
/// has a record of a file.
pub open spec fn leads<B: Backend>(s: Setup<B>, c: Seq<BlobId>, id: BlobId, file_id: u32) -> bool {
    &&& c.len() > 0
    &&& c.last() == id
    &&& forall|i: int| 0 < i < c.len() ==> s.may_parent(#[trigger] c[i], Some(c[i - 1]))
    &&& forall|i: int| 0 < i < c.len() ==> is_silent(s, #[trigger] c[i], file_id)
}

/// The last record of a file is one, and none behind it is.
pub proof fn law_the_last_record(records: Seq<FileView>, file_id: u32)
    ensures
        match table::last_record(records, file_id) {
            Some(r) => r.file_id == file_id && exists|k: int|
                0 <= k < records.len() && #[trigger] records[k] == r && forall|j: int|
                    k < j < records.len() ==> (#[trigger] records[j]).file_id != file_id,
            None => forall|k: int|
                0 <= k < records.len() ==> (#[trigger] records[k]).file_id != file_id,
        },
    decreases records.len(),
{
    if records.len() > 0 {
        let front = records.drop_last();
        let n = records.len() - 1;
        law_the_last_record(front, file_id);
        if records.last().file_id == file_id {
            assert(records[n] == records.last());
        } else {
            match table::last_record(front, file_id) {
                Some(r) => {
                    let k = choose|k: int|
                        0 <= k < front.len() && #[trigger] front[k] == r && forall|j: int|
                            k < j < front.len() ==> (#[trigger] front[j]).file_id != file_id;
                    assert(records[k] == r);
                    assert forall|j: int| k < j < records.len() implies (
                    #[trigger] records[j]).file_id != file_id by {
                        if j < n {
                            assert(front[j].file_id != file_id);
                        }
                    }
                },
                None => {
                    assert forall|k: int| 0 <= k < records.len() implies (
                    #[trigger] records[k]).file_id != file_id by {
                        if k < n {
                            assert(front[k].file_id != file_id);
                        }
                    }
                },
            }
        }
    }
}

/// A version sees a file where the newest of it and its parents that has a record
/// of the file puts it, and not at all only where none of them has one.
pub proof fn law_the_newest_record_counts<B: Backend>(s: Setup<B>, t: &FileTable, file_id: u32)
    requires
        s.may_table(t),
    ensures
        match t.find(file_id) {
            Some(l) => exists|c: Seq<BlobId>| #[trigger]
                leads(s, c, t.blob, file_id) && brings(s, c[0], file_id, l@),
            None => exists|c: Seq<BlobId>| #[trigger]
                leads(s, c, t.blob, file_id) && is_silent(s, c[0], file_id) && s.may_begin(c[0]),
        },
    decreases t,
{
    reveal(Setup::may_table);
    let p = choose|p: ParsedView| #[trigger]
        s.may_parse(t.blob, Ok(p)) && t.holds(s.index, p);
    assert(t.holds_file(s.index, p, file_id));
    law_the_last_record(p.records, file_id);
    if t.own@.contains_key(file_id) {
        let l = t.own@[file_id];
        let c = seq![t.blob];
        let r = table::last_record(p.records, file_id)->0;
        let k = choose|k: int|
            0 <= k < p.records.len() && #[trigger] p.records[k] == r && forall|j: int|
                k < j < p.records.len() ==> (#[trigger] p.records[j]).file_id != file_id;
        assert(s.may_parse(t.blob, Ok(p)) && p.records[k] == l@.record);
        assert(brings(s, t.blob, file_id, l@));
        assert(leads(s, c, t.blob, file_id));
    } else {
        assert(is_silent(s, t.blob, file_id));
        match &t.parent {
            Some(parent) => {
                law_the_newest_record_counts(s, &**parent, file_id);
                match parent.find(file_id) {
                    Some(l) => {
                        let c = choose|c: Seq<BlobId>| #[trigger]
                            leads(s, c, parent.blob, file_id) && brings(s, c[0], file_id, l@);
                        lemma_leads_on(s, c, parent.blob, t.blob, file_id);
                        assert(c.push(t.blob)[0] == c[0]);
                    },
                    None => {
                        let c = choose|c: Seq<BlobId>| #[trigger]
                            leads(s, c, parent.blob, file_id) && is_silent(s, c[0], file_id)
                                && s.may_begin(c[0]);
                        lemma_leads_on(s, c, parent.blob, t.blob, file_id);
                        assert(c.push(t.blob)[0] == c[0]);
                    },
                }
            },
            None => {
                assert(leads(s, seq![t.blob], t.blob, file_id));
            },
        }
    }
}

proof fn lemma_leads_on<B: Backend>(
    s: Setup<B>,
    c: Seq<BlobId>,
    parent: BlobId,
    id: BlobId,
    file_id: u32,
)
    requires
        leads(s, c, parent, file_id),
        s.may_parent(id, Some(parent)),
        is_silent(s, id, file_id),
    ensures
        leads(s, c.push(id), id, file_id),
{
    let d = c.push(id);
    assert forall|i: int| 0 < i < d.len() implies s.may_parent(#[trigger] d[i], Some(d[i - 1]))
        && is_silent(s, d[i], file_id) by {
        if i < c.len() {
            assert(d[i] == c[i]);
            assert(d[i - 1] == c[i - 1]);
        }
    }
}

// ---- keys -----------------------------------------------------------------

/// A key decrypts a sample to a block with the checksum that is expected.
pub open spec fn opens(s: Sample, k: Seq<u8>) -> bool {
    chunk::decoded(s.mode, s.raw, Some(k)) matches Ok(b) && chunk::block_sum(b) == s.expected
}

/// The configured key of a blob is the one wherever it opens the sample; where it
/// does not, and a search is wanted, the first of the known keys that does is; and
/// where none does, that is told with how many were tried.
pub proof fn law_the_key_that_opens(
    known: KeysView,
    search: bool,
    depot: u32,
    crc: u32,
    s: Sample,
)
    ensures
        ({
            let r = block::resolution(known, search, depot, crc, s);
            let own = known.get_for_blob(depot, crc);
            let c = known.candidates();
            if own matches Some(k) && opens(s, k@) {
                r == KeyResolution::Configured(own->0)
            } else if !search {
                r == (KeyResolution::Nothing { tried: 0 })
            } else {
                match r {
                    KeyResolution::Configured(_) => false,
                    KeyResolution::Discovered(k, from) => exists|i: int|
                        {
                            &&& 0 <= i < c.len()
                            &&& (#[trigger] c[i]).1 == k
                            &&& opens(s, k@)
                            &&& from == keys::label_depot(c[i].0)
                            &&& forall|j: int| 0 <= j < i ==> !opens(s, (#[trigger] c[j]).1@)
                        },
                    KeyResolution::Nothing { tried } => tried == c.len() as usize && forall|j: int|
                        0 <= j < c.len() ==> !opens(s, (#[trigger] c[j]).1@),
                }
            }
        }),
{
    let c = known.candidates();
    assert forall|k: chunk::Key| #[trigger] block::works(s, k) == opens(s, k@) by {}
    lemma_first_that_opens(c, 0, s);
}

proof fn lemma_first_that_opens(c: Seq<(Seq<char>, chunk::Key)>, i: int, s: Sample)
    requires
        0 <= i,
    ensures
        match block::first_working(c, i, s) {
            Some(k) => i <= k < c.len() && opens(s, c[k].1@) && forall|j: int|
                i <= j < k ==> !opens(s, (#[trigger] c[j]).1@),
            None => forall|j: int| i <= j < c.len() ==> !opens(s, (#[trigger] c[j]).1@),
        },
    decreases c.len() - i,
{
    if i < c.len() && !block::works(s, c[i].1) {
        lemma_first_that_opens(c, i + 1, s);
    }
}

/// A block is served exactly where all of it was stored, a key was found if it
/// needs one, it decodes, its checksum is right where that counts, and it is as
/// long as it should be; and it is what it decodes to.
pub proof fn law_blocks_that_are_served(
    rec: FileView,
    i: int,
    want: u64,
    raw: Seq<u8>,
    resolved: KeyResolution,
    depot: u32,
    crc: u32,
    verify: bool,
    out: Seq<u8>,
)
    ensures
        block::block_bytes(rec, i, want, raw, resolved, depot, crc, verify) == Ok::<
            Seq<u8>,
            ReadFault,
        >(out) <==> {
            &&& raw.len() == want
            &&& rec.mode.encrypted() ==> !(resolved is Nothing)
            &&& chunk::decoded(
                rec.mode,
                raw,
                if !rec.mode.encrypted() {
                    None
                } else {
                    match resolved {
                        KeyResolution::Configured(k) => Some(k@),
                        KeyResolution::Discovered(k, _) => Some(k@),
                        KeyResolution::Nothing { .. } => None,
                    }
                },
            ) == Ok::<Seq<u8>, Fault>(out)
            &&& verify ==> chunk::block_sum(out) == rec.blocks[i].checksum
            &&& out.len() == lesser(0x8000, rec.size - i * 0x8000)
        },
{
}

/// The keys are tried on the first block of a file, as the dat holds it.
pub proof fn law_keys_are_tried_on_the_first_block<B: Backend>(
    s: Setup<B>,
    known: Map<u32, KeyResolution>,
    loc: LocView,
    c: Seq<u8>,
    k: KeyResolution,
)
    requires
        loc.dat is Some,
        loc.fits(s.index),
        is_file(s.backend, s.index.dat(loc.dat->0).path, c),
        !known.contains_key(loc.source.0),
        s.may_probe(known, loc, Ok(k)),
    ensures
        loc.record.blocks.len() > 0,
        holds_from(c, loc.span(0).0 as int, loc.span(0).1 as int),
        k == block::resolution(
            s.keys,
            s.key_search,
            s.index.blob(loc.source).depot,
            s.index.blob(loc.source).crc,
            Sample {
                mode: loc.record.mode,
                raw: bytes_from(c, loc.span(0).0 as int, loc.span(0).1 as int),
                expected: loc.record.blocks[0].checksum,
            },
        ),
{
    reveal(Setup::may_probe);
    let (start, end) = (loc.span(0).0 as int, loc.span(0).1 as int);
    let raw = choose|raw: Seq<u8>| #[trigger]
        s.may_stitch(loc.dat->0, start, end, raw) && Ok::<KeyResolution, ReadFault>(k) == s.probed(
            known,
            loc,
            raw,
        );
    table::lemma_offsets_grow(loc.record, 0);
    law_stored_bytes_are_those_of_the_file(s, loc.dat->0, c, start, end, raw);
    assert(raw =~= bytes_from(c, start, end));
}

/// What a failure is counted as.
pub proof fn law_failures_are_classed(f: ReadFault)
    ensures
        f.class() is Missing <==> f is MissingRecord || f is MissingDat,
        f.class() is NoKey <==> f is NoKey || f is NoWorkingKey,
        f.class() is BadData <==> f is Format,
        f.class() is Io <==> !(f is MissingRecord || f is MissingDat || f is NoKey
            || f is NoWorkingKey || f is Format),
{
}

/// What a block that is not served failed for: too little of it was stored; no key was
/// known, or none of those that were tried opens it; its checksum is not the one of its
/// record, where that counts; or it is not as long as it should be.
pub proof fn law_blocks_that_are_not_served(
    rec: FileView,
    i: int,
    want: u64,
    raw: Seq<u8>,
    resolved: KeyResolution,
    depot: u32,
    crc: u32,
    verify: bool,
    out: Seq<u8>,
    key: Option<Seq<u8>>,
)
    requires
        0 <= i,
        i * 0x8000 < rec.size,
        i <= u64::MAX,
        key == if !rec.mode.encrypted() {
            None
        } else {
            match resolved {
                KeyResolution::Configured(k) => Some(k@),
                KeyResolution::Discovered(k, _) => Some(k@),
                KeyResolution::Nothing { .. } => None,
            }
        },
    ensures
        ({
            let r = block::block_bytes(rec, i, want, raw, resolved, depot, crc, verify);
            let length = lesser(0x8000, rec.size - i * 0x8000);
            if raw.len() != want {
                r == Err::<Seq<u8>, ReadFault>(
                    ReadFault::ShortRead {
                        file_id: rec.file_id,
                        block: i as u64,
                        want,
                        got: raw.len() as u64,
                    },
                )
            } else if rec.mode.encrypted() && resolved is Nothing {
                r == Err::<Seq<u8>, ReadFault>(
                    if resolved->tried == 0 {
                        ReadFault::NoKey(depot)
                    } else {
                        ReadFault::NoWorkingKey { depot, crc, tried: resolved->tried }
                    },
                )
            } else {
                match chunk::decoded(rec.mode, raw, key) {
                    Err(f) => r == Err::<Seq<u8>, ReadFault>(ReadFault::Format(f)),
                    Ok(b) => if verify && chunk::block_sum(b) != rec.blocks[i].checksum {
                        r == Err::<Seq<u8>, ReadFault>(
                            ReadFault::Checksum {
                                file_id: rec.file_id,
                                block: i as u64,
                                expected: rec.blocks[i].checksum,
                                actual: chunk::block_sum(b),
                            },
                        )
                    } else if b.len() != length {
                        r == Err::<Seq<u8>, ReadFault>(
                            ReadFault::BlockSize {
                                file_id: rec.file_id,
                                block: i as u64,
                                want: length as u64,
                                got: b.len() as u64,
                            },
                        )
                    } else {
                        r == Ok::<Seq<u8>, ReadFault>(b)
                    },
                }
            }
        }),
{
}

/// A file whose dat is not in the dump fails for that: it is told which depot, version
/// and crc are missing, those of the blob that brought it.
pub proof fn law_missing_dats_are_told<B: Backend>(
    s: Setup<B>,
    past: Past,
    loc: LocView,
    p: ParsedView,
    i: int,
    f: ReadFault,
)
    requires
        loc.dat is None,
        setup::steady(s.backend),
        s.may_parse(loc.source, Ok(p)),
        s.may_block_fail(past, loc, i, f),
    ensures
        f == (ReadFault::MissingDat {
            depot: s.index.blob(loc.source).depot,
            version: s.index.blob(loc.source).version,
            crc: p.meta.dat_crc,
        }),
{
    reveal(Setup::may_block_fail);
    reveal(Setup::may_miss_dat);
    let b = s.index.blob(loc.source);
    let o = choose|o: Outcome<ParsedView>| #[trigger]
        s.may_parse(loc.source, o) && f == (ReadFault::MissingDat {
            depot: b.depot,
            version: b.version,
            crc: match o {
                Ok(p) => p.meta.dat_crc,
                Err(_) => 0,
            },
        });
    setup::law_steady_blobs(s, loc.source, o, Ok(p));
}

/// `raw` is all that is stored of block `i` of a file that was asked for, of the blob
/// `source`; and by that block the key of the blob is resolved as `r`.
pub open spec fn shows_key<B: Backend>(
    s: Setup<B>,
    past: Past,
    source: BlobId,
    loc: LocView,
    i: int,
    raw: Seq<u8>,
    r: KeyResolution,
) -> bool {
    &&& past.files.contains(loc)
    &&& loc.source == source
    &&& loc.dat is Some
    &&& 0 <= i < loc.record.blocks.len()
    &&& raw.len() == loc.span(i).1 - loc.span(i).0
    &&& s.may_stitch(loc.dat->0, loc.span(i).0 as int, loc.span(i).1 as int, raw)
    &&& r == block::resolution(
        s.keys,
        s.key_search,
        s.index.blobs[source.0 as int].depot,
        s.index.blobs[source.0 as int].crc,
        Sample { mode: loc.record.mode, raw, expected: loc.record.blocks[i].checksum },
    )
}

/// The key of a blob is resolved by a block of a file that it brought: where one is
/// found, it opens that very block to the checksum that the block has.
pub proof fn law_keys_are_resolved_by_a_block<B: Backend>(
    s: Setup<B>,
    past: Past,
    source: BlobId,
    r: KeyResolution,
)
    requires
        s.may_resolve(past, source, r),
    ensures
        exists|loc: LocView, i: int, raw: Seq<u8>| #[trigger]
            shows_key(s, past, source, loc, i, raw, r),
{
    reveal(Setup::may_resolve);
    let b = s.index.blob(source);
    let (loc, i, x) = choose|loc: LocView, i: int, x: Sample| #[trigger]
        s.gives_sample(past, loc, i, x) && loc.source == source && r == block::resolution(
            s.keys,
            s.key_search,
            b.depot,
            b.crc,
            x,
        );
    assert(shows_key(s, past, source, loc, i, x.raw, r));
}

/// What a read teaches is at most the key of the blob that brought its file; what was
/// known before stays known.
pub proof fn law_a_read_teaches_one_key<B: Backend>(
    s: Setup<B>,
    before: Past,
    after: Past,
    loc: LocView,
    b: u32,
)
    requires
        s.may_pass(before, after, loc),
    ensures
        after.files == before.files.insert(loc),
        before.keys.contains_key(b) ==> after.keys.contains_key(b) && after.keys[b]
            == before.keys[b],
        b != loc.source.0 && after.keys.contains_key(b) ==> before.keys.contains_key(b),
        !loc.record.mode.encrypted() ==> after.keys == before.keys,
        !before.keys.contains_key(loc.source.0) && after.keys.contains_key(loc.source.0) ==> exists|
            i: int,
            raw: Seq<u8>,
        | #[trigger]
            shows_key(s, after, loc.source, loc, i, raw, after.keys[loc.source.0]),
{
    reveal(Setup::may_pass);
    reveal(Setup::may_learn);
    if after.keys != before.keys {
        let (i, x) = choose|i: int, x: Sample| #[trigger]
            s.gives_sample(after, loc, i, x) && after.keys == s.known_after(
                before.keys,
                loc,
                i,
                x.raw,
            );
        assert(after.keys == s.known_after(before.keys, loc, i, x.raw));
        if !before.keys.contains_key(loc.source.0) && after.keys.contains_key(loc.source.0) {
            assert(shows_key(s, after, loc.source, loc, i, x.raw, after.keys[loc.source.0]));
        }
    }
}

/// A key that is known is not looked for again.
pub proof fn law_known_keys_stay<B: Backend>(
    s: Setup<B>,
    known: Map<u32, KeyResolution>,
    loc: LocView,
    k: KeyResolution,
)
    requires
        known.contains_key(loc.source.0),
        s.may_probe(known, loc, Ok(k)),
    ensures
        k == known[loc.source.0],
{
    reveal(Setup::may_probe);
}

/// What each failure to read says.
pub proof fn law_what_failures_say(
    a: u32,
    b: u32,
    c: u32,
    d: u32,
    n: u64,
    x: u64,
    y: u64,
    tried: usize,
    t: TroubleView,
)
    ensures
        ReadFault::MissingRecord(a).text() == "no file record for file id "@ + text::dec(a as nat)
            + " in this version chain"@,
        (ReadFault::MissingDat { depot: a, version: b, crc: c }).text() == "dat file for depot "@
            + text::dec(a as nat) + " version "@ + text::dec(b as nat) + " crc "@ + text::hex8(
            c as nat,
        ) + " is not in the dump"@,
        ReadFault::NoKey(a).text() == "no AES key known for depot "@ + text::dec(a as nat),
        (ReadFault::NoWorkingKey { depot: a, crc: b, tried }).text() == "depot "@ + text::dec(
            a as nat,
        ) + " blob "@ + text::hex8(b as nat) + ": no known key decrypts it (tried "@ + text::dec(
            tried as nat,
        ) + ")"@,
        (ReadFault::Checksum { file_id: a, block: n, expected: b, actual: c }).text() == "block "@
            + text::dec(n as nat) + " of file id "@ + text::dec(a as nat)
            + ": checksum mismatch (expected "@ + text::hex8(b as nat) + ", got "@ + text::hex8(
            c as nat,
        ) + ")"@,
        (ReadFault::ShortRead { file_id: a, block: n, want: x, got: y }).text() == "block "@
            + text::dec(n as nat) + " of file id "@ + text::dec(a as nat)
            + ": short read from dat ("@ + text::dec(y as nat) + " of "@ + text::dec(x as nat)
            + " bytes)"@,
        (ReadFault::NoSuchBlock { file_id: a, block: n, blocks: x }).text() == "file id "@
            + text::dec(a as nat) + " has no block "@ + text::dec(n as nat) + " (it has "@
            + text::dec(x as nat) + ")"@,
        (ReadFault::BlockSize { file_id: a, block: n, want: x, got: y }).text() == "block "@
            + text::dec(n as nat) + " of file id "@ + text::dec(a as nat) + " decoded to "@
            + text::dec(y as nat) + " bytes, expected "@ + text::dec(x as nat),
        ReadFault::Other(t).text() == t.brief,
        ReadFault::Other(t).whole_text() == t.whole,
        ReadFault::NoKey(a).whole_text() == ReadFault::NoKey(a).text(),
{
}

// ---- chains ---------------------------------------------------------------

/// A chain ends with the version it is of; every blob but the first is one whose
/// parent stands before it, and none occurs twice; and it begins with a blob that has
/// no parent, or whose parent is in the chain already, or where there are too many to
/// go on.
pub proof fn law_a_chain_goes_from_parent_to_child<B: Backend>(
    s: Setup<B>,
    id: BlobId,
    c: Seq<BlobId>,
)
    requires
        s.may_chain(id, c),
    ensures
        c.len() > 0,
        c.last() == id,
        c.no_duplicates(),
        forall|i: int| 0 < i < c.len() ==> s.may_parent(#[trigger] c[i], Some(c[i - 1])),
        s.may_parent(c[0], None) || exists|p: BlobId| #[trigger]
            s.may_parent(c[0], Some(p)) && (c.contains(p) || c.len() > 100_000),
{
    reveal(Setup::linked);
    reveal(Setup::begins);
}

// ---- notes ----------------------------------------------------------------

/// All that is stored of some blocks.
pub open spec fn stored_blocks(records: Seq<FileView>) -> Seq<nat> {
    records.map_values(|r: FileView| table::stored_before(r.blocks, r.blocks.len() as int))
}

proof fn lemma_blocks_size(blocks: Seq<checksums::Block>)
    ensures
        notes::blocks_size(blocks) == table::stored_before(blocks, blocks.len() as int),
    decreases blocks.len(),
{
    if blocks.len() > 0 {
        lemma_blocks_size(blocks.drop_last());
        lemma_stored_front(blocks, blocks.len() - 1);
    }
}

proof fn lemma_stored_front(blocks: Seq<checksums::Block>, n: int)
    requires
        0 <= n < blocks.len(),
    ensures
        table::stored_before(blocks.drop_last(), n) == table::stored_before(blocks, n),
    decreases n,
{
    if n > 0 {
        lemma_stored_front(blocks, n - 1);
    }
}

/// The sum of some numbers.
pub open spec fn total(s: Seq<nat>) -> nat
    decreases s.len(),
{
    if s.len() == 0 {
        0
    } else {
        total(s.drop_last()) + s.last()
    }
}

proof fn lemma_stored_size(records: Seq<FileView>)
    ensures
        notes::stored_size(records) == total(stored_blocks(records)),
    decreases records.len(),
{
    if records.len() > 0 {
        lemma_stored_size(records.drop_last());
        lemma_blocks_size(records.last().blocks);
        assert(stored_blocks(records).drop_last() =~= stored_blocks(records.drop_last()));
    }
}

/// There is nothing to say of a blob exactly where its name, what it holds, its
/// dat and its parent agree: its crc and version are those of its name, its blocks
/// make up the dat that it names, which is in the dump and as long, and so is the
/// parent that it records.
pub proof fn law_nothing_is_said_where_all_agrees(v: IndexView, id: BlobId, p: ParsedView)
    ensures
        notes::blob_notes(v, id, p).len() == 0 <==> {
            let e = v.blob(id);
            let dat = v.find_dat(e.depot, e.version, p.meta.dat_crc);
            &&& p.meta.own_crc == e.crc
            &&& p.manifest.version_id == e.version
            &&& p.meta.dat_size == lesser(total(stored_blocks(p.records)) as int, u64::MAX as int)
            &&& dat matches Some(d) ==> v.dat(d).size == p.meta.dat_size
            &&& dat is None ==> p.records.len() == 0
            &&& p.meta.prev matches Some((version, crc)) ==> v.find_blob(
                e.depot,
                version,
                crc,
            ) is Some
        },
{
    lemma_stored_size(p.records);
}

/// Nothing is said of the key of a blob where the configured one opens it, or where
/// none is configured and no other is looked for.
pub proof fn law_what_is_said_of_a_key(
    known: KeysView,
    search: bool,
    e: BlobView,
    r: KeyResolution,
)
    ensures
        notes::key_notes(known, search, e, r).len() == (if known.get_for_blob(
            e.depot,
            e.crc,
        ) is Some && !(r is Configured) {
            1int
        } else {
            0int
        }) + (if r is Discovered || (r is Nothing && search) {
            1int
        } else {
            0int
        }),
        forall|k: int|
            0 <= k < notes::key_notes(known, search, e, r).len() ==> (#[trigger] notes::key_notes(
                known,
                search,
                e,
                r,
            )[k]).about == e.file_name,
{
}

// ---- what is kept ---------------------------------------------------------

/// A plain block is not kept, since the stored bytes are; any other that fits is, and
/// so is a window that was fetched.
pub proof fn law_what_is_kept(k: Kept, key: u128, b: Buffer)
    requires
        k.blocks.sound(),
        k.windows.sound(),
    ensures
        k.blocks_with(true, key, b) == k.blocks,
        b@.len() <= k.room ==> k.blocks_with(false, key, b).values.contains_key(key)
            && k.blocks_with(false, key, b).values[key] == b,
        b@.len() <= k.window_room && !k.windows.values.contains_key(key) ==> k.windows_with(
            key,
            Some(b),
        ).values.contains_key(key) && k.windows_with(key, Some(b)).values[key] == b,
        k.windows.values.contains_key(key) ==> k.windows_with(key, Some(b)).values
            == k.windows.values,
        !k.windows.values.contains_key(key) ==> k.windows_with(key, None) == k.windows,
{
    if b@.len() <= k.room {
        cache::law_inserted_is_kept(k.blocks, k.room, key, b);
    }
    if b@.len() <= k.window_room {
        cache::law_inserted_is_kept(k.windows, k.window_room, key, b);
    }
}

/// What is said of contents that are not accepted: the digest that they have, or how
/// long they are and should be; and of a copy that was kept, how far it is off.
pub proof fn law_what_is_said_of_contents(e: BlobView, digest: Seq<char>, len: nat, parses: bool)
    requires
        contents::contents_fault(e, digest, len) is Some,
    ensures
        ({
            let fault = if e.sha256 is Some {
                e.file_name + ": sha256 "@ + digest + " does not match its name"@
            } else {
                e.file_name + ": "@ + text::dec(len) + " bytes, expected "@ + text::dec(
                    e.size as nat,
                )
            };
            let off = if len != e.size {
                ", "@ + text::dec(len) + " bytes, expected "@ + text::dec(e.size as nat)
            } else if !parses {
                ", did not parse"@
            } else {
                ""@
            };
            &&& contents::contents_fault(e, digest, len) == Some(fault)
            &&& contents::kept_fault(e, digest, len, parses) == Some(
                if e.sha256 is Some {
                    fault + off
                } else {
                    fault
                },
            )
        }),
{
}

/// What is said of a parent that is not in the dump: whether the only blob with its
/// version stands in for it, there is none, or there are several.
pub proof fn law_what_is_said_of_a_missing_parent(
    v: IndexView,
    id: BlobId,
    p: ParsedView,
    version: u32,
    crc: u32,
)
    requires
        p.meta.prev == Some((version, crc)),
        v.find_blob(v.blob(id).depot, version, crc) is None,
    ensures
        ({
            let e = v.blobs[id.0 as int];
            let n = v.with_version(e.depot, version).len();
            let (number, sum) = (text::dec(version as nat), text::hex8(crc as nat));
            notes::parent_notes(v, id, p) == seq![
                NoteView {
                    about: e.file_name,
                    text: if n == 0 {
                        "parent version "@ + number + " is missing from the dump"@
                    } else if n == 1 {
                        "parent crc "@ + sum + " not found; using the only version-"@ + number
                            + " blob"@
                    } else {
                        "parent crc "@ + sum + " not found and version "@ + number
                            + " is ambiguous"@
                    },
                },
            ]
        }),
{
}

} // verus!
