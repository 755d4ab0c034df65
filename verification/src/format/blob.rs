//! Steam2 "blob" key/value container.
//!
//! Layout of an uncompressed blob (magic `0x5001`):
//!
//! ```text
//! u16 magic = 0x5001
//! u32 total_size      // including this 10-byte header
//! u32 slack_size      // padding after the entries
//! repeated: u16 key_len, u32 value_len, key bytes, value bytes
//! ```
//!
//! A compressed blob (magic `0x4301`) wraps a zlib stream:
//!
//! ```text
//! u16 magic = 0x4301
//! u64 packed_size
//! u64 unpacked_size
//! u16 compression_level
//! zlib data
//! ```
//!
//! Keys in the content-server blobs are little-endian `u32`s stored as raw
//! bytes; nested values are themselves blobs.

use vstd::prelude::*;
use vstd::slice::slice_subrange;

use super::{malformed, u16_at, u32_at, u64_at};
use super::{Fault, FormatError, KeyWidth, Outcome, Problem, Result};
use crate::codec;
use crate::text;

pub mod keys;

verus! {

pub const MAGIC_PLAIN: u16 = 0x5001;

pub const MAGIC_COMPRESSED: u16 = 0x4301;

/// One entry of a blob, as the contracts see it.
#[verifier::ext_equal]
pub struct EntryView {
    pub key: Seq<u8>,
    pub value: Seq<u8>,
    /// Where the value begins in the blob.
    pub at: int,
}

/// A parsed view over a plain blob's entries.
#[derive(Debug)]
pub struct Blob<'a> {
    entries: Vec<(&'a [u8], &'a [u8])>,
    places: Vec<usize>,
}

impl<'a> View for Blob<'a> {
    type V = Seq<EntryView>;

    closed spec fn view(&self) -> Seq<EntryView> {
        Seq::new(
            self.entries@.len(),
            |i: int|
                EntryView {
                    key: self.entries@[i].0@,
                    value: self.entries@[i].1@,
                    at: self.places@[i] as int,
                },
        )
    }
}

// ---- the layout -----------------------------------------------------------

/// The entry at `pos`.
pub open spec fn entry_at(d: Seq<u8>, pos: int) -> Outcome<EntryView> {
    match (super::u16_of(d, pos), super::u32_of(d, pos + 2)) {
        (Err(e), _) => Err(e),
        (_, Err(e)) => Err(e),
        (Ok(klen), Ok(vlen)) => if pos + 6 + klen > d.len() {
            super::bad(Problem::BlobKeyTruncated)
        } else if pos + 6 + klen + vlen > d.len() {
            super::bad(Problem::BlobValueTruncated)
        } else {
            Ok(
                EntryView {
                    key: d.subrange(pos + 6, pos + 6 + klen),
                    value: d.subrange(pos + 6 + klen, pos + 6 + klen + vlen),
                    at: pos + 6 + klen,
                },
            )
        },
    }
}

/// What some entries become when `before` stand in front of them.
pub open spec fn behind(before: Seq<EntryView>, r: Outcome<Seq<EntryView>>) -> Outcome<
    Seq<EntryView>,
> {
    match r {
        Ok(v) => Ok(before + v),
        Err(e) => Err(e),
    }
}

/// The entries from `pos` on, up to `total`.
pub open spec fn entries_at(d: Seq<u8>, pos: int, total: int) -> Outcome<Seq<EntryView>>
    decreases
            if pos < total {
                total - pos
            } else {
                0
            },
{
    if pos >= total {
        Ok(Seq::empty())
    } else {
        match entry_at(d, pos) {
            Err(e) => Err(e),
            Ok(e) => behind(seq![e], entries_at(d, e.at + e.value.len() as int, total)),
        }
    }
}

/// The entries of a plain blob.
pub open spec fn blob_of(d: Seq<u8>) -> Outcome<Seq<EntryView>> {
    match super::u16_of(d, 0) {
        Err(e) => Err(e),
        Ok(magic) => if magic != MAGIC_PLAIN {
            super::bad(Problem::BlobMagic(magic))
        } else {
            match super::u32_of(d, 2) {
                Err(e) => Err(e),
                Ok(total) => if total > d.len() {
                    super::bad(Problem::BlobSize { total: total as u64, len: d.len() as u64 })
                } else {
                    entries_at(d, 10, total as int)
                },
            }
        },
    }
}

/// The first entry with a key.
pub open spec fn find(b: Seq<EntryView>, key: Seq<u8>) -> Option<EntryView>
    decreases b.len(),
{
    if b.len() == 0 {
        None
    } else if b[0].key == key {
        Some(b[0])
    } else {
        find(b.skip(1), key)
    }
}

/// A number as a key.
pub open spec fn key_bytes(key: u32) -> Seq<u8> {
    seq![
        (key as nat % 0x100) as u8,
        (key as nat / 0x100 % 0x100) as u8,
        (key as nat / 0x1_0000 % 0x100) as u8,
        (key as nat / 0x100_0000) as u8,
    ]
}

/// The value of a key that has to be there.
pub open spec fn required(b: Seq<EntryView>, key: u32) -> Outcome<Seq<u8>> {
    match find(b, key_bytes(key)) {
        Some(e) => Ok(e.value),
        None => super::bad(Problem::MissingKey(key)),
    }
}

pub open spec fn u32_field(b: Seq<EntryView>, key: u32) -> Outcome<u32> {
    match required(b, key) {
        Err(e) => Err(e),
        Ok(v) => if v.len() == 4 {
            Ok(super::le32(v, 0) as u32)
        } else {
            super::bad(
                Problem::KeyLength { key, expected: KeyWidth::Four, len: v.len() as u64 },
            )
        },
    }
}

pub open spec fn u64_field(b: Seq<EntryView>, key: u32) -> Outcome<u64> {
    match required(b, key) {
        Err(e) => Err(e),
        Ok(v) => if v.len() == 8 {
            Ok(super::le64(v, 0) as u64)
        } else {
            super::bad(
                Problem::KeyLength { key, expected: KeyWidth::Eight, len: v.len() as u64 },
            )
        },
    }
}

pub open spec fn size_field(b: Seq<EntryView>, key: u32) -> Outcome<u64> {
    match required(b, key) {
        Err(e) => Err(e),
        Ok(v) => if v.len() == 4 {
            Ok(super::le32(v, 0) as u64)
        } else if v.len() == 8 {
            Ok(super::le64(v, 0) as u64)
        } else {
            super::bad(
                Problem::KeyLength { key, expected: KeyWidth::FourOrEight, len: v.len() as u64 },
            )
        },
    }
}

proof fn lemma_behind_twice(a: Seq<EntryView>, b: Seq<EntryView>, r: Outcome<Seq<EntryView>>)
    ensures
        behind(a, behind(b, r)) == behind(a + b, r),
        behind(Seq::empty(), r) == r,
{
    match r {
        Ok(v) => {
            assert(a + (b + v) =~= (a + b) + v);
            assert(Seq::<EntryView>::empty() + v =~= v);
        },
        Err(_) => {},
    }
}

// ---- reading it -----------------------------------------------------------

/// Read the entry at `pos`: its key, its value, and where the value begins.
fn read_entry<'a>(d: &'a [u8], pos: u64) -> (r: Result<(&'a [u8], &'a [u8], usize)>)
    ensures
        match r {
            Ok(v) => entry_at(d@, pos as int) == Ok::<EntryView, Fault>(
                EntryView { key: v.0@, value: v.1@, at: v.2 as int },
            ) && v.2 >= pos + 6 && v.2 + v.1@.len() <= d@.len(),
            Err(e) => entry_at(d@, pos as int) == Err::<EntryView, Fault>(e@),
        },
{
    let len: usize = d.len();
    let klen = match u16_at(d, pos) {
        Ok(v) => v,
        Err(e) => {
            return Err(e);
        },
    };
    let vlen = match u32_at(d, pos + 2) {
        Ok(v) => v,
        Err(e) => {
            return Err(e);
        },
    };
    let start: usize = (pos + 6) as usize;
    if klen as usize > len - start {
        return Err(malformed(Problem::BlobKeyTruncated));
    }
    let at: usize = start + klen as usize;
    if vlen as u64 > (len - at) as u64 {
        return Err(malformed(Problem::BlobValueTruncated));
    }
    let key = slice_subrange(d, start, at);
    let value = slice_subrange(d, at, at + vlen as usize);
    Ok((key, value, at))
}

impl<'a> Blob<'a> {
    /// Every value has a place.
    pub closed spec fn wf(&self) -> bool {
        self.places@.len() == self.entries@.len()
    }

    /// Parse a plain (`0x5001`) blob.
    #[verifier::loop_isolation(false)]
    pub fn parse(data: &'a [u8]) -> (r: Result<Blob<'a>>)
        ensures
            super::agree(r, blob_of(data@)),
            r matches Ok(b) ==> b.wf() && lies_in(b@, data@),
    {
        let magic = match u16_at(data, 0) {
            Ok(v) => v,
            Err(e) => {
                return Err(e);
            },
        };
        if magic != MAGIC_PLAIN {
            return Err(malformed(Problem::BlobMagic(magic)));
        }
        let total = match u32_at(data, 2) {
            Ok(v) => v as u64,
            Err(e) => {
                return Err(e);
            },
        };
        if total > data.len() as u64 {
            return Err(malformed(Problem::BlobSize { total, len: data.len() as u64 }));
        }
        let mut pos: u64 = 10;
        let mut b = Blob { entries: Vec::new(), places: Vec::new() };
        let ghost all = entries_at(data@, 10, total as int);
        proof {
            assert(b@ =~= Seq::<EntryView>::empty());
            lemma_behind_twice(Seq::empty(), Seq::empty(), all);
        }
        while pos < total
            invariant
                b.wf(),
                lies_in(b@, data@),
                all == behind(b@, entries_at(data@, pos as int, total as int)),
                blob_of(data@) == all,
                total <= data@.len(),
            decreases
                    if pos < total {
                        total - pos
                    } else {
                        0
                    },
        {
            match read_entry(data, pos) {
                Err(e) => {
                    return Err(e);
                },
                Ok(v) => {
                    let ghost before = b@;
                    let ghost e = EntryView { key: v.0@, value: v.1@, at: v.2 as int };
                    let next: u64 = (v.2 + v.1.len()) as u64;
                    proof {
                        lemma_behind_twice(
                            before,
                            seq![e],
                            entries_at(data@, next as int, total as int),
                        );
                    }
                    b.entries.push((v.0, v.1));
                    b.places.push(v.2);
                    assert(b@ =~= before + seq![e]);
                    assert(e.value =~= data@.subrange(e.at, e.at + e.value.len()));
                    pos = next;
                },
            }
        }
        assert(b@ + Seq::<EntryView>::empty() =~= b@);
        Ok(b)
    }

    /// The entries: key and value.
    pub fn entries(&self) -> (r: &[(&'a [u8], &'a [u8])])
        ensures
            r@.len() == self@.len(),
            forall|i: int|
                0 <= i < r@.len() ==> (#[trigger] r@[i]).0@ == self@[i].key && r@[i].1@
                    == self@[i].value,
    {
        self.entries.as_slice()
    }

    /// The place of the first entry with a key.
    fn position(&self, key: &[u8]) -> (r: Option<usize>)
        requires
            self.wf(),
        ensures
            match r {
                Some(i) => i < self@.len() && find(self@, key@) == Some(self@[i as int]),
                None => find(self@, key@) is None,
            },
    {
        let mut i: usize = 0;
        assert(self@.skip(0) =~= self@);
        while i < self.entries.len()
            invariant
                i <= self@.len(),
                self@.len() == self.entries@.len(),
                find(self@, key@) == find(self@.skip(i as int), key@),
            decreases self@.len() - i,
        {
            assert(self@.skip(i as int)[0] == self@[i as int]);
            if text::same_bytes(self.entries[i].0, key) {
                return Some(i);
            }
            assert(self@.skip(i as int).skip(1) =~= self@.skip(i + 1));
            i += 1;
        }
        None
    }

    /// The value of the first entry with a key.
    pub fn get(&self, key: &[u8]) -> (r: Option<&'a [u8]>)
        requires
            self.wf(),
        ensures
            match r {
                Some(v) => find(self@, key@) is Some && find(self@, key@)->0.value == v@,
                None => find(self@, key@) is None,
            },
    {
        match self.position(key) {
            Some(i) => Some(self.entries[i].1),
            None => None,
        }
    }

    pub fn get_u32_key(&self, key: u32) -> (r: Option<&'a [u8]>)
        requires
            self.wf(),
        ensures
            match r {
                Some(v) => find(self@, key_bytes(key)) is Some && find(
                    self@,
                    key_bytes(key),
                )->0.value == v@,
                None => find(self@, key_bytes(key)) is None,
            },
    {
        let k = key_vec(key);
        self.get(k.as_slice())
    }

    /// The value of a key that has to be there.
    pub fn require(&self, key: u32) -> (r: Result<&'a [u8]>)
        requires
            self.wf(),
        ensures
            match r {
                Ok(v) => required(self@, key) == Ok::<Seq<u8>, Fault>(v@),
                Err(e) => required(self@, key) == Err::<Seq<u8>, Fault>(e@),
            },
    {
        match self.get_u32_key(key) {
            Some(v) => Ok(v),
            None => Err(malformed(Problem::MissingKey(key))),
        }
    }

    /// Where the value of a key begins in the bytes that were parsed.
    pub fn value_offset(&self, key: u32) -> (r: Result<usize>)
        requires
            self.wf(),
        ensures
            match r {
                Ok(v) => find(self@, key_bytes(key)) is Some && find(
                    self@,
                    key_bytes(key),
                )->0.at == v,
                Err(e) => find(self@, key_bytes(key)) is None && e@ == Fault::Malformed(
                    Problem::MissingKey(key),
                ),
            },
    {
        let k = key_vec(key);
        match self.position(k.as_slice()) {
            Some(i) => Ok(self.places[i]),
            None => Err(malformed(Problem::MissingKey(key))),
        }
    }

    pub fn u32(&self, key: u32) -> (r: Result<u32>)
        requires
            self.wf(),
        ensures
            super::agree(r, u32_field(self@, key)),
    {
        match self.require(key) {
            Err(e) => Err(e),
            Ok(v) => {
                if v.len() == 4 {
                    u32_at(v, 0)
                } else {
                    Err(
                        malformed(
                            Problem::KeyLength {
                                key,
                                expected: KeyWidth::Four,
                                len: v.len() as u64,
                            },
                        ),
                    )
                }
            },
        }
    }

    pub fn u64(&self, key: u32) -> (r: Result<u64>)
        requires
            self.wf(),
        ensures
            super::agree(r, u64_field(self@, key)),
    {
        match self.require(key) {
            Err(e) => Err(e),
            Ok(v) => {
                if v.len() == 8 {
                    u64_at(v, 0)
                } else {
                    Err(
                        malformed(
                            Problem::KeyLength {
                                key,
                                expected: KeyWidth::Eight,
                                len: v.len() as u64,
                            },
                        ),
                    )
                }
            },
        }
    }

    /// Read a value that is a u32 (format 3) or u64 (format 4).
    pub fn u32_or_u64(&self, key: u32) -> (r: Result<u64>)
        requires
            self.wf(),
        ensures
            super::agree(r, size_field(self@, key)),
    {
        match self.require(key) {
            Err(e) => Err(e),
            Ok(v) => {
                if v.len() == 4 {
                    match u32_at(v, 0) {
                        Ok(n) => Ok(n as u64),
                        Err(e) => Err(e),
                    }
                } else if v.len() == 8 {
                    u64_at(v, 0)
                } else {
                    Err(
                        malformed(
                            Problem::KeyLength {
                                key,
                                expected: KeyWidth::FourOrEight,
                                len: v.len() as u64,
                            },
                        ),
                    )
                }
            },
        }
    }
}

/// Decompress a `0x4301` compressed blob into its plain form, given what its
/// body inflates to.
pub open spec fn unpacked(z: core::result::Result<Seq<u8>, Seq<char>>, expected: u64) -> Outcome<
    Seq<u8>,
> {
    match z {
        Err(e) => Err(Fault::Zlib(e)),
        Ok(out) => if out.len() != expected {
            super::bad(Problem::CompressedSize { expected, got: out.len() as u64 })
        } else {
            Ok(out)
        },
    }
}

/// Hold what the body of a compressed blob inflated to against its header.
pub fn check_unpacked(z: core::result::Result<Vec<u8>, String>, expected: u64) -> (r: Result<
    Vec<u8>,
>)
    ensures
        super::agree(r, unpacked(super::chunk::zlib_view(z), expected)),
{
    match z {
        Err(e) => Err(FormatError::Zlib(e)),
        Ok(out) => {
            if out.len() as u64 != expected {
                Err(
                    malformed(
                        Problem::CompressedSize { expected, got: out.len() as u64 },
                    ),
                )
            } else {
                Ok(out)
            }
        },
    }
}

/// The zlib stream inside a compressed blob, and the length that it is to
/// inflate to. The packed size counts the 20-byte header too.
pub open spec fn packed_body(d: Seq<u8>) -> Outcome<(Seq<u8>, u64)> {
    match (super::u16_of(d, 0), super::u64_of(d, 2), super::u64_of(d, 10)) {
        (Err(e), _, _) => Err(e),
        (Ok(magic), p, u) => if magic != MAGIC_COMPRESSED {
            super::bad(Problem::CompressedMagic(magic))
        } else {
            match (p, u) {
                (Err(e), _) => Err(e),
                (_, Err(e)) => Err(e),
                (Ok(packed), Ok(size)) => {
                    let end = if packed < d.len() {
                        packed as int
                    } else {
                        d.len() as int
                    };
                    if end < 20 {
                        super::bad(Problem::CompressedTruncated)
                    } else {
                        Ok((d.subrange(20, end), size))
                    }
                },
            }
        },
    }
}

/// The plain form of a compressed blob.
pub open spec fn decompressed(d: Seq<u8>) -> Outcome<Seq<u8>> {
    match packed_body(d) {
        Err(e) => Err(e),
        Ok((body, size)) => unpacked(codec::zlib_output(body, u64::MAX), size),
    }
}

/// Find the zlib stream inside a compressed blob, and the length that it is
/// to inflate to.
pub fn find_body<'a>(data: &'a [u8]) -> (r: Result<(&'a [u8], u64)>)
    ensures
        match r {
            Ok(v) => packed_body(data@) == Ok::<(Seq<u8>, u64), Fault>((v.0@, v.1)),
            Err(e) => packed_body(data@) == Err::<(Seq<u8>, u64), Fault>(e@),
        },
{
    let magic = match u16_at(data, 0) {
        Ok(v) => v,
        Err(e) => {
            return Err(e);
        },
    };
    if magic != MAGIC_COMPRESSED {
        return Err(malformed(Problem::CompressedMagic(magic)));
    }
    let packed = match u64_at(data, 2) {
        Ok(v) => v,
        Err(e) => {
            return Err(e);
        },
    };
    let size = match u64_at(data, 10) {
        Ok(v) => v,
        Err(e) => {
            return Err(e);
        },
    };
    let end: usize = if packed < data.len() as u64 {
        packed as usize
    } else {
        data.len()
    };
    if end < 20 {
        return Err(malformed(Problem::CompressedTruncated));
    }
    Ok((slice_subrange(data, 20, end), size))
}

/// Decompress a `0x4301` compressed blob into its plain form.
pub fn decompress(data: &[u8]) -> (r: Result<Vec<u8>>)
    ensures
        super::agree(r, decompressed(data@)),
{
    match find_body(data) {
        Err(e) => Err(e),
        Ok((body, size)) => {
            let z = codec::zlib_read(body, u64::MAX);
            check_unpacked(z, size)
        },
    }
}

/// The entries of a blob in either form.
pub open spec fn any_blob_of(d: Seq<u8>) -> Outcome<Seq<EntryView>> {
    match super::u16_of(d, 0) {
        Err(e) => Err(e),
        Ok(magic) => if magic == MAGIC_PLAIN {
            blob_of(d)
        } else if magic == MAGIC_COMPRESSED {
            match decompressed(d) {
                Err(e) => Err(e),
                Ok(plain) => blob_of(plain),
            }
        } else {
            super::bad(Problem::BlobMagic(magic))
        },
    }
}

impl<'a> Blob<'a> {
    /// Parse either a plain blob or a compressed one (decompressing into
    /// `scratch`).
    pub fn parse_any(data: &'a [u8], scratch: &'a mut Vec<u8>) -> (r: Result<Blob<'a>>)
        ensures
            super::agree(r, any_blob_of(data@)),
            r matches Ok(b) ==> b.wf(),
            match decompressed(data@) {
                Ok(plain) => final(scratch)@ == plain,
                Err(_) => final(scratch)@ == old(scratch)@,
            },
    {
        match u16_at(data, 0) {
            Err(e) => Err(e),
            Ok(magic) => {
                if magic == MAGIC_PLAIN {
                    Blob::parse(data)
                } else if magic == MAGIC_COMPRESSED {
                    match decompress(data) {
                        Err(e) => Err(e),
                        Ok(plain) => {
                            *scratch = plain;
                            Blob::parse(scratch.as_slice())
                        },
                    }
                } else {
                    Err(malformed(Problem::BlobMagic(magic)))
                }
            },
        }
    }
}

/// Metadata read from a version blob's top level (everything except the
/// manifest and checksum table).
#[derive(Debug, Clone, Copy, PartialEq, Eq)]
pub struct VersionMeta {
    pub format: u32,
    pub own_crc: u32,
    pub dat_crc: u32,
    pub dat_size: u64,
    /// `None` for a root (previous version 0xffffffff).
    pub prev: Option<(u32, u32)>,
}

impl View for VersionMeta {
    type V = VersionMeta;

    open spec fn view(&self) -> VersionMeta {
        *self
    }
}

/// The metadata that the top level of a version blob holds.
pub open spec fn meta_of(b: Seq<EntryView>) -> Outcome<VersionMeta> {
    match (
        u32_field(b, keys::PREV_VERSION),
        u32_field(b, keys::PREV_CRC),
        u32_field(b, keys::FORMAT),
        u32_field(b, keys::OWN_CRC),
        u32_field(b, keys::DAT_CRC),
        size_field(b, keys::DAT_SIZE),
    ) {
        (Err(e), _, _, _, _, _) => Err(e),
        (_, Err(e), _, _, _, _) => Err(e),
        (_, _, Err(e), _, _, _) => Err(e),
        (_, _, _, Err(e), _, _) => Err(e),
        (_, _, _, _, Err(e), _) => Err(e),
        (_, _, _, _, _, Err(e)) => Err(e),
        (
            Ok(prev_version),
            Ok(prev_crc),
            Ok(format),
            Ok(own_crc),
            Ok(dat_crc),
            Ok(dat_size),
        ) => Ok(
            VersionMeta {
                format,
                own_crc,
                dat_crc,
                dat_size,
                prev: if prev_version != u32::MAX {
                    Some((prev_version, prev_crc))
                } else {
                    None
                },
            },
        ),
    }
}

impl VersionMeta {
    pub fn from_blob(blob: &Blob<'_>) -> (r: Result<VersionMeta>)
        requires
            blob.wf(),
        ensures
            super::agree(r, meta_of(blob@)),
    {
        let prev_version = match blob.u32(keys::PREV_VERSION) {
            Ok(v) => v,
            Err(e) => {
                return Err(e);
            },
        };
        let prev_crc = match blob.u32(keys::PREV_CRC) {
            Ok(v) => v,
            Err(e) => {
                return Err(e);
            },
        };
        let format = match blob.u32(keys::FORMAT) {
            Ok(v) => v,
            Err(e) => {
                return Err(e);
            },
        };
        let own_crc = match blob.u32(keys::OWN_CRC) {
            Ok(v) => v,
            Err(e) => {
                return Err(e);
            },
        };
        let dat_crc = match blob.u32(keys::DAT_CRC) {
            Ok(v) => v,
            Err(e) => {
                return Err(e);
            },
        };
        let dat_size = match blob.u32_or_u64(keys::DAT_SIZE) {
            Ok(v) => v,
            Err(e) => {
                return Err(e);
            },
        };
        let prev = if prev_version != u32::MAX {
            Some((prev_version, prev_crc))
        } else {
            None
        };
        Ok(VersionMeta { format, own_crc, dat_crc, dat_size, prev })
    }
}

/// Each value is the part of `d` that begins at its place.
pub open spec fn lies_in(b: Seq<EntryView>, d: Seq<u8>) -> bool {
    forall|i: int|
        0 <= i < b.len() ==> {
            let e = #[trigger] b[i];
            0 <= e.at && e.at + e.value.len() <= d.len() && e.value == d.subrange(
                e.at,
                e.at + e.value.len(),
            )
        }
}

/// A number as a key.
fn key_vec(key: u32) -> (r: Vec<u8>)
    ensures
        r@ == key_bytes(key),
{
    let mut v: Vec<u8> = Vec::new();
    v.push((key % 0x100) as u8);
    v.push((key / 0x100 % 0x100) as u8);
    v.push((key / 0x1_0000 % 0x100) as u8);
    v.push((key / 0x100_0000) as u8);
    assert(v@ =~= key_bytes(key));
    v
}

} // verus!
