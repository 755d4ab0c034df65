//! On-disk formats of the Steam2 content server dump: blobs, manifests,
//! checksum tables and dat chunks.

use vstd::prelude::*;

use crate::text;

pub mod blob;
pub mod checksums;
pub mod chunk;
pub mod laws;
pub mod manifest;

verus! {

/// Decompressed size of every dat block except a file's last one.
pub const BLOCK_SIZE: u64 = 0x8000;

/// Everything that can be wrong with some bytes, with the numbers that its
/// message names.
#[allow(inconsistent_fields)]
#[derive(Debug, Clone, Copy, PartialEq, Eq, Structural)]
pub enum Problem {
    TruncatedU16(u64),
    TruncatedU32(u64),
    TruncatedU64(u64),
    BlobMagic(u16),
    BlobSize { total: u64, len: u64 },
    BlobKeyTruncated,
    BlobValueTruncated,
    MissingKey(u32),
    KeyLength { key: u32, expected: KeyWidth, len: u64 },
    CompressedMagic(u16),
    CompressedTruncated,
    CompressedSize { expected: u64, got: u64 },
    ManifestShort,
    ManifestVersion(u32),
    ManifestBlockSize(u32),
    ManifestSize { binary_size: u64, len: u64 },
    ManifestChecksum { actual: u32, expected: u32 },
    ManifestTables,
    NodeName(u64),
    NodeParent(u64),
    NodeFirstChild { node: u64, link: u32 },
    NodeNextSibling { node: u64, link: u32 },
    TableMagic,
    TableVersion(u32),
    TableBlockSize(u32),
    TableOffsets,
    FileblockOffset { fileblock: u64, offset: u64, cursor: u64 },
    FileIdOverflow,
    FileMode { file_id: u32, mode: u32 },
    FooterMagic,
    FileCount { files: u64, expected: u64 },
    LargestBlockCount,
    InflatesPastBlock,
    NoDepotKey,
    DecompressedSizeTooLarge,
    EncryptedSize { header: u64, stored: u64 },
    InflatedSize { inflated: u64, header: u64 },
    Checksum { actual: u32, expected: u32 },
    Fingerprint { blob: u32, manifest: u32 },
    OwnCrc { crc: u32, stored: u32 },
}

/// How long the value of a key has to be.
#[derive(Debug, Clone, Copy, PartialEq, Eq, Structural)]
pub enum KeyWidth {
    Four,
    Eight,
    FourOrEight,
}

impl KeyWidth {
    pub open spec fn text(self) -> Seq<char> {
        match self {
            KeyWidth::Four => "4"@,
            KeyWidth::Eight => "8"@,
            KeyWidth::FourOrEight => "4 or 8"@,
        }
    }

    fn name(self) -> (r: &'static str)
        ensures
            r@ == self.text(),
    {
        match self {
            KeyWidth::Four => "4",
            KeyWidth::Eight => "8",
            KeyWidth::FourOrEight => "4 or 8",
        }
    }
}

/// Why some bytes could not be read.
#[derive(Debug)]
pub enum FormatError {
    Malformed(Problem),
    /// What the zlib decoder said.
    Zlib(String),
}

/// A `FormatError` as the contracts see it.
pub enum Fault {
    Malformed(Problem),
    Zlib(Seq<char>),
}

pub type Result<T> = core::result::Result<T, FormatError>;

impl View for FormatError {
    type V = Fault;

    open spec fn view(&self) -> Fault {
        match self {
            FormatError::Malformed(p) => Fault::Malformed(*p),
            FormatError::Zlib(s) => Fault::Zlib(s@),
        }
    }
}

/// What reading some bytes comes to, as the contracts see it.
pub type Outcome<T> = core::result::Result<T, Fault>;

/// `r` is what `o` says: the same value, or the same failure.
pub open spec fn agree<T: View>(r: Result<T>, o: Outcome<T::V>) -> bool {
    match r {
        Ok(v) => o == Ok::<T::V, Fault>(v@),
        Err(e) => o == Err::<T::V, Fault>(e@),
    }
}

/// The failure for `p`.
pub open spec fn bad<T>(p: Problem) -> Outcome<T> {
    Err(Fault::Malformed(p))
}

/// A malformed input.
pub fn malformed(p: Problem) -> (r: FormatError)
    ensures
        r@ == Fault::Malformed(p),
{
    FormatError::Malformed(p)
}

impl Problem {
    /// The message that describes the problem.
    pub open spec fn text(self) -> Seq<char> {
        match self {
            Problem::TruncatedU16(at) => "truncated u16 at "@ + text::dec(at as nat),
            Problem::TruncatedU32(at) => "truncated u32 at "@ + text::dec(at as nat),
            Problem::TruncatedU64(at) => "truncated u64 at "@ + text::dec(at as nat),
            Problem::BlobMagic(m) => "bad blob magic "@ + text::prefixed_hex(m as nat, 6),
            Problem::BlobSize { total, len } => "blob total_size "@ + text::dec(total as nat)
                + " exceeds buffer "@ + text::dec(len as nat),
            Problem::BlobKeyTruncated => "blob key truncated"@,
            Problem::BlobValueTruncated => "blob value truncated"@,
            Problem::MissingKey(k) => "blob is missing key "@ + text::dec(k as nat),
            Problem::KeyLength { key, expected, len } => "key "@ + text::dec(key as nat)
                + ": expected "@ + expected.text() + " bytes, got "@ + text::dec(len as nat),
            Problem::CompressedMagic(m) => "bad compressed blob magic "@ + text::prefixed_hex(
                m as nat,
                6,
            ),
            Problem::CompressedTruncated => "compressed blob body truncated"@,
            Problem::CompressedSize { expected, got } => "compressed blob: expected "@ + text::dec(
                expected as nat,
            ) + " bytes, got "@ + text::dec(got as nat),
            Problem::ManifestShort => "manifest shorter than header"@,
            Problem::ManifestVersion(v) => "manifest version "@ + text::dec(v as nat)
                + " not 3 or 4"@,
            Problem::ManifestBlockSize(n) => "manifest block size "@ + text::prefixed_hex(
                n as nat,
                0,
            ),
            Problem::ManifestSize { binary_size, len } => "manifest binary_size "@ + text::dec(
                binary_size as nat,
            ) + " != buffer "@ + text::dec(len as nat),
            Problem::ManifestChecksum { actual, expected } => "manifest checksum "@
                + text::prefixed_hex(actual as nat, 10) + " != header "@ + text::prefixed_hex(
                expected as nat,
                10,
            ),
            Problem::ManifestTables => "manifest node/string tables exceed buffer"@,
            Problem::NodeName(i) => "node "@ + text::dec(i as nat) + ": name offset out of range"@,
            Problem::NodeParent(i) => "node "@ + text::dec(i as nat) + ": parent out of range"@,
            Problem::NodeFirstChild { node, link } => "node "@ + text::dec(node as nat)
                + ": first child "@ + text::dec(link as nat) + " out of range"@,
            Problem::NodeNextSibling { node, link } => "node "@ + text::dec(node as nat)
                + ": next sibling "@ + text::dec(link as nat) + " out of range"@,
            Problem::TableMagic => "checksum table: bad magic"@,
            Problem::TableVersion(v) => "checksum table: unknown version "@ + text::dec(v as nat),
            Problem::TableBlockSize(n) => "checksum table: block size "@ + text::prefixed_hex(
                n as nat,
                0,
            ),
            Problem::TableOffsets => "checksum table: unexpected table offsets"@,
            Problem::FileblockOffset { fileblock, offset, cursor } => "checksum table: fileblock "@
                + text::dec(fileblock as nat) + " offset "@ + text::prefixed_hex(offset as nat, 0)
                + " != cursor "@ + text::prefixed_hex(cursor as nat, 0),
            Problem::FileIdOverflow => "checksum table: file id overflow"@,
            Problem::FileMode { file_id, mode } => "checksum table: file "@ + text::dec(
                file_id as nat,
            ) + " mode "@ + text::dec(mode as nat),
            Problem::FooterMagic => "checksum table: bad footer magic"@,
            Problem::FileCount { files, expected } => "checksum table: "@ + text::dec(files as nat)
                + " files but header says "@ + text::dec(expected as nat),
            Problem::LargestBlockCount => "checksum table: largest block count mismatch"@,
            Problem::InflatesPastBlock => "block inflates past BLOCK_SIZE"@,
            Problem::NoDepotKey => "encrypted block but no depot key"@,
            Problem::DecompressedSizeTooLarge => "encrypted block header: decompressed size too large"@,
            Problem::EncryptedSize { header, stored } => "encrypted block header says "@
                + text::dec(header as nat) + " bytes, stored "@ + text::dec(stored as nat),
            Problem::InflatedSize { inflated, header } => "encrypted block: inflated "@ + text::dec(
                inflated as nat,
            ) + " bytes, header says "@ + text::dec(header as nat),
            Problem::Checksum { actual, expected } => "checksum "@ + text::hex8(actual as nat)
                + " != stored "@ + text::hex8(expected as nat),
            Problem::Fingerprint { blob, manifest } => "blob key 2 "@ + text::hex8(blob as nat)
                + " != manifest fingerprint "@ + text::hex8(manifest as nat),
            Problem::OwnCrc { crc, stored } => "blob crc "@ + text::hex8(crc as nat)
                + " != key 10 "@ + text::hex8(stored as nat),
        }
    }

    /// The message that describes the problem.
    pub fn message(&self) -> (r: String)
        ensures
            r@ == self.text(),
    {
        match *self {
            Problem::TruncatedU16(at) => with_dec("truncated u16 at ", at),
            Problem::TruncatedU32(at) => with_dec("truncated u32 at ", at),
            Problem::TruncatedU64(at) => with_dec("truncated u64 at ", at),
            Problem::BlobMagic(m) => with_prefixed("bad blob magic ", m as u64, 6),
            Problem::BlobSize { total, len } => two_dec(
                "blob total_size ",
                total,
                " exceeds buffer ",
                len,
            ),
            Problem::BlobKeyTruncated => text::owned("blob key truncated"),
            Problem::BlobValueTruncated => text::owned("blob value truncated"),
            Problem::MissingKey(k) => with_dec("blob is missing key ", k as u64),
            Problem::KeyLength { key, expected, len } => {
                let mut s = with_dec("key ", key as u64);
                text::push_text(&mut s, ": expected ");
                text::push_text(&mut s, expected.name());
                text::push_text(&mut s, " bytes, got ");
                text::push_dec(&mut s, len);
                s
            },
            Problem::CompressedMagic(m) => with_prefixed("bad compressed blob magic ", m as u64, 6),
            Problem::CompressedTruncated => text::owned("compressed blob body truncated"),
            Problem::CompressedSize { expected, got } => two_dec(
                "compressed blob: expected ",
                expected,
                " bytes, got ",
                got,
            ),
            Problem::ManifestShort => text::owned("manifest shorter than header"),
            Problem::ManifestVersion(v) => {
                let mut s = with_dec("manifest version ", v as u64);
                text::push_text(&mut s, " not 3 or 4");
                s
            },
            Problem::ManifestBlockSize(n) => with_prefixed("manifest block size ", n as u64, 0),
            Problem::ManifestSize { binary_size, len } => two_dec(
                "manifest binary_size ",
                binary_size,
                " != buffer ",
                len,
            ),
            Problem::ManifestChecksum { actual, expected } => {
                let mut s = with_prefixed("manifest checksum ", actual as u64, 10);
                text::push_text(&mut s, " != header ");
                text::push_prefixed_hex(&mut s, expected as u64, 10);
                s
            },
            Problem::ManifestTables => text::owned("manifest node/string tables exceed buffer"),
            Problem::NodeName(i) => {
                let mut s = with_dec("node ", i);
                text::push_text(&mut s, ": name offset out of range");
                s
            },
            Problem::NodeParent(i) => {
                let mut s = with_dec("node ", i);
                text::push_text(&mut s, ": parent out of range");
                s
            },
            Problem::NodeFirstChild { node, link } => {
                let mut s = two_dec("node ", node, ": first child ", link as u64);
                text::push_text(&mut s, " out of range");
                s
            },
            Problem::NodeNextSibling { node, link } => {
                let mut s = two_dec("node ", node, ": next sibling ", link as u64);
                text::push_text(&mut s, " out of range");
                s
            },
            Problem::TableMagic => text::owned("checksum table: bad magic"),
            Problem::TableVersion(v) => with_dec("checksum table: unknown version ", v as u64),
            Problem::TableBlockSize(n) => with_prefixed("checksum table: block size ", n as u64, 0),
            Problem::TableOffsets => text::owned("checksum table: unexpected table offsets"),
            Problem::FileblockOffset { fileblock, offset, cursor } => {
                let mut s = with_dec("checksum table: fileblock ", fileblock);
                text::push_text(&mut s, " offset ");
                text::push_prefixed_hex(&mut s, offset, 0);
                text::push_text(&mut s, " != cursor ");
                text::push_prefixed_hex(&mut s, cursor, 0);
                s
            },
            Problem::FileIdOverflow => text::owned("checksum table: file id overflow"),
            Problem::FileMode { file_id, mode } => two_dec(
                "checksum table: file ",
                file_id as u64,
                " mode ",
                mode as u64,
            ),
            Problem::FooterMagic => text::owned("checksum table: bad footer magic"),
            Problem::FileCount { files, expected } => two_dec(
                "checksum table: ",
                files,
                " files but header says ",
                expected,
            ),
            Problem::LargestBlockCount => text::owned(
                "checksum table: largest block count mismatch",
            ),
            Problem::InflatesPastBlock => text::owned("block inflates past BLOCK_SIZE"),
            Problem::NoDepotKey => text::owned("encrypted block but no depot key"),
            Problem::DecompressedSizeTooLarge => text::owned(
                "encrypted block header: decompressed size too large",
            ),
            Problem::EncryptedSize { header, stored } => two_dec(
                "encrypted block header says ",
                header,
                " bytes, stored ",
                stored,
            ),
            Problem::InflatedSize { inflated, header } => two_dec(
                "encrypted block: inflated ",
                inflated,
                " bytes, header says ",
                header,
            ),
            Problem::Checksum { actual, expected } => two_hex8(
                "checksum ",
                actual,
                " != stored ",
                expected,
            ),
            Problem::Fingerprint { blob, manifest } => two_hex8(
                "blob key 2 ",
                blob,
                " != manifest fingerprint ",
                manifest,
            ),
            Problem::OwnCrc { crc, stored } => two_hex8("blob crc ", crc, " != key 10 ", stored),
        }
    }
}

impl Fault {
    /// The message that describes the failure.
    pub open spec fn text(self) -> Seq<char> {
        match self {
            Fault::Malformed(p) => p.text(),
            Fault::Zlib(e) => "zlib: "@ + e,
        }
    }
}

impl FormatError {
    /// The message that describes the failure.
    pub fn message(&self) -> (r: String)
        ensures
            r@ == self@.text(),
    {
        match self {
            FormatError::Malformed(p) => p.message(),
            FormatError::Zlib(e) => {
                let mut s = text::owned("zlib: ");
                text::push_text(&mut s, e.as_str());
                s
            },
        }
    }
}

fn with_dec(a: &str, n: u64) -> (s: String)
    ensures
        s@ == a@ + text::dec(n as nat),
{
    let mut s = text::owned(a);
    text::push_dec(&mut s, n);
    s
}

fn with_prefixed(a: &str, n: u64, width: usize) -> (s: String)
    ensures
        s@ == a@ + text::prefixed_hex(n as nat, width as nat),
{
    let mut s = text::owned(a);
    text::push_prefixed_hex(&mut s, n, width);
    s
}

fn two_dec(a: &str, n: u64, b: &str, k: u64) -> (s: String)
    ensures
        s@ == a@ + text::dec(n as nat) + b@ + text::dec(k as nat),
{
    let mut s = with_dec(a, n);
    text::push_text(&mut s, b);
    text::push_dec(&mut s, k);
    s
}

fn two_hex8(a: &str, n: u32, b: &str, k: u32) -> (s: String)
    ensures
        s@ == a@ + text::hex8(n as nat) + b@ + text::hex8(k as nat),
{
    let mut s = text::owned(a);
    text::push_hex8(&mut s, n);
    text::push_text(&mut s, b);
    text::push_hex8(&mut s, k);
    s
}

// ---- little-endian fields -------------------------------------------------

/// The little-endian number in the two bytes at `at`.
pub open spec fn le16(b: Seq<u8>, at: int) -> nat {
    b[at] as nat + 0x100 * b[at + 1] as nat
}

/// The little-endian number in the four bytes at `at`.
pub open spec fn le32(b: Seq<u8>, at: int) -> nat {
    le16(b, at) + 0x1_0000 * le16(b, at + 2)
}

/// The little-endian number in the eight bytes at `at`.
pub open spec fn le64(b: Seq<u8>, at: int) -> nat {
    le32(b, at) + 0x1_0000_0000 * le32(b, at + 4)
}

/// The two-byte field at `at`, when the bytes reach that far.
pub open spec fn u16_of(b: Seq<u8>, at: int) -> Outcome<u16> {
    if at + 2 <= b.len() {
        Ok(le16(b, at) as u16)
    } else {
        bad(Problem::TruncatedU16(at as u64))
    }
}

/// The four-byte field at `at`, when the bytes reach that far.
pub open spec fn u32_of(b: Seq<u8>, at: int) -> Outcome<u32> {
    if at + 4 <= b.len() {
        Ok(le32(b, at) as u32)
    } else {
        bad(Problem::TruncatedU32(at as u64))
    }
}

/// The eight-byte field at `at`, when the bytes reach that far.
pub open spec fn u64_of(b: Seq<u8>, at: int) -> Outcome<u64> {
    if at + 8 <= b.len() {
        Ok(le64(b, at) as u64)
    } else {
        bad(Problem::TruncatedU64(at as u64))
    }
}

/// The place of the first word at or after `pos`, counted in words from
/// `pos`, that does not lie whole inside `len` bytes.
pub open spec fn first_missing(len: nat, pos: int) -> int {
    if pos > len {
        pos
    } else {
        pos + 4 * ((len - pos) / 4)
    }
}

/// The `n` four-byte fields at `at`, when the bytes reach that far.
pub open spec fn words_of(b: Seq<u8>, at: int, n: nat) -> Outcome<Seq<u32>> {
    if at + 4 * n <= b.len() || n == 0 {
        Ok(Seq::new(n, |i: int| le32(b, at + 4 * i) as u32))
    } else {
        bad(Problem::TruncatedU32(first_missing(b.len(), at) as u64))
    }
}

/// Whether `len` bytes at `off` lie inside `b`.
fn fits(b: &[u8], off: u64, len: u64) -> (r: bool)
    requires
        len <= 8,
    ensures
        r == (off + len <= b@.len()),
{
    let n: u64 = b.len() as u64;
    n >= len && off <= n - len
}

pub fn u16_at(b: &[u8], off: u64) -> (r: Result<u16>)
    ensures
        match r {
            Ok(v) => u16_of(b@, off as int) == Ok::<u16, Fault>(v),
            Err(e) => u16_of(b@, off as int) == Err::<u16, Fault>(e@),
        },
{
    if fits(b, off, 2) {
        let i: usize = off as usize;
        Ok(b[i] as u16 + 0x100 * b[i + 1] as u16)
    } else {
        Err(malformed(Problem::TruncatedU16(off)))
    }
}

pub fn u32_at(b: &[u8], off: u64) -> (r: Result<u32>)
    ensures
        match r {
            Ok(v) => u32_of(b@, off as int) == Ok::<u32, Fault>(v) && v == le32(b@, off as int),
            Err(e) => u32_of(b@, off as int) == Err::<u32, Fault>(e@),
        },
{
    if fits(b, off, 4) {
        let i: usize = off as usize;
        Ok(
            b[i] as u32 + 0x100 * b[i + 1] as u32 + 0x1_0000 * b[i + 2] as u32 + 0x100_0000
                * b[i + 3] as u32,
        )
    } else {
        Err(malformed(Problem::TruncatedU32(off)))
    }
}

pub fn u64_at(b: &[u8], off: u64) -> (r: Result<u64>)
    ensures
        match r {
            Ok(v) => u64_of(b@, off as int) == Ok::<u64, Fault>(v) && v == le64(b@, off as int),
            Err(e) => u64_of(b@, off as int) == Err::<u64, Fault>(e@),
        },
{
    if fits(b, off, 8) {
        let i: usize = off as usize;
        let lo: u64 = b[i] as u64 + 0x100 * b[i + 1] as u64 + 0x1_0000 * b[i + 2] as u64 + 0x100_0000
            * b[i + 3] as u64;
        let hi: u64 = b[i + 4] as u64 + 0x100 * b[i + 5] as u64 + 0x1_0000 * b[i + 6] as u64
            + 0x100_0000 * b[i + 7] as u64;
        Ok(lo + 0x1_0000_0000 * hi)
    } else {
        Err(malformed(Problem::TruncatedU64(off)))
    }
}

/// Read `n` four-byte fields at `off`.
pub fn words_at(b: &[u8], off: u64, n: u64) -> (r: Result<Vec<u32>>)
    ensures
        match r {
            Ok(v) => {
                &&& words_of(b@, off as int, n as nat) == Ok::<Seq<u32>, Fault>(v@)
                &&& v@.len() == n
                &&& forall|j: int| 0 <= j < n ==> v@[j] == le32(b@, off + 4 * j)
            },
            Err(e) => words_of(b@, off as int, n as nat) == Err::<Seq<u32>, Fault>(e@),
        },
{
    let len: u64 = b.len() as u64;
    let mut v: Vec<u32> = Vec::new();
    let mut i: u64 = 0;
    let mut at: u64 = off;
    while i < n
        invariant
            i <= n,
            at == off + 4 * i,
            b@.len() == len,
            i > 0 ==> at <= len,
            v@.len() == i,
            forall|j: int| 0 <= j < i ==> v@[j] == le32(b@, off + 4 * j),
        decreases n - i,
    {
        match u32_at(b, at) {
            Err(e) => {
                return Err(e);
            },
            Ok(w) => {
                v.push(w);
            },
        }
        at = at + 4;
        i = i + 1;
    }
    assert(v@ =~= words_of(b@, off as int, n as nat)->Ok_0);
    Ok(v)
}

} // verus!
