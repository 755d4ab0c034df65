//! Why a file's bytes cannot be had.

use vstd::prelude::*;

use crate::backend::{Trouble, TroubleView};
use crate::format::{Fault, FormatError};
use crate::text;

verus! {

/// Why a read failed.
#[derive(Debug)]
#[allow(inconsistent_fields)]
pub enum ReadError {
    MissingRecord(u32),
    MissingDat { depot: u32, version: u32, crc: u32 },
    NoKey(u32),
    NoWorkingKey { depot: u32, crc: u32, tried: usize },
    Checksum { file_id: u32, block: u64, expected: u32, actual: u32 },
    ShortRead { file_id: u32, block: u64, want: u64, got: u64 },
    NoSuchBlock { file_id: u32, block: u64, blocks: u64 },
    BlockSize { file_id: u32, block: u64, want: u64, got: u64 },
    NoBlocksToProbe { file_id: u32 },
    Format(FormatError),
    Other(Trouble),
}

/// A `ReadError`, as the contracts see it.
#[allow(inconsistent_fields)]
pub enum ReadFault {
    MissingRecord(u32),
    MissingDat { depot: u32, version: u32, crc: u32 },
    NoKey(u32),
    NoWorkingKey { depot: u32, crc: u32, tried: usize },
    Checksum { file_id: u32, block: u64, expected: u32, actual: u32 },
    ShortRead { file_id: u32, block: u64, want: u64, got: u64 },
    NoSuchBlock { file_id: u32, block: u64, blocks: u64 },
    BlockSize { file_id: u32, block: u64, want: u64, got: u64 },
    NoBlocksToProbe { file_id: u32 },
    Format(Fault),
    Other(TroubleView),
}

pub type Result<T> = core::result::Result<T, ReadError>;

/// What a read comes to, as the contracts see it.
pub type Outcome<T> = core::result::Result<T, ReadFault>;

impl View for ReadError {
    type V = ReadFault;

    open spec fn view(&self) -> ReadFault {
        match self {
            ReadError::MissingRecord(id) => ReadFault::MissingRecord(*id),
            ReadError::MissingDat { depot, version, crc } => ReadFault::MissingDat {
                depot: *depot,
                version: *version,
                crc: *crc,
            },
            ReadError::NoKey(d) => ReadFault::NoKey(*d),
            ReadError::NoWorkingKey { depot, crc, tried } => ReadFault::NoWorkingKey {
                depot: *depot,
                crc: *crc,
                tried: *tried,
            },
            ReadError::Checksum { file_id, block, expected, actual } => ReadFault::Checksum {
                file_id: *file_id,
                block: *block,
                expected: *expected,
                actual: *actual,
            },
            ReadError::ShortRead { file_id, block, want, got } => ReadFault::ShortRead {
                file_id: *file_id,
                block: *block,
                want: *want,
                got: *got,
            },
            ReadError::NoSuchBlock { file_id, block, blocks } => ReadFault::NoSuchBlock {
                file_id: *file_id,
                block: *block,
                blocks: *blocks,
            },
            ReadError::BlockSize { file_id, block, want, got } => ReadFault::BlockSize {
                file_id: *file_id,
                block: *block,
                want: *want,
                got: *got,
            },
            ReadError::NoBlocksToProbe { file_id } => ReadFault::NoBlocksToProbe {
                file_id: *file_id,
            },
            ReadError::Format(e) => ReadFault::Format(e@),
            ReadError::Other(s) => ReadFault::Other(s@),
        }
    }
}

/// What kind of failure a `ReadError` is.
#[derive(Debug, Clone, Copy, PartialEq, Eq, Structural)]
pub enum ErrorClass {
    /// The dump lacks the file's record or its dat.
    Missing,
    /// No known key decrypts it.
    NoKey,
    /// What was read does not fit together, or could not be read.
    Io,
    /// What was read is malformed.
    BadData,
}

/// The numbers that a platform gives the kinds of failure: `ENXIO`, `ENOKEY`,
/// `EIO` and `EBADMSG`.
#[derive(Debug, Clone, Copy, PartialEq, Eq, Structural)]
pub struct Errnos {
    pub missing: i32,
    pub no_key: i32,
    pub io: i32,
    pub bad_data: i32,
}

impl Errnos {
    pub open spec fn of(self, c: ErrorClass) -> i32 {
        match c {
            ErrorClass::Missing => self.missing,
            ErrorClass::NoKey => self.no_key,
            ErrorClass::Io => self.io,
            ErrorClass::BadData => self.bad_data,
        }
    }
}

impl ReadFault {
    pub open spec fn class(self) -> ErrorClass {
        match self {
            ReadFault::MissingRecord(_) => ErrorClass::Missing,
            ReadFault::MissingDat { .. } => ErrorClass::Missing,
            ReadFault::NoKey(_) => ErrorClass::NoKey,
            ReadFault::NoWorkingKey { .. } => ErrorClass::NoKey,
            ReadFault::Format(_) => ErrorClass::BadData,
            _ => ErrorClass::Io,
        }
    }

    /// The message that describes the failure.
    pub open spec fn text(self) -> Seq<char> {
        match self {
            ReadFault::MissingRecord(id) => "no file record for file id "@ + text::dec(id as nat)
                + " in this version chain"@,
            ReadFault::MissingDat { depot, version, crc } => "dat file for depot "@ + text::dec(
                depot as nat,
            ) + " version "@ + text::dec(version as nat) + " crc "@ + text::hex8(crc as nat)
                + " is not in the dump"@,
            ReadFault::NoKey(d) => "no AES key known for depot "@ + text::dec(d as nat),
            ReadFault::NoWorkingKey { depot, crc, tried } => "depot "@ + text::dec(depot as nat)
                + " blob "@ + text::hex8(crc as nat) + ": no known key decrypts it (tried "@
                + text::dec(tried as nat) + ")"@,
            ReadFault::Checksum { file_id, block, expected, actual } => block_text(block, file_id)
                + ": checksum mismatch (expected "@ + text::hex8(expected as nat) + ", got "@
                + text::hex8(actual as nat) + ")"@,
            ReadFault::ShortRead { file_id, block, want, got } => block_text(block, file_id)
                + ": short read from dat ("@ + text::dec(got as nat) + " of "@ + text::dec(
                want as nat,
            ) + " bytes)"@,
            ReadFault::NoSuchBlock { file_id, block, blocks } => "file id "@ + text::dec(
                file_id as nat,
            ) + " has no block "@ + text::dec(block as nat) + " (it has "@ + text::dec(
                blocks as nat,
            ) + ")"@,
            ReadFault::BlockSize { file_id, block, want, got } => block_text(block, file_id)
                + " decoded to "@ + text::dec(got as nat) + " bytes, expected "@ + text::dec(
                want as nat,
            ),
            ReadFault::NoBlocksToProbe { file_id } => "file id "@ + text::dec(file_id as nat)
                + " has no blocks, so its key cannot be probed"@,
            ReadFault::Format(f) => f.text(),
            ReadFault::Other(t) => t.brief,
        }
    }

    /// The message, with what the failure came from.
    pub open spec fn whole_text(self) -> Seq<char> {
        match self {
            ReadFault::Other(t) => t.whole,
            _ => self.text(),
        }
    }
}

pub open spec fn block_text(block: u64, file_id: u32) -> Seq<char> {
    "block "@ + text::dec(block as nat) + " of file id "@ + text::dec(file_id as nat)
}

fn name_block(block: u64, file_id: u32) -> (s: String)
    ensures
        s@ == block_text(block, file_id),
{
    let mut s = text::owned("block ");
    text::push_dec(&mut s, block);
    text::push_text(&mut s, " of file id ");
    text::push_dec(&mut s, file_id as u64);
    s
}

impl ReadError {
    /// What kind of failure this is.
    pub fn class(&self) -> (r: ErrorClass)
        ensures
            r == self@.class(),
    {
        match self {
            ReadError::MissingRecord(_) | ReadError::MissingDat { .. } => ErrorClass::Missing,
            ReadError::NoKey(_) | ReadError::NoWorkingKey { .. } => ErrorClass::NoKey,
            ReadError::Checksum { .. }
            | ReadError::ShortRead { .. }
            | ReadError::NoSuchBlock { .. }
            | ReadError::BlockSize { .. }
            | ReadError::NoBlocksToProbe { .. } => ErrorClass::Io,
            ReadError::Format(_) => ErrorClass::BadData,
            ReadError::Other(_) => ErrorClass::Io,
        }
    }

    /// The number that the platform gives this kind of failure.
    pub fn errno(&self, numbers: &Errnos) -> (r: i32)
        ensures
            r == numbers.of(self@.class()),
    {
        match self.class() {
            ErrorClass::Missing => numbers.missing,
            ErrorClass::NoKey => numbers.no_key,
            ErrorClass::Io => numbers.io,
            ErrorClass::BadData => numbers.bad_data,
        }
    }

    /// The message that describes the failure.
    pub fn message(&self) -> (r: String)
        ensures
            r@ == self@.text(),
    {
        match self {
            ReadError::MissingRecord(id) => {
                let mut s = text::owned("no file record for file id ");
                text::push_dec(&mut s, *id as u64);
                text::push_text(&mut s, " in this version chain");
                s
            },
            ReadError::MissingDat { depot, version, crc } => {
                let mut s = text::owned("dat file for depot ");
                text::push_dec(&mut s, *depot as u64);
                text::push_text(&mut s, " version ");
                text::push_dec(&mut s, *version as u64);
                text::push_text(&mut s, " crc ");
                text::push_hex8(&mut s, *crc);
                text::push_text(&mut s, " is not in the dump");
                s
            },
            ReadError::NoKey(d) => {
                let mut s = text::owned("no AES key known for depot ");
                text::push_dec(&mut s, *d as u64);
                s
            },
            ReadError::NoWorkingKey { depot, crc, tried } => {
                let mut s = text::owned("depot ");
                text::push_dec(&mut s, *depot as u64);
                text::push_text(&mut s, " blob ");
                text::push_hex8(&mut s, *crc);
                text::push_text(&mut s, ": no known key decrypts it (tried ");
                text::push_dec(&mut s, *tried as u64);
                text::push_text(&mut s, ")");
                s
            },
            ReadError::Checksum { file_id, block, expected, actual } => {
                let mut s = name_block(*block, *file_id);
                text::push_text(&mut s, ": checksum mismatch (expected ");
                text::push_hex8(&mut s, *expected);
                text::push_text(&mut s, ", got ");
                text::push_hex8(&mut s, *actual);
                text::push_text(&mut s, ")");
                s
            },
            ReadError::ShortRead { file_id, block, want, got } => {
                let mut s = name_block(*block, *file_id);
                text::push_text(&mut s, ": short read from dat (");
                text::push_dec(&mut s, *got);
                text::push_text(&mut s, " of ");
                text::push_dec(&mut s, *want);
                text::push_text(&mut s, " bytes)");
                s
            },
            ReadError::NoSuchBlock { file_id, block, blocks } => {
                let mut s = text::owned("file id ");
                text::push_dec(&mut s, *file_id as u64);
                text::push_text(&mut s, " has no block ");
                text::push_dec(&mut s, *block);
                text::push_text(&mut s, " (it has ");
                text::push_dec(&mut s, *blocks);
                text::push_text(&mut s, ")");
                s
            },
            ReadError::BlockSize { file_id, block, want, got } => {
                let mut s = name_block(*block, *file_id);
                text::push_text(&mut s, " decoded to ");
                text::push_dec(&mut s, *got);
                text::push_text(&mut s, " bytes, expected ");
                text::push_dec(&mut s, *want);
                s
            },
            ReadError::NoBlocksToProbe { file_id } => {
                let mut s = text::owned("file id ");
                text::push_dec(&mut s, *file_id as u64);
                text::push_text(&mut s, " has no blocks, so its key cannot be probed");
                s
            },
            ReadError::Format(e) => e.message(),
            ReadError::Other(t) => text::owned(t.brief.as_str()),
        }
    }

    /// The message, with what the failure came from.
    pub fn whole_message(&self) -> (r: String)
        ensures
            r@ == self@.whole_text(),
    {
        match self {
            ReadError::Other(t) => text::owned(t.whole.as_str()),
            _ => self.message(),
        }
    }
}

/// The failure of a read that a text describes.
pub fn other(s: &str) -> (r: ReadError)
    ensures
        r@ == ReadFault::Other(TroubleView::plain(s@)),
{
    ReadError::Other(Trouble::plain(s))
}

} // verus!
