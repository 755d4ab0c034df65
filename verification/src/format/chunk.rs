//! Decoding of one dat block.
//!
//! * `Plain`: stored bytes.
//! * `Compressed`: one zlib stream.
//! * `CompressedEncrypted`: `u32 encrypted_size, u32 decompressed_size`, then
//!   AES-128-CFB (zero IV, fresh per block) over a zlib stream.
//! * `Encrypted`: AES-128-CFB (zero IV) over the stored bytes.
//!
//! Each block's checksum is `adler32(seed 0) ^ crc32` of the decoded bytes.

use vstd::prelude::*;
use vstd::slice::slice_subrange;

use super::checksums::Mode;
use super::{malformed, u32_at, Fault, FormatError, Outcome, Problem, Result, BLOCK_SIZE};
use crate::codec;
use crate::text;

verus! {

/// A depot key.
pub type Key = [u8; 16];

/// An optional key, as the contracts see it.
pub open spec fn key_view(key: Option<&Key>) -> Option<Seq<u8>> {
    match key {
        Some(k) => Some(k@),
        None => None,
    }
}

// ---- checksums ------------------------------------------------------------

/// The checksum of a decoded block.
pub open spec fn block_sum(data: Seq<u8>) -> u32 {
    codec::adler32(0, data) ^ codec::crc32(0, data)
}

/// The checksum of a decoded block.
pub fn checksum(data: &[u8]) -> (r: u32)
    ensures
        r == block_sum(data@),
{
    codec::adler32_from(0, data) ^ codec::crc32_from(0, data)
}

/// Hold a decoded block, whose checksum is `actual`, against the stored one.
pub open spec fn with_sum(out: Seq<u8>, actual: u32, expected: u32) -> Outcome<Seq<u8>> {
    if actual == expected {
        Ok(out)
    } else {
        super::bad(Problem::Checksum { actual, expected })
    }
}

/// Hold a decoded block, whose checksum is `actual`, against the stored one.
pub fn check_sum(out: Vec<u8>, actual: u32, expected: u32) -> (r: Result<Vec<u8>>)
    ensures
        super::agree(r, with_sum(out@, actual, expected)),
{
    if actual == expected {
        Ok(out)
    } else {
        Err(malformed(Problem::Checksum { actual, expected }))
    }
}

// ---- zlib -----------------------------------------------------------------

/// The block that a zlib stream stands for, given what one byte more than a
/// block's worth of it inflates to.
pub open spec fn inflated(z: core::result::Result<Seq<u8>, Seq<char>>) -> Outcome<Seq<u8>> {
    match z {
        Err(e) => Err(Fault::Zlib(e)),
        Ok(out) => if out.len() > BLOCK_SIZE {
            super::bad(Problem::InflatesPastBlock)
        } else {
            Ok(out)
        },
    }
}

/// What the decoder said, as the contracts see it.
pub open spec fn zlib_view(z: core::result::Result<Vec<u8>, String>) -> core::result::Result<
    Seq<u8>,
    Seq<char>,
> {
    match z {
        Ok(v) => Ok(v@),
        Err(e) => Err(e@),
    }
}

/// Accept what a stream inflated to as a block.
pub fn check_inflated(z: core::result::Result<Vec<u8>, String>) -> (r: Result<Vec<u8>>)
    ensures
        super::agree(r, inflated(zlib_view(z))),
{
    match z {
        Err(e) => Err(FormatError::Zlib(e)),
        Ok(out) => {
            if out.len() as u64 > BLOCK_SIZE {
                Err(malformed(Problem::InflatesPastBlock))
            } else {
                Ok(out)
            }
        },
    }
}

/// The block that the zlib stream `z` stands for.
pub open spec fn inflated_from(z: Seq<u8>) -> Outcome<Seq<u8>> {
    inflated(codec::zlib_output(z, 0x8001))
}

fn inflate(z: &[u8]) -> (r: Result<Vec<u8>>)
    ensures
        super::agree(r, inflated_from(z@)),
{
    let out = codec::zlib_read(z, BLOCK_SIZE + 1);
    check_inflated(out)
}

// ---- encrypted blocks -----------------------------------------------------

/// What the header of a compressed and encrypted block says of the length
/// that it inflates to.
pub open spec fn header(raw: Seq<u8>) -> Outcome<u32> {
    match (super::u32_of(raw, 0), super::u32_of(raw, 4)) {
        (Err(e), _) => Err(e),
        (_, Err(e)) => Err(e),
        (Ok(encrypted), Ok(decompressed)) => if decompressed > BLOCK_SIZE {
            super::bad(Problem::DecompressedSizeTooLarge)
        } else if encrypted != raw.len() - 8 {
            super::bad(
                Problem::EncryptedSize {
                    header: encrypted as u64,
                    stored: (raw.len() - 8) as u64,
                },
            )
        } else {
            Ok(decompressed)
        },
    }
}

/// Read the header of a compressed and encrypted block.
pub fn read_header(raw: &[u8]) -> (r: Result<u32>)
    ensures
        super::agree(r, header(raw@)),
        r is Ok ==> raw@.len() >= 8,
{
    let encrypted_size = match u32_at(raw, 0) {
        Ok(v) => v,
        Err(e) => {
            return Err(e);
        },
    };
    let decompressed_size = match u32_at(raw, 4) {
        Ok(v) => v,
        Err(e) => {
            return Err(e);
        },
    };
    if decompressed_size as u64 > BLOCK_SIZE {
        return Err(malformed(Problem::DecompressedSizeTooLarge));
    }
    let stored: u64 = (raw.len() - 8) as u64;
    if encrypted_size as u64 != stored {
        return Err(malformed(Problem::EncryptedSize { header: encrypted_size as u64, stored }));
    }
    Ok(decompressed_size)
}

/// Hold what a block inflated to against the length that its header gives.
pub open spec fn with_length(out: Outcome<Seq<u8>>, decompressed: u32) -> Outcome<Seq<u8>> {
    match out {
        Err(e) => Err(e),
        Ok(v) => if v.len() != decompressed {
            super::bad(
                Problem::InflatedSize { inflated: v.len() as u64, header: decompressed as u64 },
            )
        } else {
            Ok(v)
        },
    }
}

/// Hold what a block inflated to against the length that its header gives.
pub fn check_length(out: Vec<u8>, decompressed: u32) -> (r: Result<Vec<u8>>)
    ensures
        super::agree(r, with_length(Ok(out@), decompressed)),
{
    if out.len() as u64 != decompressed as u64 {
        Err(
            malformed(
                Problem::InflatedSize { inflated: out.len() as u64, header: decompressed as u64 },
            ),
        )
    } else {
        Ok(out)
    }
}

// ---- decoding -------------------------------------------------------------

/// Blocks in this mode are as long decoded as they are stored.
pub open spec fn keeps_length(mode: Mode) -> bool {
    mode is Plain || mode is Encrypted
}

/// What the stored block `raw` decodes to.
pub open spec fn decoded(mode: Mode, raw: Seq<u8>, key: Option<Seq<u8>>) -> Outcome<Seq<u8>> {
    match mode {
        Mode::Plain => Ok(raw),
        Mode::Compressed => inflated_from(raw),
        Mode::CompressedEncrypted => match key {
            None => super::bad(Problem::NoDepotKey),
            Some(k) => match header(raw) {
                Err(e) => Err(e),
                Ok(decompressed) => with_length(
                    inflated_from(codec::aes_cfb_decrypted(k, raw.skip(8))),
                    decompressed,
                ),
            },
        },
        Mode::Encrypted => match key {
            None => super::bad(Problem::NoDepotKey),
            Some(k) => Ok(codec::aes_cfb_decrypted(k, raw)),
        },
    }
}

/// Decode one stored block. `key` is required for the encrypted modes.
pub fn decode(mode: Mode, raw: &[u8], key: Option<&Key>) -> (r: Result<Vec<u8>>)
    ensures
        super::agree(r, decoded(mode, raw@, key_view(key))),
        r matches Ok(out) ==> keeps_length(mode) ==> out@.len() == raw@.len(),
{
    match mode {
        Mode::Plain => Ok(text::copy_bytes(raw)),
        Mode::Compressed => inflate(raw),
        Mode::CompressedEncrypted => {
            let k = match key {
                Some(k) => k,
                None => {
                    return Err(malformed(Problem::NoDepotKey));
                },
            };
            let decompressed = match read_header(raw) {
                Ok(v) => v,
                Err(e) => {
                    return Err(e);
                },
            };
            let body = slice_subrange(raw, 8, raw.len());
            assert(body@ =~= raw@.skip(8));
            let mut buf = text::copy_bytes(body);
            codec::aes_cfb_decrypt(k, &mut buf);
            match inflate(buf.as_slice()) {
                Err(e) => Err(e),
                Ok(out) => check_length(out, decompressed),
            }
        },
        Mode::Encrypted => match key {
            None => Err(malformed(Problem::NoDepotKey)),
            Some(k) => {
                let mut buf = text::copy_bytes(raw);
                codec::aes_cfb_decrypt(k, &mut buf);
                Ok(buf)
            },
        },
    }
}

/// Decode a block whose stored bytes we own. Plain and encrypted blocks
/// are the same length decoded, so they need no second buffer.
pub fn decode_owned(mode: Mode, raw: Vec<u8>, key: Option<&Key>) -> (r: Result<Vec<u8>>)
    ensures
        super::agree(r, decoded(mode, raw@, key_view(key))),
        r matches Ok(out) ==> keeps_length(mode) ==> out@.len() == raw@.len(),
{
    match mode {
        Mode::Plain => Ok(raw),
        Mode::Encrypted => match key {
            None => Err(malformed(Problem::NoDepotKey)),
            Some(k) => {
                let mut buf = raw;
                codec::aes_cfb_decrypt(k, &mut buf);
                Ok(buf)
            },
        },
        Mode::Compressed | Mode::CompressedEncrypted => decode(mode, raw.as_slice(), key),
    }
}

/// What the stored block `raw` decodes to, when its checksum is `expected`.
pub open spec fn decoded_verified(
    mode: Mode,
    raw: Seq<u8>,
    key: Option<Seq<u8>>,
    expected: u32,
) -> Outcome<Seq<u8>> {
    match decoded(mode, raw, key) {
        Err(e) => Err(e),
        Ok(out) => with_sum(out, block_sum(out), expected),
    }
}

/// Decode and check a block against its stored checksum in one step.
pub fn decode_verified(mode: Mode, raw: &[u8], key: Option<&Key>, expected: u32) -> (r: Result<
    Vec<u8>,
>)
    ensures
        super::agree(r, decoded_verified(mode, raw@, key_view(key), expected)),
        r matches Ok(out) ==> keeps_length(mode) ==> out@.len() == raw@.len(),
{
    match decode(mode, raw, key) {
        Err(e) => Err(e),
        Ok(out) => {
            let actual = checksum(out.as_slice());
            check_sum(out, actual, expected)
        },
    }
}

/// A compressed block that decodes is never longer than `BLOCK_SIZE`, nor than
/// its header says; a plain block is what is stored. No encrypted block decodes
/// without a key. (That an encrypted one keeps its stored length is what the
/// decoding functions say.)
pub proof fn law_decoded_length(mode: Mode, raw: Seq<u8>, key: Option<Seq<u8>>)
    ensures
        match decoded(mode, raw, key) {
            Err(_) => true,
            Ok(out) => match mode {
                Mode::Plain => out == raw,
                Mode::Encrypted => key is Some,
                Mode::Compressed => out.len() <= BLOCK_SIZE,
                Mode::CompressedEncrypted => out.len() <= BLOCK_SIZE && out.len() == super::le32(
                    raw,
                    4,
                ) && raw.len() == 8 + super::le32(raw, 0) && key is Some,
            },
        },
{
}

/// What passes the check has the checksum that was stored.
pub proof fn law_verified_block_has_its_checksum(
    mode: Mode,
    raw: Seq<u8>,
    key: Option<Seq<u8>>,
    expected: u32,
)
    ensures
        match decoded_verified(mode, raw, key, expected) {
            Ok(out) => block_sum(out) == expected && decoded(mode, raw, key) == Ok::<
                Seq<u8>,
                Fault,
            >(out),
            Err(_) => true,
        },
{
}

/// An encrypted block never decodes without a key.
pub proof fn law_encrypted_requires_key(mode: Mode, raw: Seq<u8>)
    requires
        mode.encrypted(),
    ensures
        decoded(mode, raw, None) == super::bad::<Seq<u8>>(Problem::NoDepotKey),
{
}

} // verus!
