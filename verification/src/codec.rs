//! The decoders and digests that the formats are built on, each with what is
//! known of it.

use aes::cipher::{AsyncStreamCipher, KeyIvInit};
use sha2::Digest;
use std::io::Read;
use vstd::prelude::*;

use crate::text;

verus! {

/// The Adler-32 sum of `data`, continued from `seed`.
pub uninterp spec fn adler32(seed: u32, data: Seq<u8>) -> u32;

/// `adler2::Adler32`: `from_checksum`, `write_slice` and `checksum` in a row.
/// A sum that was begun at 0 can be continued from its value, as the crate
/// documents of `from_checksum`.
#[verifier::external_body]
pub(crate) fn adler32_from(seed: u32, data: &[u8]) -> (r: u32)
    ensures
        r == adler32(seed, data@),
        forall|before: Seq<u8>|
            seed == #[trigger] adler32(0, before) ==> r == adler32(0, before + data@),
{
    let mut a = adler2::Adler32::from_checksum(seed);
    a.write_slice(data);
    a.checksum()
}

/// The CRC-32 of `data`, continued from `seed`.
pub uninterp spec fn crc32(seed: u32, data: Seq<u8>) -> u32;

/// `crc32fast::Hasher`: `new_with_initial`, `update` and `finalize` in a row,
/// which is `crc32fast::hash` where `seed` is 0. A sum that was begun at 0
/// can be continued from its value.
#[verifier::external_body]
pub(crate) fn crc32_from(seed: u32, data: &[u8]) -> (r: u32)
    ensures
        r == crc32(seed, data@),
        forall|before: Seq<u8>|
            seed == #[trigger] crc32(0, before) ==> r == crc32(0, before + data@),
{
    let mut h = crc32fast::Hasher::new_with_initial(seed);
    h.update(data);
    h.finalize()
}

/// What the zlib stream at the start of `z` inflates to, read no further than
/// `limit` bytes; or the decoder's message, when it fails before that.
pub uninterp spec fn zlib_output(z: Seq<u8>, limit: u64) -> Result<Seq<u8>, Seq<char>>;

/// `flate2::read::ZlibDecoder`, read to its end or to `limit` bytes.
#[verifier::external_body]
pub(crate) fn zlib_read(z: &[u8], limit: u64) -> (r: Result<Vec<u8>, String>)
    ensures
        match r {
            Ok(v) => zlib_output(z@, limit) == Ok::<Seq<u8>, Seq<char>>(v@) && v@.len() <= limit,
            Err(e) => zlib_output(z@, limit) == Err::<Seq<u8>, Seq<char>>(e@),
        },
{
    let mut out: Vec<u8> = Vec::new();
    match flate2::read::ZlibDecoder::new(z).take(limit).read_to_end(&mut out) {
        Ok(_) => Ok(out),
        Err(e) => Err(e.to_string()),
    }
}

/// What AES-128 in CFB mode, from a zero vector, decrypts `data` to.
pub uninterp spec fn aes_cfb_decrypted(key: Seq<u8>, data: Seq<u8>) -> Seq<u8>;

/// `cfb_mode::Decryptor<aes::Aes128>::decrypt` with a zero vector, in place:
/// the length stays.
#[verifier::external_body]
pub(crate) fn aes_cfb_decrypt(key: &[u8; 16], buf: &mut Vec<u8>)
    ensures
        final(buf)@ == aes_cfb_decrypted(key@, old(buf)@),
        final(buf)@.len() == old(buf)@.len(),
{
    cfb_mode::Decryptor::<aes::Aes128>::new(key.into(), &[0u8; 16].into()).decrypt(buf);
}

/// The SHA-256 digest of `data`.
pub uninterp spec fn sha256(data: Seq<u8>) -> Seq<u8>;

/// `sha2::Sha256::digest`: 32 bytes.
#[verifier::external_body]
pub(crate) fn sha256_of(data: &[u8]) -> (r: Vec<u8>)
    ensures
        r@ == sha256(data@),
        r@.len() == 32,
{
    sha2::Sha256::digest(data).to_vec()
}

/// Two lower-case hexadecimal digits for each byte.
pub open spec fn hex_text(b: Seq<u8>) -> Seq<char> {
    Seq::new(
        2 * b.len(),
        |i: int|
            text::digit_char(
                if i % 2 == 0 {
                    b[i / 2] as nat / 16
                } else {
                    b[i / 2] as nat % 16
                },
            ),
    )
}

/// `hex::encode`.
#[verifier::external_body]
pub(crate) fn hex_encode(b: &[u8]) -> (r: String)
    ensures
        r@ == hex_text(b@),
{
    hex::encode(b)
}

/// Why some text is not hexadecimal.
#[derive(Debug, Clone, Copy, PartialEq, Eq, Structural)]
pub enum HexError {
    OddLength,
    InvalidLength,
    InvalidCharacter { byte: u8, index: usize },
}

/// The value of a hexadecimal digit, in either case.
pub open spec fn nibble(b: u8) -> Option<nat> {
    text::digit_value(b as char, 16)
}

/// `i` is the first byte of `s` that is no hexadecimal digit.
pub open spec fn first_bad_digit(s: Seq<u8>, i: int) -> bool {
    &&& 0 <= i < s.len()
    &&& nibble(s[i]) is None
    &&& forall|j: int| 0 <= j < i ==> (#[trigger] nibble(s[j])) is Some
}

/// What pairs of hexadecimal digits spell.
pub open spec fn hex_bytes(s: Seq<u8>) -> Seq<u8> {
    Seq::new(s.len() / 2, |i: int| (16 * nibble(s[2 * i])->0 + nibble(s[2 * i + 1])->0) as u8)
}

/// `hex::decode`: digits of either case, an even number of them.
#[verifier::external_body]
pub(crate) fn hex_decode(s: &[u8]) -> (r: Result<Vec<u8>, HexError>)
    ensures
        match r {
            Ok(v) => {
                &&& s@.len() % 2 == 0
                &&& forall|i: int| 0 <= i < s@.len() ==> (#[trigger] nibble(s@[i])) is Some
                &&& v@ == hex_bytes(s@)
            },
            Err(HexError::OddLength) => s@.len() % 2 != 0,
            Err(HexError::InvalidLength) => false,
            Err(HexError::InvalidCharacter { byte, index }) => {
                &&& s@.len() % 2 == 0
                &&& first_bad_digit(s@, index as int)
                &&& byte == s@[index as int]
            },
        },
{
    match hex::decode(s) {
        Ok(v) => Ok(v),
        Err(hex::FromHexError::OddLength) => Err(HexError::OddLength),
        Err(hex::FromHexError::InvalidStringLength) => Err(HexError::InvalidLength),
        Err(hex::FromHexError::InvalidHexCharacter { c, index }) => Err(
            HexError::InvalidCharacter { byte: c as u8, index },
        ),
    }
}

} // verus!
