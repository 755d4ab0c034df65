//! Well-known top-level keys of a `<depot>_<version>_<crc>_<sha>.blob` file.

use vstd::prelude::*;

verus! {

/// u32 format code: 3 (u32 dat size) or 4 (u64 dat size).
pub const FORMAT: u32 = 0;

/// NUL-terminated version string.
pub const VERSION_STRING: u32 = 1;

/// u32, equals the manifest header's fingerprint.
pub const MANIFEST_FINGERPRINT: u32 = 2;

/// Compressed blob whose key 0 holds the binary manifest.
pub const MANIFEST: u32 = 3;

/// Raw checksum / file-id table.
pub const CHECKSUMS: u32 = 4;

/// Nested blob: key N -> file ids to fetch when updating from version N
/// (a changed file gets a new file id, so this is "ids newer than N").
pub const ADDED_SINCE: u32 = 5;

/// Nested blob: key N -> file ids present in version N that are gone now.
pub const REMOVED_SINCE: u32 = 6;

/// u32 CRC of the paired dat file (third filename component).
pub const DAT_CRC: u32 = 7;

/// 128-byte signature.
pub const SIGNATURE: u32 = 9;

/// u32 crc32 of this whole blob file with this value zeroed (third
/// filename component).
pub const OWN_CRC: u32 = 10;

/// u32 previous version number, 0xffffffff for a root.
pub const PREV_VERSION: u32 = 11;

/// u32 CRC of the previous blob, 0 for a root.
pub const PREV_CRC: u32 = 12;

/// dat size: u32 when FORMAT == 3, u64 when FORMAT == 4.
pub const DAT_SIZE: u32 = 13;

} // verus!
