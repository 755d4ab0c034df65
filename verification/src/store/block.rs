//! What one stored block of a file comes to: which key decrypts it, and
//! whether what it decodes to is what its record says.

use vstd::prelude::*;

use super::error::{Outcome, ReadError, ReadFault, Result};
use crate::format::checksums::{FileRecord, FileView, Mode};
use crate::format::chunk;
use crate::format::chunk::Key;
use crate::format::BLOCK_SIZE;
use crate::keys;
use crate::keys::{KeyStore, KeysView};

verus! {

/// Outcome of resolving the key for one blob.
#[derive(Debug, Clone, Copy, PartialEq, Eq)]
pub enum KeyResolution {
    /// The configured key for the depot (or a blob-specific override) works.
    Configured(Key),
    /// Found by trying every known key; the u32 is the depot it belongs to.
    Discovered(Key, u32),
    /// Nothing decrypts this blob's data.
    Nothing { tried: usize },
}

/// One raw encrypted block with its mode and stored checksum.
pub struct Sample {
    pub mode: Mode,
    pub raw: Seq<u8>,
    pub expected: u32,
}

/// A key decrypts a sample to what its checksum says.
pub open spec fn works(s: Sample, k: Key) -> bool {
    chunk::decoded_verified(s.mode, s.raw, Some(k@), s.expected) is Ok
}

/// The first key from `i` on that decrypts a sample.
pub open spec fn first_working(candidates: Seq<(Seq<char>, Key)>, i: int, s: Sample) -> Option<int>
    decreases candidates.len() - i,
{
    if i >= candidates.len() {
        None
    } else if works(s, candidates[i].1) {
        Some(i)
    } else {
        first_working(candidates, i + 1, s)
    }
}

/// Which key decrypts the data of a blob, tested on a sample: the configured
/// one; where that fails and a search is wanted, the first known key that
/// does.
pub open spec fn resolution(known: KeysView, search: bool, depot: u32, crc: u32, s: Sample)
    -> KeyResolution {
    let configured = known.get_for_blob(depot, crc);
    if configured is Some && works(s, configured->0) {
        KeyResolution::Configured(configured->0)
    } else if search {
        match first_working(known.candidates(), 0, s) {
            Some(i) => KeyResolution::Discovered(
                known.candidates()[i].1,
                keys::label_depot(known.candidates()[i].0),
            ),
            None => KeyResolution::Nothing { tried: known.candidates().len() as usize },
        }
    } else {
        KeyResolution::Nothing { tried: 0 }
    }
}

fn try_key(mode: Mode, raw: &[u8], expected: u32, k: &Key) -> (r: bool)
    ensures
        r == works(Sample { mode, raw: raw@, expected }, *k),
{
    match chunk::decode_verified(mode, raw, Some(k), expected) {
        Ok(_) => true,
        Err(_) => false,
    }
}

/// Find the key that decrypts a sample of a blob's data.
pub fn resolve(
    known: &KeyStore,
    search: bool,
    depot: u32,
    crc: u32,
    mode: Mode,
    raw: &[u8],
    expected: u32,
) -> (r: KeyResolution)
    requires
        known.wf(),
    ensures
        r == resolution(known@, search, depot, crc, Sample { mode, raw: raw@, expected }),
{
    let ghost s = Sample { mode, raw: raw@, expected };
    match known.get_for_blob(depot, crc) {
        Some(k) => {
            if try_key(mode, raw, expected, &k) {
                return KeyResolution::Configured(k);
            }
        },
        None => {},
    }
    if !search {
        return KeyResolution::Nothing { tried: 0 };
    }
    let candidates = known.candidates();
    let ghost all = known@.candidates();
    let mut i: usize = 0;
    while i < candidates.len()
        invariant
            i <= candidates@.len(),
            all == known@.candidates(),
            candidates@.len() == all.len(),
            forall|j: int|
                0 <= j < all.len() ==> (#[trigger] candidates@[j]).0@ == all[j].0
                    && candidates@[j].1 == all[j].1,
            s == (Sample { mode, raw: raw@, expected }),
            first_working(all, 0, s) == first_working(all, i as int, s),
            resolution(known@, search, depot, crc, s) == match first_working(all, 0, s) {
                Some(i) => KeyResolution::Discovered(all[i].1, keys::label_depot(all[i].0)),
                None => KeyResolution::Nothing { tried: all.len() as usize },
            },
        decreases candidates@.len() - i,
    {
        assert(candidates@[i as int].1 == all[i as int].1);
        if try_key(mode, raw, expected, &candidates[i].1) {
            return KeyResolution::Discovered(
                candidates[i].1,
                keys::depot_of_label(candidates[i].0.as_str()),
            );
        }
        i += 1;
    }
    KeyResolution::Nothing { tried: candidates.len() }
}

/// A resolution names a key that is known and decrypts the sample; a search
/// that fails has tried every known key.
pub proof fn law_resolution(known: KeysView, search: bool, depot: u32, crc: u32, s: Sample)
    ensures
        match resolution(known, search, depot, crc, s) {
            KeyResolution::Configured(k) => known.get_for_blob(depot, crc) == Some(k) && works(
                s,
                k,
            ),
            KeyResolution::Discovered(k, _) => search && works(s, k) && exists|i: int|
                0 <= i < known.candidates().len() && (#[trigger] known.candidates()[i]).1 == k,
            KeyResolution::Nothing { .. } => (known.get_for_blob(depot, crc) matches Some(k) ==> !works(
                s,
                k,
            )) && (search ==> forall|i: int|
                0 <= i < known.candidates().len() ==> !works(
                    s,
                    (#[trigger] known.candidates()[i]).1,
                )),
        },
{
    lemma_first_working(known.candidates(), 0, s);
}

proof fn lemma_first_working(c: Seq<(Seq<char>, Key)>, i: int, s: Sample)
    requires
        0 <= i,
    ensures
        match first_working(c, i, s) {
            Some(k) => i <= k < c.len() && works(s, c[k].1),
            None => forall|j: int| i <= j < c.len() ==> !works(s, (#[trigger] c[j]).1),
        },
    decreases c.len() - i,
{
    if i < c.len() && !works(s, c[i].1) {
        lemma_first_working(c, i + 1, s);
    }
}

/// The key that a resolution gives, or why there is none.
pub open spec fn key_from(r: KeyResolution, depot: u32, crc: u32) -> Outcome<Seq<u8>> {
    match r {
        KeyResolution::Configured(k) => Ok(k@),
        KeyResolution::Discovered(k, _) => Ok(k@),
        KeyResolution::Nothing { tried } => if tried == 0 {
            Err(ReadFault::NoKey(depot))
        } else {
            Err(ReadFault::NoWorkingKey { depot, crc, tried })
        },
    }
}

/// The key that a resolution gives, or why there is none.
pub fn take_key(r: KeyResolution, depot: u32, crc: u32) -> (k: Result<Key>)
    ensures
        match k {
            Ok(k) => key_from(r, depot, crc) == Ok::<Seq<u8>, ReadFault>(k@),
            Err(e) => key_from(r, depot, crc) == Err::<Seq<u8>, ReadFault>(e@),
        },
{
    match r {
        KeyResolution::Configured(k) => Ok(k),
        KeyResolution::Discovered(k, _) => Ok(k),
        KeyResolution::Nothing { tried } => {
            if tried == 0 {
                Err(ReadError::NoKey(depot))
            } else {
                Err(ReadError::NoWorkingKey { depot, crc, tried })
            }
        },
    }
}

/// Hold a decoded block of a record against its checksum, which is `actual`,
/// where that is wanted, and against the record's size. The block table and
/// the file size have to agree, or a read would have to paper over a hole
/// with silently truncated data.
pub open spec fn checked_block(rec: FileView, i: int, out: Seq<u8>, actual: u32, verify: bool)
    -> Outcome<Seq<u8>> {
    let expected = rec.blocks[i].checksum;
    let (start, end) = rec.range(i);
    if verify && actual != expected {
        Err(ReadFault::Checksum { file_id: rec.file_id, block: i as u64, expected, actual })
    } else if out.len() != end - start {
        Err(
            ReadFault::BlockSize {
                file_id: rec.file_id,
                block: i as u64,
                want: if start <= end {
                    (end - start) as u64
                } else {
                    0
                },
                got: out.len() as u64,
            },
        )
    } else {
        Ok(out)
    }
}

/// Hold a decoded block of a record against its checksum and its size.
pub fn check_block(rec: &FileRecord, i: u64, out: Vec<u8>, actual: u32, verify: bool) -> (r: Result<
    Vec<u8>,
>)
    requires
        i < rec@.blocks.len(),
    ensures
        match r {
            Ok(v) => checked_block(rec@, i as int, out@, actual, verify) == Ok::<
                Seq<u8>,
                ReadFault,
            >(v@),
            Err(e) => checked_block(rec@, i as int, out@, actual, verify) == Err::<
                Seq<u8>,
                ReadFault,
            >(e@),
        },
{
    assert(rec.blocks.len() == rec@.blocks.len());
    let expected: u32 = rec.blocks[i as usize].checksum;
    if verify && actual != expected {
        return Err(ReadError::Checksum { file_id: rec.file_id, block: i, expected, actual });
    }
    let start: u128 = i as u128 * BLOCK_SIZE as u128;
    let full: u128 = start + BLOCK_SIZE as u128;
    let end: u128 = if full <= rec.size as u128 {
        full
    } else {
        rec.size as u128
    };
    let want: u64 = if start <= end {
        (end - start) as u64
    } else {
        0
    };
    if start > end || out.len() as u64 != want {
        return Err(
            ReadError::BlockSize { file_id: rec.file_id, block: i, want, got: out.len() as u64 },
        );
    }
    Ok(out)
}

/// What block `i` of a record comes to, from its stored bytes and its key.
pub open spec fn decoded_block(
    rec: FileView,
    i: int,
    raw: Seq<u8>,
    key: Option<Seq<u8>>,
    verify: bool,
) -> Outcome<Seq<u8>> {
    match chunk::decoded(rec.mode, raw, key) {
        Err(f) => Err(ReadFault::Format(f)),
        Ok(out) => checked_block(rec, i, out, chunk::block_sum(out), verify),
    }
}

/// Decode block `i` of a record from its stored bytes and its key.
pub fn decode_block(rec: &FileRecord, i: u64, raw: Vec<u8>, key: Option<&Key>, verify: bool) -> (r:
    Result<Vec<u8>>)
    requires
        i < rec@.blocks.len(),
    ensures
        match r {
            Ok(v) => decoded_block(rec@, i as int, raw@, chunk::key_view(key), verify) == Ok::<
                Seq<u8>,
                ReadFault,
            >(v@),
            Err(e) => decoded_block(rec@, i as int, raw@, chunk::key_view(key), verify) == Err::<
                Seq<u8>,
                ReadFault,
            >(e@),
        },
{
    match chunk::decode_owned(rec.mode, raw, key) {
        Err(e) => Err(ReadError::Format(e)),
        Ok(out) => {
            // The sum is only worth its time where it is looked at.
            let actual: u32 = if verify {
                chunk::checksum(out.as_slice())
            } else {
                0
            };
            check_block(rec, i, out, actual, verify)
        },
    }
}

/// What block `i` of a record comes to, once its stored bytes, `want` of
/// them, have been read and the key of its blob has been resolved.
pub open spec fn block_bytes(
    rec: FileView,
    i: int,
    want: u64,
    raw: Seq<u8>,
    resolved: KeyResolution,
    depot: u32,
    crc: u32,
    verify: bool,
) -> Outcome<Seq<u8>> {
    if raw.len() != want {
        Err(
            ReadFault::ShortRead {
                file_id: rec.file_id,
                block: i as u64,
                want,
                got: raw.len() as u64,
            },
        )
    } else if rec.mode.encrypted() {
        match key_from(resolved, depot, crc) {
            Err(e) => Err(e),
            Ok(k) => decoded_block(rec, i, raw, Some(k), verify),
        }
    } else {
        decoded_block(rec, i, raw, None, verify)
    }
}

/// A block that is served has the length that the record gives it, and, where
/// that is checked, the stored checksum.
pub proof fn law_served_block(
    rec: FileView,
    i: int,
    want: u64,
    raw: Seq<u8>,
    resolved: KeyResolution,
    depot: u32,
    crc: u32,
    verify: bool,
)
    ensures
        match block_bytes(rec, i, want, raw, resolved, depot, crc, verify) {
            Ok(out) => {
                &&& raw.len() == want
                &&& out.len() == rec.range(i).1 - rec.range(i).0
                &&& verify ==> chunk::block_sum(out) == rec.blocks[i].checksum
                &&& rec.mode == Mode::Plain ==> out == raw
            },
            Err(_) => true,
        },
{
}

} // verus!
