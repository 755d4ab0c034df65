//! Where the bytes of each file are, as seen from a version.

use std::collections::HashMap;
use std::sync::Arc;
use vstd::prelude::*;

use super::contents::{ParsedBlob, ParsedView};
use super::error::{ReadError, ReadFault};
use crate::format::checksums;
use crate::format::checksums::{Block, FileRecord, FileView};
use crate::index::{BlobId, DatId, IndexView};

verus! {

broadcast use vstd::std_specs::hash::group_hash_axioms;

/// Where one file id's bytes live, as seen from some version.
pub struct FileLoc {
    /// The blob whose dat holds the data (the version that last changed it).
    pub source: BlobId,
    pub dat: Option<DatId>,
    pub record: FileRecord,
    /// Absolute dat offset of each block; `offsets[i+1]` is the end of block `i`.
    pub offsets: Vec<u64>,
}

/// A `FileLoc`, as the contracts see it.
#[verifier::ext_equal]
pub struct LocView {
    pub source: BlobId,
    pub dat: Option<DatId>,
    pub record: FileView,
    pub offsets: Seq<u64>,
}

impl View for FileLoc {
    type V = LocView;

    open spec fn view(&self) -> LocView {
        LocView {
            source: self.source,
            dat: self.dat,
            record: self.record@,
            offsets: self.offsets@,
        }
    }
}

/// The bytes that the first `n` blocks take in the dat.
pub open spec fn stored_before(blocks: Seq<Block>, n: int) -> nat
    decreases n,
{
    if n <= 0 {
        0
    } else {
        stored_before(blocks, n - 1) + blocks[n - 1].compressed_size as nat
    }
}

/// Where block `i` of a record begins in the dat; past what 64 bits can
/// tell, the greatest offset stands for all.
pub open spec fn block_offset(r: FileView, i: int) -> u64 {
    let at = r.offset + stored_before(r.blocks, i);
    if at <= u64::MAX {
        at as u64
    } else {
        u64::MAX
    }
}

/// Where each block of a record begins, and where the last one ends.
pub open spec fn offsets_of(r: FileView) -> Seq<u64> {
    Seq::new(r.blocks.len() + 1, |i: int| block_offset(r, i))
}

impl LocView {
    /// The stored byte range of block `i` in the dat.
    pub open spec fn span(self, i: int) -> (u64, u64) {
        (self.offsets[i], self.offsets[i + 1])
    }

    pub open spec fn no_such_block(self, i: int) -> ReadFault {
        ReadFault::NoSuchBlock {
            file_id: self.record.file_id,
            block: i as u64,
            blocks: self.record.blocks.len() as u64,
        }
    }

    /// The offsets are those of the record, and the blob and the dat exist.
    pub open spec fn fits(self, v: IndexView) -> bool {
        &&& v.has_blob(self.source)
        &&& (self.dat matches Some(d) ==> v.has_dat(d))
        &&& self.offsets == offsets_of(self.record)
    }
}

pub proof fn lemma_offsets_grow(r: FileView, i: int)
    requires
        0 <= i < r.blocks.len(),
    ensures
        block_offset(r, i) <= block_offset(r, i + 1),
        block_offset(r, i + 1) - block_offset(r, i) <= r.blocks[i].compressed_size,
{
}

/// The location of a record of blob `id`.
pub open spec fn loc_of(v: IndexView, id: BlobId, p: ParsedView, r: FileView) -> LocView {
    let b = v.blob(id);
    LocView {
        source: id,
        dat: v.find_dat(b.depot, b.version, p.meta.dat_crc),
        record: r,
        offsets: offsets_of(r),
    }
}

/// The last record for a file id.
pub open spec fn last_record(records: Seq<FileView>, file_id: u32) -> Option<FileView>
    decreases records.len(),
{
    if records.len() == 0 {
        None
    } else if records.last().file_id == file_id {
        Some(records.last())
    } else {
        last_record(records.drop_last(), file_id)
    }
}

impl FileLoc {
    /// Stored byte range of block `i` in the dat.
    pub fn block_span(&self, i: u64) -> (r: Option<(u64, u64)>)
        ensures
            match r {
                Some(s) => i + 1 < self@.offsets.len() && s == self@.span(i as int),
                None => i + 1 >= self@.offsets.len(),
            },
    {
        let n: u64 = self.offsets.len() as u64;
        if n >= 1 && i < n - 1 {
            Some((self.offsets[i as usize], self.offsets[i as usize + 1]))
        } else {
            None
        }
    }

    pub fn no_such_block(&self, i: u64) -> (r: ReadError)
        ensures
            r@ == self@.no_such_block(i as int),
    {
        ReadError::NoSuchBlock {
            file_id: self.record.file_id,
            block: i,
            blocks: self.record.num_blocks() as u64,
        }
    }

    /// The location of a record.
    fn of(source: BlobId, dat: Option<DatId>, record: &FileRecord) -> (r: FileLoc)
        ensures
            r@.source == source,
            r@.dat == dat,
            r@.record == record@,
            r@.offsets == offsets_of(record@),
    {
        let mut offsets: Vec<u64> = Vec::new();
        let mut off: u64 = record.offset;
        offsets.push(off);
        let mut i: usize = 0;
        let ghost v = record@;
        while i < record.blocks.len()
            invariant
                v == record@,
                i <= record.blocks@.len(),
                offsets@.len() == i + 1,
                off == block_offset(v, i as int),
                forall|k: int| 0 <= k <= i ==> offsets@[k] == block_offset(v, k),
            decreases record.blocks@.len() - i,
        {
            off = off.saturating_add(record.blocks[i].compressed_size as u64);
            offsets.push(off);
            i += 1;
        }
        assert(offsets@ =~= offsets_of(v));
        FileLoc { source, dat, record: record.copy(), offsets }
    }
}

/// A version's file table, stored as the records that version introduced
/// layered over its parent's table. Building it costs only this version's
/// records, and two versions of a depot share everything they inherit.
pub struct FileTable {
    /// The version.
    pub blob: BlobId,
    /// Records this version introduced, by file id.
    pub own: HashMap<u32, Arc<FileLoc>>,
    /// The parent version's table; a table is built on one that exists, so
    /// lookups always terminate.
    pub parent: Option<Arc<FileTable>>,
}

impl FileTable {
    /// Where a file is, as this version sees it.
    pub open spec fn find(&self, file_id: u32) -> Option<Arc<FileLoc>>
        decreases self,
    {
        if self.own@.contains_key(file_id) {
            Some(self.own@[file_id])
        } else {
            match self.parent {
                Some(p) => p.find(file_id),
                None => None,
            }
        }
    }

    /// The versions that the table is layered from, the oldest first.
    pub open spec fn layers(&self) -> Seq<BlobId>
        decreases self,
    {
        match self.parent {
            Some(p) => p.layers().push(self.blob),
            None => seq![self.blob],
        }
    }

    pub fn get(&self, file_id: u32) -> (r: Option<&Arc<FileLoc>>)
        ensures
            match r {
                Some(l) => self.find(file_id) == Some(*l),
                None => self.find(file_id) is None,
            },
    {
        let mut cur: &FileTable = self;
        loop
            invariant
                self.find(file_id) == cur.find(file_id),
            decreases *cur,
        {
            match cur.own.get(&file_id) {
                Some(l) => {
                    return Some(l);
                },
                None => {},
            }
            match &cur.parent {
                Some(p) => {
                    cur = &**p;
                },
                None => {
                    return None;
                },
            }
        }
    }

    pub fn contains(&self, file_id: u32) -> (r: bool)
        ensures
            r == self.find(file_id) is Some,
    {
        match self.get(file_id) {
            Some(_) => true,
            None => false,
        }
    }

    /// `own` holds the records that blob `id` introduced.
    pub open spec fn holds(&self, v: IndexView, p: ParsedView) -> bool {
        forall|f: u32| #[trigger] self.holds_file(v, p, f)
    }

    pub open spec fn holds_file(&self, v: IndexView, p: ParsedView, f: u32) -> bool {
        match last_record(p.records, f) {
            Some(r) => self.own@.contains_key(f) && self.own@[f]@ == loc_of(v, self.blob, p, r),
            None => !self.own@.contains_key(f),
        }
    }

    /// One layer: the records blob `id` introduced, over `parent`.
    pub(crate) fn layer(
        id: BlobId,
        dat: Option<DatId>,
        parsed: &ParsedBlob,
        parent: Option<Arc<FileTable>>,
        Ghost(v): Ghost<IndexView>,
    ) -> (r: FileTable)
        requires
            dat == v.find_dat(v.blob(id).depot, v.blob(id).version, parsed@.meta.dat_crc),
        ensures
            r.blob == id,
            r.parent == parent,
            r.holds(v, parsed@),
    {
        let mut own: HashMap<u32, Arc<FileLoc>> = HashMap::new();
        let mut i: usize = 0;
        let ghost p = parsed@;
        let ghost records = p.records;
        assert(records.take(0) =~= Seq::<FileView>::empty());
        while i < parsed.records.len()
            invariant
                p == parsed@,
                records == p.records,
                records == checksums::file_views(parsed.records@),
                i <= parsed.records@.len(),
                dat == v.find_dat(v.blob(id).depot, v.blob(id).version, p.meta.dat_crc),
                forall|f: u32|
                    #![trigger own@.contains_key(f)]
                    match last_record(records.take(i as int), f) {
                        Some(r) => own@.contains_key(f) && own@[f]@ == loc_of(v, id, p, r),
                        None => !own@.contains_key(f),
                    },
            decreases parsed.records@.len() - i,
        {
            let record = &parsed.records[i];
            let ghost before = own@;
            let loc = FileLoc::of(id, dat, record);
            proof {
                assert(records[i as int] == record@);
                assert(records.take(i + 1).drop_last() =~= records.take(i as int));
                assert(records.take(i + 1).last() == record@);
                assert(loc@ =~= loc_of(v, id, p, record@));
            }
            let _ = own.insert(record.file_id, Arc::new(loc));
            proof {
                assert forall|f: u32|
                    #![trigger own@.contains_key(f)]
                    match last_record(records.take(i + 1), f) {
                        Some(r) => own@.contains_key(f) && own@[f]@ == loc_of(v, id, p, r),
                        None => !own@.contains_key(f),
                    } by {
                    assert(before.contains_key(f) == before.contains_key(f));
                }
            }
            i += 1;
        }
        let t = FileTable { blob: id, own, parent };
        proof {
            assert(records.take(i as int) =~= records);
            assert forall|f: u32| #[trigger] t.holds_file(v, p, f) by {
                assert(own@.contains_key(f) == own@.contains_key(f));
            }
        }
        t
    }
}

/// A table sees its own records first, and its parent's where it has none.
pub proof fn law_layers(t: &FileTable, v: IndexView, p: ParsedView, file_id: u32)
    requires
        t.holds(v, p),
    ensures
        match last_record(p.records, file_id) {
            Some(r) => t.find(file_id) matches Some(l) && l@ == loc_of(v, t.blob, p, r),
            None => t.find(file_id) == match t.parent {
                Some(parent) => parent.find(file_id),
                None => None,
            },
        },
{
    assert(t.holds_file(v, p, file_id));
}

} // verus!
