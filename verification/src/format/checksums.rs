//! The per-version checksum / file-id table (blob key 4).
//!
//! ```text
//! header (0x20 bytes, 8 x u32):
//!   magic 0x34457234, version (0|1), num_fileblocks, num_items,
//!   offset1 (=0x20), offset2 (=0x20 + 0x10*num_fileblocks), blocksize (0x8000),
//!   largest_num_blocks
//! fileblock table (0x10 bytes each): fileid_start, filecount, offset, unused
//! per file (in fileblock order):
//!   v0: u32 size, u32 offset, u32 mode<<24 | num_blocks
//!   v1: u64 size, u64 offset, u32 mode<<24 | num_blocks
//!   then num_blocks x (u32 compressed_size, u32 checksum)
//! footer: u32 magic
//! ```
//!
//! Every file listed here is stored, whole, in this version's dat at
//! `offset`, as consecutive blocks of `BLOCK_SIZE` decompressed bytes.

use vstd::prelude::*;

use super::{malformed, u32_at, u64_at, words_at, Fault, Outcome, Problem, Result, BLOCK_SIZE};

verus! {

pub const MAGIC: u32 = 0x3445_7234;

/// How a file's blocks are stored.
#[derive(Debug, Clone, Copy, PartialEq, Eq, Structural)]
pub enum Mode {
    Plain,
    Compressed,
    CompressedEncrypted,
    Encrypted,
}

impl Mode {
    /// The mode with the number `v`.
    pub open spec fn of(v: nat) -> Option<Mode> {
        if v == 0 {
            Some(Mode::Plain)
        } else if v == 1 {
            Some(Mode::Compressed)
        } else if v == 2 {
            Some(Mode::CompressedEncrypted)
        } else if v == 3 {
            Some(Mode::Encrypted)
        } else {
            None
        }
    }

    pub open spec fn encrypted(self) -> bool {
        self == Mode::CompressedEncrypted || self == Mode::Encrypted
    }

    pub fn from_u32(v: u32) -> (r: Option<Mode>)
        ensures
            r == Mode::of(v as nat),
    {
        if v == 0 {
            Some(Mode::Plain)
        } else if v == 1 {
            Some(Mode::Compressed)
        } else if v == 2 {
            Some(Mode::CompressedEncrypted)
        } else if v == 3 {
            Some(Mode::Encrypted)
        } else {
            None
        }
    }

    pub fn is_encrypted(self) -> (r: bool)
        ensures
            r == self.encrypted(),
    {
        match self {
            Mode::CompressedEncrypted | Mode::Encrypted => true,
            Mode::Plain | Mode::Compressed => false,
        }
    }
}

/// One stored block.
#[derive(Debug, Clone, Copy, PartialEq, Eq, Structural)]
pub struct Block {
    pub compressed_size: u32,
    pub checksum: u32,
}

/// One file of the table.
#[derive(Debug)]
pub struct FileRecord {
    pub file_id: u32,
    pub mode: Mode,
    /// Byte offset of the first block in the dat.
    pub offset: u64,
    /// Decompressed size.
    pub size: u64,
    pub blocks: Vec<Block>,
}

/// A `FileRecord` as the contracts see it.
#[verifier::ext_equal]
pub struct FileView {
    pub file_id: u32,
    pub mode: Mode,
    pub offset: u64,
    pub size: u64,
    pub blocks: Seq<Block>,
}

impl View for FileRecord {
    type V = FileView;

    open spec fn view(&self) -> FileView {
        FileView {
            file_id: self.file_id,
            mode: self.mode,
            offset: self.offset,
            size: self.size,
            blocks: self.blocks@,
        }
    }
}

impl FileView {
    /// Where the decompressed bytes of block `i` begin and end.
    pub open spec fn range(self, i: int) -> (int, int) {
        let start = i * BLOCK_SIZE;
        let end = start + BLOCK_SIZE;
        (
            start,
            if end <= self.size {
                end
            } else {
                self.size as int
            },
        )
    }
}

impl FileRecord {
    pub fn num_blocks(&self) -> (r: usize)
        ensures
            r == self@.blocks.len(),
    {
        self.blocks.len()
    }

    /// Decompressed byte range covered by block `i`.
    pub fn block_range(&self, i: u64) -> (r: (u64, u64))
        requires
            (i + 1) * BLOCK_SIZE <= u64::MAX,
        ensures
            (r.0 as int, r.1 as int) == self@.range(i as int),
    {
        let start: u64 = i * BLOCK_SIZE;
        let end: u64 = start + BLOCK_SIZE;
        (
            start,
            if end <= self.size {
                end
            } else {
                self.size
            },
        )
    }

    /// A copy of the record.
    pub fn copy(&self) -> (r: FileRecord)
        ensures
            r@ == self@,
    {
        let mut blocks: Vec<Block> = Vec::new();
        blocks.extend_from_slice(self.blocks.as_slice());
        assert(blocks@ =~= self.blocks@);
        FileRecord {
            file_id: self.file_id,
            mode: self.mode,
            offset: self.offset,
            size: self.size,
            blocks,
        }
    }
}

/// The records of a table, as the contracts see them.
pub open spec fn file_views(v: Seq<FileRecord>) -> Seq<FileView> {
    v.map_values(|r: FileRecord| r@)
}

// ---- the layout -----------------------------------------------------------

/// The `n` block entries at `pos`.
pub open spec fn blocks_at(t: Seq<u8>, pos: int, n: nat) -> Outcome<Seq<Block>> {
    if pos + 8 * n <= t.len() || n == 0 {
        Ok(
            Seq::new(
                n,
                |i: int|
                    Block {
                        compressed_size: super::le32(t, pos + 8 * i) as u32,
                        checksum: super::le32(t, pos + 8 * i + 4) as u32,
                    },
            ),
        )
    } else {
        super::bad(Problem::TruncatedU32(super::first_missing(t.len(), pos) as u64))
    }
}

/// The size, the offset and the packed word that begin a file's entry, and
/// where they end.
pub open spec fn head_at(t: Seq<u8>, version: u32, pos: int) -> Outcome<(u64, u64, u32, int)> {
    if version == 0 {
        match (super::u32_of(t, pos), super::u32_of(t, pos + 4), super::u32_of(t, pos + 8)) {
            (Err(e), _, _) => Err(e),
            (_, Err(e), _) => Err(e),
            (_, _, Err(e)) => Err(e),
            (Ok(size), Ok(offset), Ok(packed)) => Ok(
                (size as u64, offset as u64, packed, pos + 12),
            ),
        }
    } else {
        match (super::u64_of(t, pos), super::u64_of(t, pos + 8), super::u32_of(t, pos + 16)) {
            (Err(e), _, _) => Err(e),
            (_, Err(e), _) => Err(e),
            (_, _, Err(e)) => Err(e),
            (Ok(size), Ok(offset), Ok(packed)) => Ok((size, offset, packed, pos + 20)),
        }
    }
}

/// The entry of file `file_id` at `pos`, and where it ends.
pub open spec fn file_at(t: Seq<u8>, version: u32, pos: int, file_id: u32) -> Outcome<(FileView, int)> {
    match head_at(t, version, pos) {
        Err(e) => Err(e),
        Ok((size, offset, packed, body)) => {
            let n = packed as nat % 0x100_0000;
            match Mode::of(packed as nat / 0x100_0000) {
                None => super::bad(
                    Problem::FileMode { file_id, mode: (packed as nat / 0x100_0000) as u32 },
                ),
                Some(mode) => match blocks_at(t, body, n) {
                    Err(e) => Err(e),
                    Ok(blocks) => Ok(
                        (FileView { file_id, mode, offset, size, blocks }, body + 8 * n),
                    ),
                },
            }
        },
    }
}

/// What some files and the place behind them become when `before` stand in
/// front of them.
pub open spec fn behind(
    before: Seq<FileView>,
    r: Outcome<(Seq<FileView>, int)>,
) -> Outcome<(Seq<FileView>, int)> {
    match r {
        Ok((files, end)) => Ok((before + files, end)),
        Err(e) => Err(e),
    }
}

/// The entries at `pos` of the files numbered `start + k` to
/// `start + count - 1`, and where they end.
pub open spec fn files_at(
    t: Seq<u8>,
    version: u32,
    pos: int,
    start: u32,
    k: nat,
    count: nat,
) -> Outcome<(Seq<FileView>, int)>
    decreases count - k,
{
    if k >= count {
        Ok((Seq::empty(), pos))
    } else if start + k > u32::MAX {
        super::bad(Problem::FileIdOverflow)
    } else {
        match file_at(t, version, pos, (start + k) as u32) {
            Err(e) => Err(e),
            Ok((file, next)) => behind(
                seq![file],
                files_at(t, version, next, start, k + 1, count),
            ),
        }
    }
}

/// The files of fileblock `fb`, whose entries begin at `pos`, and where they
/// end.
pub open spec fn fileblock_at(
    t: Seq<u8>,
    version: u32,
    pos: int,
    fb: nat,
) -> Outcome<(Seq<FileView>, int)> {
    let base = (0x20 + 0x10 * fb) as int;
    match (super::u32_of(t, base), super::u32_of(t, base + 4), super::u32_of(t, base + 8)) {
        (Err(e), _, _) => Err(e),
        (_, Err(e), _) => Err(e),
        (_, _, Err(e)) => Err(e),
        (Ok(start), Ok(count), Ok(offset)) => if offset != pos {
            super::bad(
                Problem::FileblockOffset {
                    fileblock: fb as u64,
                    offset: offset as u64,
                    cursor: pos as u64,
                },
            )
        } else {
            files_at(t, version, pos, start, 0, count as nat)
        },
    }
}

/// The files of fileblocks `fb` to `n - 1`, whose entries begin at `pos`,
/// and where they end.
pub open spec fn fileblocks_at(
    t: Seq<u8>,
    version: u32,
    pos: int,
    fb: nat,
    n: nat,
) -> Outcome<(Seq<FileView>, int)>
    decreases n - fb,
{
    if fb >= n {
        Ok((Seq::empty(), pos))
    } else {
        match fileblock_at(t, version, pos, fb) {
            Err(e) => Err(e),
            Ok((files, next)) => behind(files, fileblocks_at(t, version, next, fb + 1, n)),
        }
    }
}

/// The largest number of blocks that one of the files has.
pub open spec fn most_blocks(files: Seq<FileView>) -> nat
    decreases files.len(),
{
    if files.len() == 0 {
        0
    } else {
        let rest = most_blocks(files.drop_last());
        if files.last().blocks.len() > rest {
            files.last().blocks.len()
        } else {
            rest
        }
    }
}

/// The files that a checksum table lists.
pub open spec fn table(t: Seq<u8>) -> Outcome<Seq<FileView>> {
    if t.len() < 4 {
        super::bad(Problem::TruncatedU32(0))
    } else if super::le32(t, 0) != MAGIC {
        super::bad(Problem::TableMagic)
    } else if t.len() < 0x20 {
        super::bad(Problem::TruncatedU32(super::first_missing(t.len(), 0) as u64))
    } else {
        let version = super::le32(t, 4) as u32;
        let num_fileblocks = super::le32(t, 8);
        let num_items = super::le32(t, 12);
        let block_size = super::le32(t, 24) as u32;
        if version > 1 {
            super::bad(Problem::TableVersion(version))
        } else if block_size != BLOCK_SIZE {
            super::bad(Problem::TableBlockSize(block_size))
        } else if super::le32(t, 16) != 0x20 || super::le32(t, 20) != 0x20 + 0x10
            * num_fileblocks {
            super::bad(Problem::TableOffsets)
        } else {
            match fileblocks_at(t, version, super::le32(t, 20) as int, 0, num_fileblocks) {
                Err(e) => Err(e),
                Ok((files, end)) => match super::u32_of(t, end) {
                    Err(e) => Err(e),
                    Ok(footer) => if footer != MAGIC {
                        super::bad(Problem::FooterMagic)
                    } else if files.len() != num_items {
                        super::bad(
                            Problem::FileCount {
                                files: files.len() as u64,
                                expected: num_items as u64,
                            },
                        )
                    } else if most_blocks(files) != super::le32(t, 28) {
                        super::bad(Problem::LargestBlockCount)
                    } else {
                        Ok(files)
                    },
                },
            }
        }
    }
}

proof fn lemma_behind_twice(
    a: Seq<FileView>,
    b: Seq<FileView>,
    r: Outcome<(Seq<FileView>, int)>,
)
    ensures
        behind(a, behind(b, r)) == behind(a + b, r),
        behind(Seq::empty(), r) == r,
{
    match r {
        Ok((files, end)) => {
            assert(a + (b + files) =~= (a + b) + files);
            assert(Seq::<FileView>::empty() + files =~= files);
        },
        Err(_) => {},
    }
}

// ---- reading it -----------------------------------------------------------

/// Read `n` block entries at `pos`.
fn read_blocks(t: &[u8], pos: u64, n: u32) -> (r: Result<Vec<Block>>)
    requires
        n < 0x100_0000,
    ensures
        match r {
            Ok(v) => blocks_at(t@, pos as int, n as nat) == Ok::<Seq<Block>, Fault>(v@) && (n > 0
                ==> pos + 8 * n <= t@.len()),
            Err(e) => blocks_at(t@, pos as int, n as nat) == Err::<Seq<Block>, Fault>(e@),
        },
{
    let mut blocks: Vec<Block> = Vec::new();
    let mut i: u32 = 0;
    let mut at: u64 = pos;
    let len: u64 = t.len() as u64;
    while i < n
        invariant
            i <= n < 0x100_0000,
            t@.len() == len,
            at == pos + 8 * i,
            i > 0 ==> at <= t@.len(),
            blocks@.len() == i,
            forall|j: int|
                0 <= j < i ==> blocks@[j] == (Block {
                    compressed_size: super::le32(t@, pos + 8 * j) as u32,
                    checksum: super::le32(t@, pos + 8 * j + 4) as u32,
                }),
        decreases n - i,
    {
        let compressed_size = match u32_at(t, at) {
            Ok(v) => v,
            Err(e) => {
                return Err(e);
            },
        };
        let checksum = match u32_at(t, at + 4) {
            Ok(v) => v,
            Err(e) => {
                return Err(e);
            },
        };
        blocks.push(Block { compressed_size, checksum });
        at = at + 8;
        i = i + 1;
    }
    proof {
        let all = blocks_at(t@, pos as int, n as nat)->Ok_0;
        assert(blocks@ =~= all);
    }
    Ok(blocks)
}

/// Read the entry of file `file_id` at `pos`.
fn read_file(t: &[u8], version: u32, pos: u64, file_id: u32) -> (r: Result<(FileRecord, u64)>)
    ensures
        match r {
            Ok(v) => file_at(t@, version, pos as int, file_id) == Ok::<(FileView, int), Fault>(
                (v.0@, v.1 as int),
            ),
            Err(e) => file_at(t@, version, pos as int, file_id) == Err::<(FileView, int), Fault>(
                e@,
            ),
        },
{
    let size: u64;
    let offset: u64;
    let packed: u32;
    let body: u64;
    let len: u64 = t.len() as u64;
    if version == 0 {
        size =
        match u32_at(t, pos) {
            Ok(v) => v as u64,
            Err(e) => {
                return Err(e);
            },
        };
        offset =
        match u32_at(t, pos + 4) {
            Ok(v) => v as u64,
            Err(e) => {
                return Err(e);
            },
        };
        packed =
        match u32_at(t, pos + 8) {
            Ok(v) => v,
            Err(e) => {
                return Err(e);
            },
        };
        body = pos + 12;
    } else {
        size =
        match u64_at(t, pos) {
            Ok(v) => v,
            Err(e) => {
                return Err(e);
            },
        };
        offset =
        match u64_at(t, pos + 8) {
            Ok(v) => v,
            Err(e) => {
                return Err(e);
            },
        };
        packed =
        match u32_at(t, pos + 16) {
            Ok(v) => v,
            Err(e) => {
                return Err(e);
            },
        };
        body = pos + 20;
    }
    let mode = match Mode::from_u32(packed / 0x100_0000) {
        Some(m) => m,
        None => {
            return Err(malformed(Problem::FileMode { file_id, mode: packed / 0x100_0000 }));
        },
    };
    let num_blocks: u32 = packed % 0x100_0000;
    match read_blocks(t, body, num_blocks) {
        Err(e) => Err(e),
        Ok(blocks) => Ok(
            (FileRecord { file_id, mode, offset, size, blocks }, body + 8 * num_blocks as u64),
        ),
    }
}

/// Read the files of one fileblock, whose entries begin at `pos`, behind
/// those in `out`.
#[verifier::loop_isolation(false)]
fn read_files(t: &[u8], version: u32, pos: u64, start: u32, count: u32, out: &mut Vec<FileRecord>)
    -> (r: Result<u64>)
    ensures
        match r {
            Ok(end) => behind(
                file_views(old(out)@),
                files_at(t@, version, pos as int, start, 0, count as nat),
            ) == Ok::<(Seq<FileView>, int), Fault>((file_views(final(out)@), end as int)),
            Err(e) => files_at(t@, version, pos as int, start, 0, count as nat) == Err::<
                (Seq<FileView>, int),
                Fault,
            >(e@),
        },
{
    let mut k: u32 = 0;
    let mut at: u64 = pos;
    let ghost all = files_at(t@, version, pos as int, start, 0, count as nat);
    let ghost before = file_views(out@);
    while k < count
        invariant
            k <= count,
            behind(before, all) == behind(
                file_views(out@),
                files_at(t@, version, at as int, start, k as nat, count as nat),
            ),
        decreases count - k,
    {
        if start > u32::MAX - k {
            return Err(malformed(Problem::FileIdOverflow));
        }
        match read_file(t, version, at, start + k) {
            Err(e) => {
                return Err(e);
            },
            Ok(v) => {
                let ghost so_far = file_views(out@);
                proof {
                    lemma_behind_twice(
                        so_far,
                        seq![v.0@],
                        files_at(t@, version, v.1 as int, start, (k + 1) as nat, count as nat),
                    );
                }
                at = v.1;
                out.push(v.0);
                assert(file_views(out@) =~= so_far + seq![v.0@]);
            },
        }
        k = k + 1;
    }
    assert(file_views(out@) + Seq::<FileView>::empty() =~= file_views(out@));
    Ok(at)
}

/// Read fileblock `fb`, whose entries begin at `pos`, behind the files in
/// `out`.
fn read_fileblock(t: &[u8], version: u32, pos: u64, fb: u32, out: &mut Vec<FileRecord>) -> (r:
    Result<u64>)
    ensures
        match r {
            Ok(end) => behind(
                file_views(old(out)@),
                fileblock_at(t@, version, pos as int, fb as nat),
            ) == Ok::<(Seq<FileView>, int), Fault>((file_views(final(out)@), end as int)),
            Err(e) => fileblock_at(t@, version, pos as int, fb as nat) == Err::<
                (Seq<FileView>, int),
                Fault,
            >(e@),
        },
{
    let base: u64 = 0x20 + 0x10 * fb as u64;
    let start = match u32_at(t, base) {
        Ok(v) => v,
        Err(e) => {
            return Err(e);
        },
    };
    let count = match u32_at(t, base + 4) {
        Ok(v) => v,
        Err(e) => {
            return Err(e);
        },
    };
    let offset = match u32_at(t, base + 8) {
        Ok(v) => v,
        Err(e) => {
            return Err(e);
        },
    };
    if offset as u64 != pos {
        return Err(
            malformed(
                Problem::FileblockOffset {
                    fileblock: fb as u64,
                    offset: offset as u64,
                    cursor: pos,
                },
            ),
        );
    }
    read_files(t, version, pos, start, count, out)
}

/// The largest number of blocks among `files`.
fn largest(files: &Vec<FileRecord>) -> (r: u64)
    ensures
        r == most_blocks(file_views(files@)),
{
    let mut most: u64 = 0;
    let mut i: usize = 0;
    while i < files.len()
        invariant
            i <= files@.len(),
            most == most_blocks(file_views(files@).take(i as int)),
        decreases files@.len() - i,
    {
        let n: u64 = files[i].blocks.len() as u64;
        proof {
            let v = file_views(files@);
            assert(v.take(i + 1).drop_last() =~= v.take(i as int));
        }
        if n > most {
            most = n;
        }
        i += 1;
    }
    assert(file_views(files@).take(files@.len() as int) =~= file_views(files@));
    most
}

/// Read the files of every fileblock; their entries begin at `first`.
#[verifier::loop_isolation(false)]
fn read_fileblocks(t: &[u8], version: u32, first: u32, num_fileblocks: u32) -> (r: Result<
    (Vec<FileRecord>, u64),
>)
    ensures
        match r {
            Ok(v) => fileblocks_at(t@, version, first as int, 0, num_fileblocks as nat) == Ok::<
                (Seq<FileView>, int),
                Fault,
            >((file_views(v.0@), v.1 as int)),
            Err(e) => fileblocks_at(t@, version, first as int, 0, num_fileblocks as nat) == Err::<
                (Seq<FileView>, int),
                Fault,
            >(e@),
        },
{
    let mut pos: u64 = first as u64;
    let mut out: Vec<FileRecord> = Vec::new();
    let mut fb: u32 = 0;
    let ghost n = num_fileblocks as nat;
    let ghost all = fileblocks_at(t@, version, pos as int, 0, n);
    proof {
        lemma_behind_twice(Seq::empty(), Seq::empty(), all);
        assert(file_views(out@) =~= Seq::<FileView>::empty());
    }
    while fb < num_fileblocks
        invariant
            fb <= num_fileblocks,
            all == behind(
                file_views(out@),
                fileblocks_at(t@, version, pos as int, fb as nat, n),
            ),
        decreases num_fileblocks - fb,
    {
        let ghost so_far = file_views(out@);
        let ghost here = fileblock_at(t@, version, pos as int, fb as nat);
        match read_fileblock(t, version, pos, fb, &mut out) {
            Err(e) => {
                return Err(e);
            },
            Ok(end) => {
                proof {
                    lemma_behind_twice(
                        so_far,
                        here->Ok_0.0,
                        fileblocks_at(t@, version, end as int, (fb + 1) as nat, n),
                    );
                }
                pos = end;
            },
        }
        fb += 1;
    }
    assert(file_views(out@) + Seq::<FileView>::empty() =~= file_views(out@));
    Ok((out, pos))
}

/// Read a checksum table.
pub fn parse(t: &[u8]) -> (r: Result<Vec<FileRecord>>)
    ensures
        match r {
            Ok(v) => table(t@) == Ok::<Seq<FileView>, Fault>(file_views(v@)),
            Err(e) => table(t@) == Err::<Seq<FileView>, Fault>(e@),
        },
{
    match u32_at(t, 0) {
        Err(e) => {
            return Err(e);
        },
        Ok(v) => {
            if v != MAGIC {
                return Err(malformed(Problem::TableMagic));
            }
        },
    }
    let header = match words_at(t, 0, 8) {
        Ok(v) => v,
        Err(e) => {
            return Err(e);
        },
    };
    let version: u32 = header[1];
    let num_fileblocks: u32 = header[2];
    let num_items: u32 = header[3];
    let block_size: u32 = header[6];
    if version > 1 {
        return Err(malformed(Problem::TableVersion(version)));
    }
    if block_size as u64 != BLOCK_SIZE {
        return Err(malformed(Problem::TableBlockSize(block_size)));
    }
    if header[4] != 0x20 || header[5] as u64 != 0x20 + 0x10 * num_fileblocks as u64 {
        return Err(malformed(Problem::TableOffsets));
    }
    let (out, pos) = match read_fileblocks(t, version, header[5], num_fileblocks) {
        Ok(v) => v,
        Err(e) => {
            return Err(e);
        },
    };
    match u32_at(t, pos) {
        Err(e) => {
            return Err(e);
        },
        Ok(footer) => {
            if footer != MAGIC {
                return Err(malformed(Problem::FooterMagic));
            }
        },
    }
    if out.len() as u64 != num_items as u64 {
        return Err(
            malformed(
                Problem::FileCount { files: out.len() as u64, expected: num_items as u64 },
            ),
        );
    }
    if largest(&out) != header[7] as u64 {
        return Err(malformed(Problem::LargestBlockCount));
    }
    Ok(out)
}

} // verus!
