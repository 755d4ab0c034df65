//! What a store can come to. A store asks its backend for bytes, and what the
//! backend answers is not the store's to say; so each thing that a store hands
//! out is related here to the answers that the backend may give.

use std::sync::Arc;
use vstd::prelude::*;

use super::block;
use super::block::{KeyResolution, Sample};
use super::contents;
use super::contents::ParsedView;
use super::error::{Outcome, ReadFault};
use super::kept;
use super::table::{FileLoc, FileTable, LocView};
use crate::backend::{Backend, ReplyView};
use crate::format::chunk;
use crate::format::{Fault, BLOCK_SIZE};
use crate::index::{BlobId, DatId, IndexView};
use crate::keys::KeysView;
use crate::recent::RecentView;

verus! {

/// Raw dat bytes are fetched in aligned windows this large.
pub const RAW_WINDOW: u64 = 0x10_0000;

/// A version chain is followed for at most one blob more than this.
pub const CHAIN_LIMIT: usize = 100_000;

/// What a store works on: this never changes.
#[verifier::reject_recursive_types(B)]
pub struct Setup<B> {
    pub backend: B,
    pub index: IndexView,
    pub keys: KeysView,
    pub verify: bool,
    pub key_search: bool,
}

/// What a store has been through.
#[verifier::ext_equal]
pub struct Past {
    /// The files whose blocks have been asked for.
    pub files: Set<LocView>,
    /// The keys that are resolved, by blob.
    pub keys: Map<u32, KeyResolution>,
}

impl Past {
    /// All that `earlier` has been through, and maybe more.
    pub open spec fn covers(self, earlier: Past) -> bool {
        &&& earlier.files.subset_of(self.files)
        &&& earlier.keys.submap_of(self.keys)
    }

    /// One more file has been asked for.
    pub open spec fn with_file(self, loc: LocView) -> Past {
        Past { files: self.files.insert(loc), ..self }
    }

    /// Other keys are resolved.
    pub open spec fn with_keys(self, keys: Map<u32, KeyResolution>) -> Past {
        Past { keys, ..self }
    }
}

/// The lesser of two numbers.
pub open spec fn least(a: int, b: int) -> int {
    if a <= b {
        a
    } else {
        b
    }
}

/// The window of a dat that the byte at `pos` is in.
pub open spec fn window_no(pos: int) -> int {
    pos / (RAW_WINDOW as int)
}

/// The place of the byte at `pos` in its window.
pub open spec fn window_at(pos: int) -> int {
    pos % (RAW_WINDOW as int)
}

/// The block of a file that the byte at `pos` is in.
pub open spec fn block_no(pos: int) -> int {
    pos / (BLOCK_SIZE as int)
}

/// The place of the byte at `pos` in its block.
pub open spec fn in_block(pos: int) -> int {
    pos % (BLOCK_SIZE as int)
}

impl<B: Backend> Setup<B> {
    // ---- blobs ----

    /// The bytes of blob `id` may come to `r`.
    #[verifier::opaque]
    pub open spec fn may_fetch(self, id: BlobId, r: Outcome<Seq<u8>>) -> bool {
        let entry = self.index.blob(id);
        self.index.has_blob(id) && exists|reply: ReplyView<Seq<u8>>| #[trigger]
            self.backend.may_read_all(entry.path, reply) && r == contents::bytes_of(entry, reply)
    }

    /// Parsing blob `id` may come to `r`.
    #[verifier::opaque]
    pub open spec fn may_parse(self, id: BlobId, r: Outcome<ParsedView>) -> bool {
        let entry = self.index.blob(id);
        self.index.has_blob(id) && exists|reply: ReplyView<Seq<u8>>| #[trigger]
            self.backend.may_read_all(entry.path, reply) && r == contents::parsed_reply(
                entry,
                reply,
            )
    }

    /// The parent of blob `id`, from what it holds: the blob with the version
    /// and crc that it records; where there is none, the only blob with that
    /// version.
    pub open spec fn parent_from(self, id: BlobId, p: ParsedView) -> Option<BlobId> {
        let depot = self.index.blob(id).depot;
        match p.meta.prev {
            None => None,
            Some((version, crc)) => match self.index.find_blob(depot, version, crc) {
                Some(b) => Some(b),
                None => {
                    let candidates = self.index.with_version(depot, version);
                    if candidates.len() == 1 {
                        Some(BlobId(candidates[0]))
                    } else {
                        None
                    }
                },
            },
        }
    }

    /// Blob `id` may turn out to have the parent `r`.
    #[verifier::opaque]
    pub open spec fn may_parent(self, id: BlobId, r: Option<BlobId>) -> bool {
        exists|p: ParsedView| #[trigger] self.may_parse(id, Ok(p)) && r == self.parent_from(id, p)
    }

    /// Each blob of `c` may be the parent of the next.
    #[verifier::opaque]
    pub open spec fn linked(self, c: Seq<BlobId>) -> bool {
        forall|i: int| 0 < i < c.len() ==> self.may_parent(#[trigger] c[i], Some(c[i - 1]))
    }

    /// There is a reason for `c` to begin where it does: the first blob has no
    /// parent, or its parent is in `c` already, or `c` is long enough.
    #[verifier::opaque]
    pub open spec fn begins(self, c: Seq<BlobId>) -> bool {
        ||| self.may_parent(c[0], None)
        ||| exists|p: BlobId| #[trigger]
            self.may_parent(c[0], Some(p)) && (c.contains(p) || c.len() > CHAIN_LIMIT)
    }

    /// `c` may be the chain of blobs, the root first, that ends at `id`.
    pub open spec fn may_chain(self, id: BlobId, c: Seq<BlobId>) -> bool {
        &&& c.len() > 0
        &&& c.last() == id
        &&& c.no_duplicates()
        &&& self.linked(c)
        &&& self.begins(c)
    }

    /// Blob `x` may be met on the way from `id` to its root.
    #[verifier::opaque]
    pub open spec fn reaches(self, id: BlobId, x: BlobId) -> bool {
        exists|c: Seq<BlobId>| #[trigger]
            self.linked(c) && c.len() > 0 && c[0] == x && c.last() == id
    }

    // ---- file tables ----

    /// A chain may begin at `id`.
    #[verifier::opaque]
    pub open spec fn may_begin(self, id: BlobId) -> bool {
        exists|c: Seq<BlobId>| #[trigger]
            self.linked(c) && c.len() > 0 && c[0] == id && self.begins(c)
    }

    /// `t` may be a file table: each layer holds what its blob may hold, over
    /// the table of a blob that may be its parent.
    #[verifier::opaque]
    pub open spec fn may_table(self, t: &FileTable) -> bool
        decreases t,
    {
        &&& exists|p: ParsedView| #[trigger]
            self.may_parse(t.blob, Ok(p)) && t.holds(self.index, p)
        &&& match t.parent {
            Some(parent) => self.may_parent(t.blob, Some(parent.blob)) && self.may_table(&parent),
            None => self.may_begin(t.blob),
        }
    }

    /// File `file_id` may be at `r`, as of version `id`.
    #[verifier::opaque]
    pub open spec fn may_locate(self, id: BlobId, file_id: u32, r: Option<Arc<FileLoc>>) -> bool {
        exists|t: FileTable| #[trigger]
            self.may_table(&t) && t.blob == id && t.find(file_id) == r
    }

    /// Making the table of blob `id` may lead from the tables that were kept to
    /// those in `after`: each layer of a version chain is used in turn, as far
    /// as they can be made; the last is the table.
    #[verifier::opaque]
    pub open spec fn may_file_layers(
        self,
        id: BlobId,
        before: RecentView<Arc<FileTable>>,
        after: RecentView<Arc<FileTable>>,
        made: Option<Arc<FileTable>>,
    ) -> bool {
        exists|chain: Seq<BlobId>, layers: Seq<Arc<FileTable>>|
            {
                &&& after == #[trigger] kept::after_layers(before, chain, layers)
                &&& layers.len() <= chain.len()
                &&& chain.len() > 0 ==> self.may_chain(id, chain)
                &&& match made {
                    Some(t) => 0 < layers.len() == chain.len() && layers.last() == t,
                    None => true,
                }
            }
    }

    // ---- dats ----

    /// Where window `n` of a dat begins, and how many bytes of it there are.
    pub open spec fn window(self, dat: DatId, n: int) -> (int, int) {
        let start = n * RAW_WINDOW;
        let size = self.index.dat(dat).size as int;
        (
            start,
            if start < size {
                least(RAW_WINDOW as int, size - start)
            } else {
                0
            },
        )
    }

    /// Window `n` of a dat may come to `r`.
    #[verifier::opaque]
    pub open spec fn may_window(self, dat: DatId, n: int, r: Outcome<Seq<u8>>) -> bool {
        let (start, len) = self.window(dat, n);
        if len == 0 {
            r == Ok::<Seq<u8>, ReadFault>(Seq::empty())
        } else {
            match r {
                Ok(w) => self.backend.may_read_at(
                    self.index.dat(dat).path,
                    start as u64,
                    len as usize,
                    Ok(w),
                ),
                Err(f) => f matches ReadFault::Other(m) && self.backend.may_read_at(
                    self.index.dat(dat).path,
                    start as u64,
                    len as usize,
                    Err(m),
                ),
            }
        }
    }

    /// How much of window `w` is taken at `pos` for what reaches to `end`.
    pub open spec fn window_part(self, pos: int, end: int, w: Seq<u8>) -> int {
        let at = window_at(pos);
        if at < w.len() && pos < end {
            least(end - pos, w.len() - at)
        } else {
            0
        }
    }

    /// `out` begins with what window `w` has at `pos`.
    pub open spec fn window_begins(self, dat: DatId, pos: int, end: int, out: Seq<u8>, w: Seq<u8>)
        -> bool {
        let at = window_at(pos);
        let part = self.window_part(pos, end, w);
        &&& self.may_window(dat, window_no(pos), Ok(w))
        &&& out.len() >= part
        &&& part > 0 ==> out.take(part) == w.subrange(at, at + part)
    }

    /// The stored bytes of a dat from `pos` to `end` may come to `out`, which
    /// is shorter where the dat ends first.
    #[verifier::opaque]
    pub open spec fn may_stitch(self, dat: DatId, pos: int, end: int, out: Seq<u8>) -> bool
        decreases end - pos,
    {
        if pos >= end {
            out.len() == 0
        } else {
            exists|w: Seq<u8>|
                {
                    let part = self.window_part(pos, end, w);
                    &&& #[trigger] self.window_begins(dat, pos, end, out, w)
                    &&& if part > 0 {
                        self.may_stitch(dat, pos + part, end, out.skip(part))
                    } else {
                        out.len() == 0
                    }
                }
        }
    }

    /// Reading the stored bytes of a dat from `pos` to `end` may fail as `f`.
    #[verifier::opaque]
    pub open spec fn may_stitch_fail(self, dat: DatId, pos: int, end: int, f: ReadFault) -> bool {
        pos < end && exists|n: int| #[trigger]
            self.may_window(dat, n, Err(f)) && window_no(pos) <= n && n * RAW_WINDOW < end
    }

    // ---- blocks ----

    /// The sample that block `i` of a file gives.
    pub open spec fn sample(self, loc: LocView, i: int, raw: Seq<u8>) -> Sample {
        Sample { mode: loc.record.mode, raw, expected: loc.record.blocks[i].checksum }
    }

    /// Block `i` of a file that has been asked for may give the sample `s`: it
    /// is all that is stored of the block.
    pub open spec fn gives_sample(self, past: Past, loc: LocView, i: int, s: Sample) -> bool {
        &&& past.files.contains(loc)
        &&& loc.fits(self.index)
        &&& loc.dat is Some
        &&& 0 <= i < loc.record.blocks.len()
        &&& s == self.sample(loc, i, s.raw)
        &&& s.raw.len() == loc.span(i).1 - loc.span(i).0
        &&& self.may_stitch(loc.dat->0, loc.span(i).0 as int, loc.span(i).1 as int, s.raw)
    }

    /// The key of blob `source` may be resolved as `r`, by a sample that one of
    /// its files that has been asked for may give.
    #[verifier::opaque]
    pub open spec fn may_resolve(self, past: Past, source: BlobId, r: KeyResolution) -> bool {
        let b = self.index.blob(source);
        exists|loc: LocView, i: int, s: Sample| #[trigger]
            self.gives_sample(past, loc, i, s) && loc.source == source && r == block::resolution(
                self.keys,
                self.key_search,
                b.depot,
                b.crc,
                s,
            )
    }

    /// Every key that is resolved may be resolved so.
    pub open spec fn may_know(self, past: Past) -> bool {
        forall|b: u32| #[trigger]
            past.keys.contains_key(b) ==> self.may_resolve(past, BlobId(b), past.keys[b])
    }

    /// How the key of a blob is resolved: as it was, or by a sample.
    pub open spec fn resolved_by(
        self,
        known: Map<u32, KeyResolution>,
        source: BlobId,
        s: Sample,
    ) -> KeyResolution {
        let b = self.index.blob(source);
        if known.contains_key(source.0) {
            known[source.0]
        } else {
            block::resolution(self.keys, self.key_search, b.depot, b.crc, s)
        }
    }

    /// The keys that are resolved once block `i` of a file has been decoded.
    pub open spec fn known_after(
        self,
        known: Map<u32, KeyResolution>,
        loc: LocView,
        i: int,
        raw: Seq<u8>,
    ) -> Map<u32, KeyResolution> {
        if loc.record.mode.encrypted() && raw.len() == loc.span(i).1 - loc.span(i).0 {
            known.insert(
                loc.source.0,
                self.resolved_by(known, loc.source, self.sample(loc, i, raw)),
            )
        } else {
            known
        }
    }

    /// Reading a file may leave the store with `after` where the keys of `known`
    /// were resolved: no more is learned than the key of its blob, by one of its
    /// blocks.
    #[verifier::opaque]
    pub open spec fn may_learn(
        self,
        known: Map<u32, KeyResolution>,
        after: Past,
        loc: LocView,
    ) -> bool {
        ||| after.keys == known
        ||| exists|i: int, s: Sample| #[trigger]
            self.gives_sample(after, loc, i, s) && after.keys == self.known_after(
                known,
                loc,
                i,
                s.raw,
            )
    }

    /// What a store has been through may go from `before` to `after` by reading
    /// a file.
    pub open spec fn may_pass(self, before: Past, after: Past, loc: LocView) -> bool {
        after.files == before.files.insert(loc) && self.may_learn(before.keys, after, loc)
    }

    /// What block `i` of a file comes to, from its stored bytes, where the
    /// keys of `known` are resolved.
    pub open spec fn block_outcome(
        self,
        loc: LocView,
        i: int,
        raw: Seq<u8>,
        known: Map<u32, KeyResolution>,
    ) -> Outcome<Seq<u8>> {
        self.keyed_outcome(
            loc,
            i,
            raw,
            self.resolved_by(known, loc.source, self.sample(loc, i, raw)),
        )
    }

    /// Testing the keys on a file, where those of `known` are resolved, may come
    /// to `r`.
    pub open spec fn may_probe(
        self,
        known: Map<u32, KeyResolution>,
        loc: LocView,
        r: Outcome<KeyResolution>,
    ) -> bool {
        match loc.dat {
            None => r matches Err(f) && self.may_miss_dat(loc.source, f),
            Some(d) => if loc.record.blocks.len() == 0 {
                r == Err::<KeyResolution, ReadFault>(
                    ReadFault::NoBlocksToProbe { file_id: loc.record.file_id },
                )
            } else {
                ||| (r matches Err(f) && self.may_stitch_fail(
                    d,
                    loc.span(0).0 as int,
                    loc.span(0).1 as int,
                    f,
                ))
                ||| exists|raw: Seq<u8>| #[trigger]
                    self.may_stitch(d, loc.span(0).0 as int, loc.span(0).1 as int, raw) && r
                        == self.probed(known, loc, raw)
            },
        }
    }

    /// What testing the keys on a file comes to, from its first stored bytes.
    pub open spec fn probed(
        self,
        known: Map<u32, KeyResolution>,
        loc: LocView,
        raw: Seq<u8>,
    ) -> Outcome<KeyResolution> {
        let want = loc.span(0).1 - loc.span(0).0;
        if raw.len() == want {
            Ok(self.resolved_by(known, loc.source, self.sample(loc, 0, raw)))
        } else {
            Err(
                ReadFault::ShortRead {
                    file_id: loc.record.file_id,
                    block: 0,
                    want: want as u64,
                    got: raw.len() as u64,
                },
            )
        }
    }

    /// A file without a dat may fail as `f`: the dat's crc is told as far as
    /// the blob can be parsed.
    #[verifier::opaque]
    pub open spec fn may_miss_dat(self, source: BlobId, f: ReadFault) -> bool {
        let b = self.index.blob(source);
        exists|o: Outcome<ParsedView>| #[trigger]
            self.may_parse(source, o) && f == (ReadFault::MissingDat {
                depot: b.depot,
                version: b.version,
                crc: match o {
                    Ok(p) => p.meta.dat_crc,
                    Err(_) => 0,
                },
            })
    }

    /// `key` is how the key of a file's blob is resolved, where it needs one.
    pub open spec fn uses_key(self, past: Past, loc: LocView, key: KeyResolution) -> bool {
        loc.record.mode.encrypted() ==> past.keys.contains_key(loc.source.0)
            && past.keys[loc.source.0] == key && self.may_resolve(past, loc.source, key)
    }

    /// What block `i` of a file comes to, from its stored bytes and the key that
    /// its blob has.
    pub open spec fn keyed_outcome(
        self,
        loc: LocView,
        i: int,
        raw: Seq<u8>,
        key: KeyResolution,
    ) -> Outcome<Seq<u8>> {
        let b = self.index.blob(loc.source);
        block::block_bytes(
            loc.record,
            i,
            (loc.span(i).1 - loc.span(i).0) as u64,
            raw,
            key,
            b.depot,
            b.crc,
            self.verify,
        )
    }

    /// Decoding block `i` of a file may fail as `f`: too little of it is
    /// stored, or it does not decode by the key that is resolved.
    pub open spec fn may_decode_fail(self, past: Past, loc: LocView, i: int, f: ReadFault) -> bool {
        exists|raw: Seq<u8>, key: KeyResolution|
            {
                &&& #[trigger] self.may_stitch(
                    loc.dat->0,
                    loc.span(i).0 as int,
                    loc.span(i).1 as int,
                    raw,
                )
                &&& raw.len() == loc.span(i).1 - loc.span(i).0 ==> self.uses_key(past, loc, key)
                &&& #[trigger] self.keyed_outcome(loc, i, raw, key) == Err::<Seq<u8>, ReadFault>(f)
            }
    }

    /// Reading block `i` of a file may fail as `f`.
    #[verifier::opaque]
    pub open spec fn may_block_fail(self, past: Past, loc: LocView, i: int, f: ReadFault) -> bool {
        match loc.dat {
            None => self.may_miss_dat(loc.source, f),
            Some(d) => {
                ||| i >= loc.record.blocks.len() && f == loc.no_such_block(i)
                ||| self.may_stitch_fail(d, loc.span(i).0 as int, loc.span(i).1 as int, f)
                ||| self.may_decode_fail(past, loc, i, f)
            },
        }
    }

    /// Block `i` of a file may be read and decoded as `out`, by the key that is
    /// resolved.
    #[verifier::opaque]
    pub open spec fn may_decode(self, past: Past, loc: LocView, i: int, out: Seq<u8>) -> bool {
        exists|raw: Seq<u8>, key: KeyResolution|
            {
                &&& #[trigger] self.may_stitch(
                    loc.dat->0,
                    loc.span(i).0 as int,
                    loc.span(i).1 as int,
                    raw,
                )
                &&& self.uses_key(past, loc, key)
                &&& #[trigger] self.keyed_outcome(loc, i, raw, key) == Ok::<Seq<u8>, ReadFault>(out)
            }
    }

    /// The block that is stored at `start` of a dat may come to `out`: one of
    /// the files that have been asked for has a block there, which may come to
    /// it.
    #[verifier::opaque]
    pub open spec fn may_block(self, past: Past, dat: DatId, start: u64, out: Seq<u8>)
        -> bool {
        exists|loc: LocView, i: int|
            {
                &&& #[trigger] self.may_decode(past, loc, i, out)
                &&& past.files.contains(loc)
                &&& loc.fits(self.index)
                &&& loc.dat == Some(dat)
                &&& 0 <= i < loc.record.blocks.len()
                &&& loc.span(i).0 == start
            }
    }

    /// Where block `i` of a file should be, another file that was asked for may
    /// have a shorter one.
    pub open spec fn may_clash(self, past: Past, loc: LocView, i: int) -> bool {
        exists|b: Seq<u8>| #[trigger]
            self.may_block(past, loc.dat->0, loc.span(i).0, b) && b.len() < loc.record.range(i).1
                - loc.record.range(i).0
    }

    /// What block `i` of a file gives may not do for a read, and why.
    pub open spec fn may_fail_at(self, past: Past, loc: LocView, i: int, f: ReadFault) -> bool {
        ||| self.may_block_fail(past, loc, i, f)
        ||| f == loc.no_such_block(i) && 0 <= i < loc.record.blocks.len() && self.may_clash(
            past,
            loc,
            i,
        )
    }

    /// Reading a file from `pos` to `end` may fail as `f`: one of its blocks
    /// there may.
    #[verifier::opaque]
    pub open spec fn may_read_fail(
        self,
        past: Past,
        loc: LocView,
        pos: int,
        end: int,
        f: ReadFault,
    ) -> bool {
        pos < end && exists|i: int| #[trigger]
            self.may_fail_at(past, loc, i, f) && block_no(pos) <= i && i * BLOCK_SIZE < end
    }

    /// How much of block `b` is taken at `pos` for what reaches to `end`.
    pub open spec fn block_part(self, pos: int, end: int, b: Seq<u8>) -> int {
        least(end - pos, b.len() - in_block(pos))
    }

    /// `out` begins with what block `b` has at `pos`.
    pub open spec fn block_begins(
        self,
        past: Past,
        loc: LocView,
        pos: int,
        end: int,
        out: Seq<u8>,
        b: Seq<u8>,
    ) -> bool {
        let i = block_no(pos);
        let at = in_block(pos);
        let part = self.block_part(pos, end, b);
        &&& 0 <= i < loc.record.blocks.len()
        &&& self.may_block(past, loc.dat->0, loc.span(i).0, b)
        &&& at < b.len()
        &&& out.len() >= part
        &&& out.take(part) == b.subrange(at, at + part)
    }

    /// The decoded bytes of a file from `pos` to `end` may come to `out` for a
    /// store that has been through `past`.
    #[verifier::opaque]
    pub open spec fn may_file(
        self,
        past: Past,
        loc: LocView,
        pos: int,
        end: int,
        out: Seq<u8>,
    ) -> bool
        decreases end - pos,
    {
        if pos >= end {
            out.len() == 0
        } else {
            exists|b: Seq<u8>|
                {
                    let part = self.block_part(pos, end, b);
                    &&& #[trigger] self.block_begins(past, loc, pos, end, out, b)
                    &&& self.may_file(past, loc, pos + part, end, out.skip(part))
                }
        }
    }
}

// ---- how the relations come about -----------------------------------------

pub proof fn lemma_fetch<B: Backend>(s: Setup<B>, id: BlobId, reply: ReplyView<Seq<u8>>)
    requires
        s.index.has_blob(id),
        s.backend.may_read_all(s.index.blob(id).path, reply),
    ensures
        s.may_fetch(id, contents::bytes_of(s.index.blob(id), reply)),
        s.may_parse(id, contents::parsed_reply(s.index.blob(id), reply)),
{
    reveal(Setup::may_fetch);
    reveal(Setup::may_parse);
}

pub proof fn lemma_parent<B: Backend>(s: Setup<B>, id: BlobId, p: ParsedView)
    requires
        s.may_parse(id, Ok(p)),
    ensures
        s.may_parent(id, s.parent_from(id, p)),
{
    reveal(Setup::may_parent);
}

/// A way up from a blob, turned round, is a chain that ends at it.
pub proof fn lemma_turned_round<B: Backend>(s: Setup<B>, up: Seq<BlobId>, c: Seq<BlobId>)
    requires
        c.len() == up.len(),
        forall|k: int| 0 <= k < up.len() ==> #[trigger] c[k] == up[up.len() - 1 - k],
        forall|i: int| 0 < i < up.len() ==> s.may_parent(up[i - 1], Some(#[trigger] up[i])),
    ensures
        s.linked(c),
{
    reveal(Setup::linked);
    assert forall|i: int| 0 < i < c.len() implies s.may_parent(#[trigger] c[i], Some(c[i - 1])) by {
        let j = up.len() - i;
        assert(c[i] == up[j - 1]);
        assert(c[i - 1] == up[j]);
    }
}

pub proof fn lemma_begins<B: Backend>(s: Setup<B>, c: Seq<BlobId>, p: Option<BlobId>)
    requires
        s.may_parent(c[0], p),
        p matches Some(b) ==> c.contains(b) || c.len() > CHAIN_LIMIT,
    ensures
        s.begins(c),
{
    reveal(Setup::begins);
}

pub proof fn lemma_chain_parts<B: Backend>(s: Setup<B>, c: Seq<BlobId>, i: int)
    requires
        s.linked(c),
        0 <= i < c.len(),
    ensures
        s.reaches(c.last(), c[i]),
        s.begins(c) ==> s.may_begin(c[0]),
        i > 0 ==> s.may_parent(c[i], Some(c[i - 1])),
{
    reveal(Setup::linked);
    reveal(Setup::reaches);
    reveal(Setup::may_begin);
    let d = c.skip(i);
    assert forall|k: int| 0 < k < d.len() implies s.may_parent(#[trigger] d[k], Some(d[k - 1])) by {
        assert(s.may_parent(c[i + k], Some(c[i + k - 1])));
    }
    assert(s.linked(d));
    assert(d[0] == c[i]);
    assert(d.last() == c.last());
}

pub proof fn lemma_table<B: Backend>(s: Setup<B>, t: &FileTable, p: ParsedView)
    requires
        s.may_parse(t.blob, Ok(p)),
        t.holds(s.index, p),
        match t.parent {
            Some(parent) => s.may_parent(t.blob, Some(parent.blob)) && s.may_table(&parent),
            None => s.may_begin(t.blob),
        },
    ensures
        s.may_table(t),
{
    reveal(Setup::may_table);
}

pub proof fn lemma_locate<B: Backend>(s: Setup<B>, t: &FileTable, file_id: u32)
    requires
        s.may_table(t),
    ensures
        s.may_locate(t.blob, file_id, t.find(file_id)),
{
    reveal(Setup::may_locate);
}

pub proof fn lemma_file_layers<B: Backend>(
    s: Setup<B>,
    id: BlobId,
    before: RecentView<Arc<FileTable>>,
    chain: Seq<BlobId>,
    layers: Seq<Arc<FileTable>>,
    made: Option<Arc<FileTable>>,
)
    requires
        layers.len() <= chain.len(),
        chain.len() > 0 ==> s.may_chain(id, chain),
        made matches Some(t) ==> 0 < layers.len() == chain.len() && layers.last() == t,
    ensures
        s.may_file_layers(id, before, kept::after_layers(before, chain, layers), made),
{
    reveal(Setup::may_file_layers);
}

/// What a table has of a file is in order.
pub proof fn lemma_found_fits<B: Backend>(s: Setup<B>, t: &FileTable, file_id: u32)
    requires
        s.may_table(t),
        s.index.dats.len() <= u32::MAX,
    ensures
        t.find(file_id) matches Some(l) ==> l@.fits(s.index),
    decreases t,
{
    reveal(Setup::may_table);
    reveal(Setup::may_parse);
    let p = choose|p: ParsedView| #[trigger]
        s.may_parse(t.blob, Ok(p)) && t.holds(s.index, p);
    assert(t.holds_file(s.index, p, file_id));
    if t.own@.contains_key(file_id) {
        let b = s.index.blob(t.blob);
        crate::index::lemma_find_dat(s.index, b.depot, b.version, p.meta.dat_crc);
    } else {
        match &t.parent {
            Some(parent) => {
                lemma_found_fits(s, &**parent, file_id);
            },
            None => {},
        }
    }
}

/// Bytes that follow what has been stitched together so far can be stitched
/// on.
pub proof fn lemma_stitch_on<B: Backend>(
    s: Setup<B>,
    dat: DatId,
    pos: int,
    end: int,
    w: Seq<u8>,
    rest: Seq<u8>,
)
    requires
        0 <= pos < end,
        s.may_window(dat, window_no(pos), Ok(w)),
        s.window_part(pos, end, w) > 0,
        s.may_stitch(dat, pos + s.window_part(pos, end, w), end, rest),
    ensures
        s.may_stitch(
            dat,
            pos,
            end,
            w.subrange(window_at(pos), window_at(pos) + s.window_part(pos, end, w)) + rest,
        ),
{
    reveal(Setup::may_stitch);
    let part = s.window_part(pos, end, w);
    let at = window_at(pos);
    let head = w.subrange(at, at + part);
    let out = head + rest;
    assert(out.take(part) =~= head);
    assert(out.skip(part) =~= rest);
    assert(s.window_begins(dat, pos, end, out, w));
}

/// Where a window ends before `pos`, nothing follows.
pub proof fn lemma_stitch_ends<B: Backend>(s: Setup<B>, dat: DatId, pos: int, end: int, w: Seq<u8>)
    requires
        0 <= pos < end,
        s.may_window(dat, window_no(pos), Ok(w)),
        window_at(pos) >= w.len(),
    ensures
        s.may_stitch(dat, pos, end, Seq::empty()),
{
    reveal(Setup::may_stitch);
    assert(s.window_begins(dat, pos, end, Seq::empty(), w));
}

/// Nothing is stitched together of nothing.
pub proof fn lemma_stitch_nothing<B: Backend>(s: Setup<B>, dat: DatId, pos: int, end: int)
    requires
        pos >= end,
    ensures
        s.may_stitch(dat, pos, end, Seq::empty()),
{
    reveal(Setup::may_stitch);
}

pub proof fn lemma_stitch_fails<B: Backend>(
    s: Setup<B>,
    dat: DatId,
    start: int,
    pos: int,
    end: int,
    f: ReadFault,
)
    requires
        0 <= start <= pos < end,
        s.may_window(dat, window_no(pos), Err(f)),
    ensures
        s.may_stitch_fail(dat, start, end, f),
{
    reveal(Setup::may_stitch_fail);
}

/// A window is empty, or what the backend gives for it.
pub proof fn lemma_window<B: Backend>(s: Setup<B>, dat: DatId, n: int, r: Outcome<Seq<u8>>)
    requires
        ({
            let (start, len) = s.window(dat, n);
            if len == 0 {
                r == Ok::<Seq<u8>, ReadFault>(Seq::empty())
            } else {
                match r {
                    Ok(w) => s.backend.may_read_at(
                        s.index.dat(dat).path,
                        start as u64,
                        len as usize,
                        Ok(w),
                    ),
                    Err(f) => f matches ReadFault::Other(m) && s.backend.may_read_at(
                        s.index.dat(dat).path,
                        start as u64,
                        len as usize,
                        Err(m),
                    ),
                }
            }
        }),
    ensures
        s.may_window(dat, n, r),
{
    reveal(Setup::may_window);
}

pub proof fn lemma_resolve<B: Backend>(
    s: Setup<B>,
    past: Past,
    loc: LocView,
    i: int,
    sample: Sample,
)
    requires
        s.gives_sample(past, loc, i, sample),
    ensures
        s.may_resolve(
            past,
            loc.source,
            block::resolution(
                s.keys,
                s.key_search,
                s.index.blob(loc.source).depot,
                s.index.blob(loc.source).crc,
                sample,
            ),
        ),
{
    reveal(Setup::may_resolve);
}

/// A key that may be resolved so may be so later.
pub proof fn lemma_resolve_later<B: Backend>(
    s: Setup<B>,
    past: Past,
    later: Past,
    source: BlobId,
    r: KeyResolution,
)
    requires
        past.files.subset_of(later.files),
        s.may_resolve(past, source, r),
    ensures
        s.may_resolve(later, source, r),
{
    reveal(Setup::may_resolve);
    let b = s.index.blob(source);
    let (l, j, x) = choose|l: LocView, j: int, x: Sample| #[trigger]
        s.gives_sample(past, l, j, x) && l.source == source && r == block::resolution(
            s.keys,
            s.key_search,
            b.depot,
            b.crc,
            x,
        );
    assert(s.gives_sample(later, l, j, x));
}

/// Nothing is learned of nothing.
pub proof fn lemma_learn_nothing<B: Backend>(s: Setup<B>, past: Past, loc: LocView)
    ensures
        s.may_learn(past.keys, past, loc),
{
    reveal(Setup::may_learn);
}

/// What one more block teaches is no more than what one block does: once the
/// key is resolved it stays so.
pub proof fn lemma_learn_on<B: Backend>(
    s: Setup<B>,
    known: Map<u32, KeyResolution>,
    then: Past,
    after: Past,
    loc: LocView,
    i: int,
    raw: Seq<u8>,
)
    requires
        s.may_learn(known, then, loc),
        after.files == then.files.insert(loc),
        after.keys == s.known_after(then.keys, loc, i, raw),
        loc.fits(s.index),
        loc.dat is Some,
        0 <= i < loc.record.blocks.len(),
        s.may_stitch(loc.dat->0, loc.span(i).0 as int, loc.span(i).1 as int, raw),
    ensures
        s.may_learn(known, after, loc),
{
    reveal(Setup::may_learn);
    if then.keys != known {
        let (j, x) = choose|j: int, x: Sample| #[trigger]
            s.gives_sample(then, loc, j, x) && then.keys == s.known_after(known, loc, j, x.raw);
        assert(s.gives_sample(after, loc, j, x));
        assert(then.keys.contains_key(loc.source.0));
        assert(after.keys =~= then.keys);
    } else if loc.record.mode.encrypted() && raw.len() == loc.span(i).1 - loc.span(i).0 {
        assert(s.gives_sample(after, loc, i, s.sample(loc, i, raw)));
    }
}

/// Nor does a block that teaches nothing.
pub proof fn lemma_learn_still<B: Backend>(
    s: Setup<B>,
    known: Map<u32, KeyResolution>,
    then: Past,
    after: Past,
    loc: LocView,
)
    requires
        s.may_learn(known, then, loc),
        after.files == then.files.insert(loc),
        after.keys == then.keys,
    ensures
        s.may_learn(known, after, loc),
{
    reveal(Setup::may_learn);
    if then.keys != known {
        let (j, x) = choose|j: int, x: Sample| #[trigger]
            s.gives_sample(then, loc, j, x) && then.keys == s.known_after(known, loc, j, x.raw);
        assert(s.gives_sample(after, loc, j, x));
    }
}

pub proof fn lemma_miss_dat<B: Backend>(s: Setup<B>, source: BlobId, o: Outcome<ParsedView>)
    requires
        s.may_parse(source, o),
    ensures
        s.may_miss_dat(
            source,
            ReadFault::MissingDat {
                depot: s.index.blob(source).depot,
                version: s.index.blob(source).version,
                crc: match o {
                    Ok(p) => p.meta.dat_crc,
                    Err(_) => 0,
                },
            },
        ),
{
    reveal(Setup::may_miss_dat);
}

/// A block that was decoded may come to be what it was decoded as.
pub proof fn lemma_block<B: Backend>(
    s: Setup<B>,
    past: Past,
    loc: LocView,
    i: int,
    raw: Seq<u8>,
    known: Map<u32, KeyResolution>,
    out: Seq<u8>,
)
    requires
        past.files.contains(loc),
        loc.fits(s.index),
        loc.dat is Some,
        0 <= i < loc.record.blocks.len(),
        s.may_stitch(loc.dat->0, loc.span(i).0 as int, loc.span(i).1 as int, raw),
        known.contains_key(loc.source.0) ==> s.may_resolve(
            past,
            loc.source,
            known[loc.source.0],
        ),
        past.keys == s.known_after(known, loc, i, raw),
        s.block_outcome(loc, i, raw, known) == Ok::<Seq<u8>, ReadFault>(out),
    ensures
        s.may_block(past, loc.dat->0, loc.span(i).0, out),
{
    reveal(Setup::may_decode);
    reveal(Setup::may_block);
    assert(s.gives_sample(past, loc, i, s.sample(loc, i, raw)));
    lemma_resolve(s, past, loc, i, s.sample(loc, i, raw));
    let key = s.resolved_by(known, loc.source, s.sample(loc, i, raw));
    assert(s.uses_key(past, loc, key));
    assert(s.may_decode(past, loc, i, out));
}

pub proof fn lemma_covers(a: Past, b: Past, c: Past)
    requires
        b.covers(a),
        c.covers(b),
    ensures
        c.covers(a),
{
    assert forall|k: u32| #[trigger] a.keys.dom().contains(k) implies c.keys.dom().contains(k)
        && c.keys[k] == a.keys[k] by {
        assert(b.keys.dom().contains(k));
    }
}

/// What a store goes through later takes nothing away.
pub proof fn lemma_later<B: Backend>(
    s: Setup<B>,
    past: Past,
    later: Past,
    dat: DatId,
    start: u64,
    out: Seq<u8>,
)
    requires
        later.covers(past),
        s.may_block(past, dat, start, out),
    ensures
        s.may_block(later, dat, start, out),
{
    reveal(Setup::may_block);
    reveal(Setup::may_decode);
    let (l, j) = choose|l: LocView, j: int|
        {
            &&& #[trigger] s.may_decode(past, l, j, out)
            &&& past.files.contains(l)
            &&& l.fits(s.index)
            &&& l.dat == Some(dat)
            &&& 0 <= j < l.record.blocks.len()
            &&& l.span(j).0 == start
        };
    let (raw, key) = choose|raw: Seq<u8>, key: KeyResolution|
        {
            &&& #[trigger] s.may_stitch(l.dat->0, l.span(j).0 as int, l.span(j).1 as int, raw)
            &&& s.uses_key(past, l, key)
            &&& #[trigger] s.keyed_outcome(l, j, raw, key) == Ok::<Seq<u8>, ReadFault>(out)
        };
    if l.record.mode.encrypted() {
        assert(past.keys.dom().contains(l.source.0));
        assert(later.keys.dom().contains(l.source.0));
        lemma_resolve_later(s, past, later, l.source, key);
    }
    assert(s.uses_key(later, l, key));
    assert(s.may_decode(later, l, j, out));
    assert(later.files.contains(l));
}

pub proof fn lemma_block_fails<B: Backend>(
    s: Setup<B>,
    past: Past,
    loc: LocView,
    i: int,
    f: ReadFault,
)
    requires
        match loc.dat {
            None => s.may_miss_dat(loc.source, f),
            Some(d) => (i >= loc.record.blocks.len() && f == loc.no_such_block(i))
                || s.may_stitch_fail(d, loc.span(i).0 as int, loc.span(i).1 as int, f),
        },
    ensures
        s.may_block_fail(past, loc, i, f),
{
    reveal(Setup::may_block_fail);
}

pub proof fn lemma_decode_fails<B: Backend>(
    s: Setup<B>,
    past: Past,
    loc: LocView,
    i: int,
    raw: Seq<u8>,
    known: Map<u32, KeyResolution>,
    f: ReadFault,
)
    requires
        past.files.contains(loc),
        loc.fits(s.index),
        loc.dat is Some,
        0 <= i < loc.record.blocks.len(),
        s.may_stitch(loc.dat->0, loc.span(i).0 as int, loc.span(i).1 as int, raw),
        known.contains_key(loc.source.0) ==> s.may_resolve(
            past,
            loc.source,
            known[loc.source.0],
        ),
        past.keys == s.known_after(known, loc, i, raw),
        s.block_outcome(loc, i, raw, known) == Err::<Seq<u8>, ReadFault>(f),
    ensures
        s.may_block_fail(past, loc, i, f),
{
    reveal(Setup::may_block_fail);
    let sample = s.sample(loc, i, raw);
    let key = s.resolved_by(known, loc.source, sample);
    if raw.len() == loc.span(i).1 - loc.span(i).0 {
        assert(s.gives_sample(past, loc, i, sample));
        lemma_resolve(s, past, loc, i, sample);
        assert(s.uses_key(past, loc, key));
    }
    assert(s.keyed_outcome(loc, i, raw, key) == Err::<Seq<u8>, ReadFault>(f));
    assert(s.may_decode_fail(past, loc, i, f));
}

/// A block that could not be had may not be had later for the same reason.
pub proof fn lemma_fails_later<B: Backend>(
    s: Setup<B>,
    past: Past,
    later: Past,
    loc: LocView,
    i: int,
    f: ReadFault,
)
    requires
        later.covers(past),
        s.may_block_fail(past, loc, i, f),
    ensures
        s.may_block_fail(later, loc, i, f),
{
    reveal(Setup::may_block_fail);
    if s.may_decode_fail(past, loc, i, f) {
        let (raw, key) = choose|raw: Seq<u8>, key: KeyResolution|
            {
                &&& #[trigger] s.may_stitch(
                    loc.dat->0,
                    loc.span(i).0 as int,
                    loc.span(i).1 as int,
                    raw,
                )
                &&& raw.len() == loc.span(i).1 - loc.span(i).0 ==> s.uses_key(past, loc, key)
                &&& #[trigger] s.keyed_outcome(loc, i, raw, key) == Err::<Seq<u8>, ReadFault>(f)
            };
        if raw.len() == loc.span(i).1 - loc.span(i).0 && loc.record.mode.encrypted() {
            assert(past.keys.dom().contains(loc.source.0));
            assert(later.keys.dom().contains(loc.source.0));
            lemma_resolve_later(s, past, later, loc.source, key);
        }
        assert(raw.len() == loc.span(i).1 - loc.span(i).0 ==> s.uses_key(later, loc, key));
        assert(s.may_decode_fail(later, loc, i, f));
    }
}

/// Bytes that follow what has been read so far can be read on.
pub proof fn lemma_read_on<B: Backend>(
    s: Setup<B>,
    past: Past,
    loc: LocView,
    pos: int,
    end: int,
    b: Seq<u8>,
    rest: Seq<u8>,
)
    requires
        0 <= pos < end,
        0 <= block_no(pos) < loc.record.blocks.len(),
        s.may_block(past, loc.dat->0, loc.span(block_no(pos)).0, b),
        in_block(pos) < b.len(),
        s.may_file(past, loc, pos + s.block_part(pos, end, b), end, rest),
    ensures
        s.may_file(
            past,
            loc,
            pos,
            end,
            b.subrange(in_block(pos), in_block(pos) + s.block_part(pos, end, b)) + rest,
        ),
{
    reveal(Setup::may_file);
    let part = s.block_part(pos, end, b);
    let at = in_block(pos);
    let head = b.subrange(at, at + part);
    let out = head + rest;
    assert(out.take(part) =~= head);
    assert(out.skip(part) =~= rest);
    assert(s.block_begins(past, loc, pos, end, out, b));
}

pub proof fn lemma_read_fails<B: Backend>(
    s: Setup<B>,
    past: Past,
    loc: LocView,
    start: int,
    pos: int,
    end: int,
    f: ReadFault,
)
    requires
        0 <= start <= pos < end,
        s.may_fail_at(past, loc, block_no(pos), f),
    ensures
        s.may_read_fail(past, loc, start, end, f),
{
    reveal(Setup::may_read_fail);
}

/// Nothing is read of nothing.
pub proof fn lemma_read_nothing<B: Backend>(
    s: Setup<B>,
    past: Past,
    loc: LocView,
    pos: int,
    end: int,
)
    requires
        pos >= end,
    ensures
        s.may_file(past, loc, pos, end, Seq::empty()),
{
    reveal(Setup::may_file);
}

// ---- laws -----------------------------------------------------------------

/// A backend that always answers the same.
pub open spec fn steady<B: Backend>(b: B) -> bool {
    &&& forall|rel: Seq<char>, x: ReplyView<Seq<u8>>, y: ReplyView<Seq<u8>>|
        #![trigger b.may_read_all(rel, x), b.may_read_all(rel, y)]
        b.may_read_all(rel, x) && b.may_read_all(rel, y) ==> x == y
    &&& forall|
        rel: Seq<char>,
        offset: u64,
        len: usize,
        x: ReplyView<Seq<u8>>,
        y: ReplyView<Seq<u8>>,
    |
        #![trigger b.may_read_at(rel, offset, len, x), b.may_read_at(rel, offset, len, y)]
        b.may_read_at(rel, offset, len, x) && b.may_read_at(rel, offset, len, y) ==> x == y
}

/// Over a steady backend, a blob always parses the same, and always has the
/// same parent.
pub proof fn law_steady_blobs<B: Backend>(s: Setup<B>, id: BlobId, x: Outcome<ParsedView>, y: Outcome<
    ParsedView,
>)
    requires
        steady(s.backend),
        s.may_parse(id, x),
        s.may_parse(id, y),
    ensures
        x == y,
        forall|p: Option<BlobId>| #[trigger]
            s.may_parent(id, p) ==> (x matches Ok(v) && p == s.parent_from(id, v)),
{
    reveal(Setup::may_parent);
    lemma_steady_parse(s, id, x, y);
    assert forall|p: Option<BlobId>| #[trigger] s.may_parent(id, p) implies (x matches Ok(v) && p
        == s.parent_from(id, v)) by {
        let v = choose|v: ParsedView| #[trigger]
            s.may_parse(id, Ok(v)) && p == s.parent_from(id, v);
        lemma_steady_parse(s, id, x, Ok(v));
    }
}

proof fn lemma_steady_parse<B: Backend>(
    s: Setup<B>,
    id: BlobId,
    x: Outcome<ParsedView>,
    y: Outcome<ParsedView>,
)
    requires
        steady(s.backend),
        s.may_parse(id, x),
        s.may_parse(id, y),
    ensures
        x == y,
{
    reveal(Setup::may_parse);
}

/// Over a steady backend, stored bytes are always the same.
pub proof fn law_steady_stored_bytes<B: Backend>(
    s: Setup<B>,
    dat: DatId,
    pos: int,
    end: int,
    x: Seq<u8>,
    y: Seq<u8>,
)
    requires
        steady(s.backend),
        0 <= pos,
        s.may_stitch(dat, pos, end, x),
        s.may_stitch(dat, pos, end, y),
    ensures
        x == y,
    decreases end - pos,
{
    reveal(Setup::may_stitch);
    reveal(Setup::may_window);
    if pos >= end {
        assert(x =~= y);
    } else {
        let a = choose|w: Seq<u8>|
            {
                let part = s.window_part(pos, end, w);
                &&& #[trigger] s.window_begins(dat, pos, end, x, w)
                &&& if part > 0 {
                    s.may_stitch(dat, pos + part, end, x.skip(part))
                } else {
                    x.len() == 0
                }
            };
        let b = choose|w: Seq<u8>|
            {
                let part = s.window_part(pos, end, w);
                &&& #[trigger] s.window_begins(dat, pos, end, y, w)
                &&& if part > 0 {
                    s.may_stitch(dat, pos + part, end, y.skip(part))
                } else {
                    y.len() == 0
                }
            };
        assert(s.may_window(dat, window_no(pos), Ok(a)));
        assert(s.may_window(dat, window_no(pos), Ok(b)));
        assert(a == b);
        let part = s.window_part(pos, end, a);
        if part == 0 {
            assert(x =~= y);
        } else {
            law_steady_stored_bytes(s, dat, pos + part, end, x.skip(part), y.skip(part));
            assert(x =~= x.take(part) + x.skip(part));
            assert(y =~= y.take(part) + y.skip(part));
        }
    }
}

/// What is read of a file is as long as what was asked for.
pub proof fn law_reads_are_whole<B: Backend>(
    s: Setup<B>,
    past: Past,
    loc: LocView,
    pos: int,
    end: int,
    out: Seq<u8>,
)
    requires
        0 <= pos <= end,
        s.may_file(past, loc, pos, end, out),
    ensures
        out.len() == end - pos,
    decreases end - pos,
{
    reveal(Setup::may_file);
    if pos < end {
        let b = choose|b: Seq<u8>|
            {
                let part = s.block_part(pos, end, b);
                &&& #[trigger] s.block_begins(past, loc, pos, end, out, b)
                &&& s.may_file(past, loc, pos + part, end, out.skip(part))
            };
        let part = s.block_part(pos, end, b);
        law_reads_are_whole(s, past, loc, pos + part, end, out.skip(part));
    }
}

/// Each block of a file has one content.
pub open spec fn one_content<B: Backend>(s: Setup<B>, past: Past, loc: LocView) -> bool {
    forall|i: int, x: Seq<u8>, y: Seq<u8>|
        #![trigger s.may_block(past, loc.dat->0, loc.span(i).0, x), s.may_block(past, loc.dat->0, loc.span(i).0, y)]
        0 <= i < loc.record.blocks.len() && s.may_block(past, loc.dat->0, loc.span(i).0, x)
            && s.may_block(past, loc.dat->0, loc.span(i).0, y) ==> x == y
}

/// Every byte of a read is the one at its place in its block.
pub proof fn lemma_read_bytes<B: Backend>(
    s: Setup<B>,
    past: Past,
    loc: LocView,
    pos: int,
    end: int,
    out: Seq<u8>,
    k: int,
)
    requires
        0 <= pos <= end,
        s.may_file(past, loc, pos, end, out),
        0 <= k < end - pos,
    ensures
        ({
            let i = block_no(pos + k);
            &&& 0 <= i < loc.record.blocks.len()
            &&& exists|b: Seq<u8>| #[trigger]
                s.may_block(past, loc.dat->0, loc.span(i).0, b) && in_block(pos + k)
                    < b.len() && out[k] == b[in_block(pos + k)]
        }),
    decreases end - pos,
{
    reveal(Setup::may_file);
    let b = choose|b: Seq<u8>|
        {
            let part = s.block_part(pos, end, b);
            &&& #[trigger] s.block_begins(past, loc, pos, end, out, b)
            &&& s.may_file(past, loc, pos + part, end, out.skip(part))
        };
    let at = in_block(pos);
    let part = s.block_part(pos, end, b);
    law_reads_are_whole(s, past, loc, pos, end, out);
    if k < part {
        lemma_block_length(s, past, loc, block_no(pos), b);
        lemma_same_block(pos, k);
        assert(out.take(part)[k] == out[k]);
        assert(out[k] == b[at + k]);
        assert(s.may_block(past, loc.dat->0, loc.span(block_no(pos + k)).0, b));
    } else {
        lemma_read_bytes(s, past, loc, pos + part, end, out.skip(part), k - part);
        assert(out.skip(part)[k - part] == out[k]);
        assert(pos + part + (k - part) == pos + k);
    }
}

proof fn lemma_same_block(pos: int, k: int)
    requires
        0 <= pos,
        0 <= k,
        in_block(pos) + k < BLOCK_SIZE,
    ensures
        block_no(pos + k) == block_no(pos),
        in_block(pos + k) == in_block(pos) + k,
{
}

/// A block is never longer than `BLOCK_SIZE`.
proof fn lemma_block_length<B: Backend>(
    s: Setup<B>,
    past: Past,
    loc: LocView,
    i: int,
    b: Seq<u8>,
)
    requires
        s.may_block(past, loc.dat->0, loc.span(i).0, b),
    ensures
        b.len() <= BLOCK_SIZE,
{
    reveal(Setup::may_block);
    reveal(Setup::may_decode);
    let (l, j) = choose|l: LocView, j: int|
        {
            &&& #[trigger] s.may_decode(past, l, j, b)
            &&& past.files.contains(l)
            &&& l.fits(s.index)
            &&& l.dat == Some(loc.dat->0)
            &&& 0 <= j < l.record.blocks.len()
            &&& l.span(j).0 == loc.span(i).0
        };
    let (raw, key) = choose|raw: Seq<u8>, key: KeyResolution|
        {
            &&& #[trigger] s.may_stitch(l.dat->0, l.span(j).0 as int, l.span(j).1 as int, raw)
            &&& s.uses_key(past, l, key)
            &&& #[trigger] s.keyed_outcome(l, j, raw, key) == Ok::<Seq<u8>, ReadFault>(b)
        };
    block::law_served_block(
        l.record,
        j,
        (l.span(j).1 - l.span(j).0) as u64,
        raw,
        key,
        s.index.blob(l.source).depot,
        s.index.blob(l.source).crc,
        s.verify,
    );
}

/// Whatever file that was asked for has a block where this one has block `i`
/// stores the same there: as much, in the same mode, and, where that takes a
/// key, for the same blob.
pub open spec fn agreed(past: Past, loc: LocView, i: int) -> bool {
    forall|l: LocView, j: int|
        #![trigger past.files.contains(l), l.span(j)]
        past.files.contains(l) && l.dat == loc.dat && 0 <= j < l.record.blocks.len() && l.span(j).0
            == loc.span(i).0 ==> {
            &&& l.span(j).1 == loc.span(i).1
            &&& l.record.mode == loc.record.mode
            &&& loc.record.mode.encrypted() ==> l.source == loc.source
        }
}

/// Over a steady backend, each block of a file has one content, where no other
/// file that was asked for stores something else in its place.
pub proof fn law_steady_content<B: Backend>(s: Setup<B>, past: Past, loc: LocView)
    requires
        steady(s.backend),
        loc.dat is Some,
        forall|i: int| 0 <= i < loc.record.blocks.len() ==> #[trigger] agreed(past, loc, i),
    ensures
        one_content(s, past, loc),
{
    assert forall|i: int, x: Seq<u8>, y: Seq<u8>|
        #![trigger s.may_block(past, loc.dat->0, loc.span(i).0, x), s.may_block(past, loc.dat->0, loc.span(i).0, y)]
        0 <= i < loc.record.blocks.len() && s.may_block(past, loc.dat->0, loc.span(i).0, x)
            && s.may_block(past, loc.dat->0, loc.span(i).0, y) implies x == y by {
        assert(agreed(past, loc, i));
        let (start, end) = (loc.span(i).0 as int, loc.span(i).1 as int);
        let mode = loc.record.mode;
        let key = key_used(past, loc);
        lemma_agreed_block(s, past, loc, i, x);
        lemma_agreed_block(s, past, loc, i, y);
        let a = choose|raw: Seq<u8>| #[trigger]
            s.may_stitch(loc.dat->0, start, end, raw) && chunk::decoded(mode, raw, key) == Ok::<
                Seq<u8>,
                Fault,
            >(x);
        let b = choose|raw: Seq<u8>| #[trigger]
            s.may_stitch(loc.dat->0, start, end, raw) && chunk::decoded(mode, raw, key) == Ok::<
                Seq<u8>,
                Fault,
            >(y);
        law_steady_stored_bytes(s, loc.dat->0, start, end, a, b);
    }
}

/// The key that a file is decoded with, where it needs one.
spec fn key_used(past: Past, loc: LocView) -> Option<Seq<u8>> {
    if loc.record.mode.encrypted() {
        match past.keys[loc.source.0] {
            KeyResolution::Configured(k) => Some(k@),
            KeyResolution::Discovered(k, _) => Some(k@),
            KeyResolution::Nothing { .. } => None,
        }
    } else {
        None
    }
}

/// A block that may be had in the place of block `i` is what is stored there,
/// decoded.
proof fn lemma_agreed_block<B: Backend>(
    s: Setup<B>,
    past: Past,
    loc: LocView,
    i: int,
    x: Seq<u8>,
)
    requires
        0 <= i < loc.record.blocks.len(),
        loc.dat is Some,
        agreed(past, loc, i),
        s.may_block(past, loc.dat->0, loc.span(i).0, x),
    ensures
        exists|raw: Seq<u8>| #[trigger]
            s.may_stitch(loc.dat->0, loc.span(i).0 as int, loc.span(i).1 as int, raw)
                && chunk::decoded(loc.record.mode, raw, key_used(past, loc)) == Ok::<
                Seq<u8>,
                Fault,
            >(x),
{
    reveal(Setup::may_block);
    reveal(Setup::may_decode);
    let (l, j) = choose|l: LocView, j: int|
        {
            &&& #[trigger] s.may_decode(past, l, j, x)
            &&& past.files.contains(l)
            &&& l.fits(s.index)
            &&& l.dat == Some(loc.dat->0)
            &&& 0 <= j < l.record.blocks.len()
            &&& l.span(j).0 == loc.span(i).0
        };
    assert(past.files.contains(l) && l.span(j).0 == loc.span(i).0);
    let (raw, key) = choose|raw: Seq<u8>, key: KeyResolution|
        {
            &&& #[trigger] s.may_stitch(l.dat->0, l.span(j).0 as int, l.span(j).1 as int, raw)
            &&& s.uses_key(past, l, key)
            &&& #[trigger] s.keyed_outcome(l, j, raw, key) == Ok::<Seq<u8>, ReadFault>(x)
        };
    assert(s.may_stitch(loc.dat->0, loc.span(i).0 as int, loc.span(i).1 as int, raw));
}

/// A file's bytes are the same read whole or in pieces, as long as each of its
/// blocks has one content.
pub proof fn law_reads_are_stable_across_offsets<B: Backend>(
    s: Setup<B>,
    past: Past,
    loc: LocView,
    start: int,
    middle: int,
    end: int,
    whole: Seq<u8>,
    head: Seq<u8>,
    tail: Seq<u8>,
)
    requires
        one_content(s, past, loc),
        0 <= start <= middle <= end,
        s.may_file(past, loc, start, end, whole),
        s.may_file(past, loc, start, middle, head),
        s.may_file(past, loc, middle, end, tail),
    ensures
        whole == head + tail,
{
    law_reads_are_whole(s, past, loc, start, end, whole);
    law_reads_are_whole(s, past, loc, start, middle, head);
    law_reads_are_whole(s, past, loc, middle, end, tail);
    assert forall|k: int| 0 <= k < whole.len() implies whole[k] == (head + tail)[k] by {
        let i = block_no(start + k);
        lemma_read_bytes(s, past, loc, start, end, whole, k);
        let a = choose|b: Seq<u8>| #[trigger]
            s.may_block(past, loc.dat->0, loc.span(i).0, b) && in_block(start + k) < b.len()
                && whole[k] == b[in_block(start + k)];
        if k < head.len() {
            lemma_read_bytes(s, past, loc, start, middle, head, k);
            let b = choose|b: Seq<u8>| #[trigger]
                s.may_block(past, loc.dat->0, loc.span(i).0, b) && in_block(start + k)
                    < b.len() && head[k] == b[in_block(start + k)];
            assert(a == b);
        } else {
            let j = k - head.len();
            lemma_read_bytes(s, past, loc, middle, end, tail, j);
            assert(middle + j == start + k);
            let b = choose|b: Seq<u8>| #[trigger]
                s.may_block(past, loc.dat->0, loc.span(i).0, b) && in_block(start + k)
                    < b.len() && tail[j] == b[in_block(start + k)];
            assert(a == b);
        }
    }
    assert(whole =~= head + tail);
}

/// What has been read once may be read so later, whatever the store goes
/// through in between.
pub proof fn law_reads_stay_true<B: Backend>(
    s: Setup<B>,
    past: Past,
    later: Past,
    loc: LocView,
    pos: int,
    end: int,
    out: Seq<u8>,
)
    requires
        later.covers(past),
        s.may_file(past, loc, pos, end, out),
        0 <= pos,
    ensures
        s.may_file(later, loc, pos, end, out),
    decreases end - pos,
{
    reveal(Setup::may_file);
    if pos < end {
        let b = choose|b: Seq<u8>|
            {
                let part = s.block_part(pos, end, b);
                &&& #[trigger] s.block_begins(past, loc, pos, end, out, b)
                &&& s.may_file(past, loc, pos + part, end, out.skip(part))
            };
        let part = s.block_part(pos, end, b);
        lemma_later(s, past, later, loc.dat->0, loc.span(block_no(pos)).0, b);
        law_reads_stay_true(s, past, later, loc, pos + part, end, out.skip(part));
        assert(s.block_begins(later, loc, pos, end, out, b));
    }
}

/// Over a steady backend, reads of a file one after the other, whole and in
/// pieces, give the same bytes, whatever else is read in between, as long as no
/// other file that was asked for stores something else in its place.
pub proof fn law_one_after_the_other<B: Backend>(
    s: Setup<B>,
    first: Past,
    second: Past,
    third: Past,
    loc: LocView,
    start: int,
    middle: int,
    end: int,
    whole: Seq<u8>,
    head: Seq<u8>,
    tail: Seq<u8>,
)
    requires
        steady(s.backend),
        loc.dat is Some,
        second.covers(first),
        third.covers(second),
        forall|i: int| 0 <= i < loc.record.blocks.len() ==> #[trigger] agreed(third, loc, i),
        0 <= start <= middle <= end,
        s.may_file(first, loc, start, end, whole),
        s.may_file(second, loc, start, middle, head),
        s.may_file(third, loc, middle, end, tail),
    ensures
        whole == head + tail,
{
    lemma_covers(first, second, third);
    law_reads_stay_true(s, first, third, loc, start, end, whole);
    law_reads_stay_true(s, second, third, loc, start, middle, head);
    law_steady_content(s, third, loc);
    law_reads_are_stable_across_offsets(s, third, loc, start, middle, end, whole, head, tail);
}

/// A read and the read that goes on from where it ends make up one read, as
/// long as each block of the file has one content.
pub proof fn law_parts_join<B: Backend>(
    s: Setup<B>,
    past: Past,
    loc: LocView,
    start: int,
    middle: int,
    end: int,
    head: Seq<u8>,
    tail: Seq<u8>,
)
    requires
        one_content(s, past, loc),
        0 <= start <= middle <= end,
        s.may_file(past, loc, start, middle, head),
        s.may_file(past, loc, middle, end, tail),
    ensures
        s.may_file(past, loc, start, end, head + tail),
    decreases middle - start,
{
    reveal(Setup::may_file);
    law_reads_are_whole(s, past, loc, start, middle, head);
    law_reads_are_whole(s, past, loc, middle, end, tail);
    if start == middle {
        assert(head + tail =~= tail);
    } else if middle == end {
        assert(head + tail =~= head);
    } else {
        let b = choose|b: Seq<u8>|
            {
                let part = s.block_part(start, middle, b);
                &&& #[trigger] s.block_begins(past, loc, start, middle, head, b)
                &&& s.may_file(past, loc, start + part, middle, head.skip(part))
            };
        let at = in_block(start);
        let part = s.block_part(start, middle, b);
        let most = s.block_part(start, end, b);
        lemma_block_length(s, past, loc, block_no(start), b);
        if most == part {
            law_parts_join(s, past, loc, start + part, middle, end, head.skip(part), tail);
            lemma_read_on(s, past, loc, start, end, b, head.skip(part) + tail);
            assert(head =~= head.take(part) + head.skip(part));
            assert(head + tail =~= b.subrange(at, at + most) + (head.skip(part) + tail));
        } else {
            // The block goes on beyond the middle.
            lemma_same_block(start, part);
            let c = choose|c: Seq<u8>|
                {
                    let more = s.block_part(middle, end, c);
                    &&& #[trigger] s.block_begins(past, loc, middle, end, tail, c)
                    &&& s.may_file(past, loc, middle + more, end, tail.skip(more))
                };
            assert(s.may_block(past, loc.dat->0, loc.span(block_no(start)).0, c));
            assert(b == c);
            let more = s.block_part(middle, end, b);
            lemma_read_on(s, past, loc, start, end, b, tail.skip(more));
            assert(head =~= head.take(part));
            assert(tail =~= tail.take(more) + tail.skip(more));
            assert(head + tail =~= b.subrange(at, at + most) + tail.skip(more));
        }
    }
}

/// Over a steady backend, a read of a file and the read that goes on from where
/// it ended give what a read of both at once may give, whatever else was read
/// in between, as long as no other file that was asked for stores something
/// else in its place.
pub proof fn law_one_read_may_follow_another<B: Backend>(
    s: Setup<B>,
    first: Past,
    second: Past,
    third: Past,
    loc: LocView,
    start: int,
    middle: int,
    end: int,
    head: Seq<u8>,
    tail: Seq<u8>,
)
    requires
        steady(s.backend),
        loc.dat is Some,
        second.covers(first),
        third.covers(second),
        forall|i: int| 0 <= i < loc.record.blocks.len() ==> #[trigger] agreed(third, loc, i),
        0 <= start <= middle <= end,
        s.may_file(first, loc, start, middle, head),
        s.may_file(second, loc, middle, end, tail),
    ensures
        s.may_file(third, loc, start, end, head + tail),
        (head + tail).len() == end - start,
        forall|out: Seq<u8>| #[trigger]
            s.may_file(third, loc, start, end, out) ==> out == head + tail,
{
    lemma_covers(first, second, third);
    law_reads_stay_true(s, first, third, loc, start, middle, head);
    law_reads_stay_true(s, second, third, loc, middle, end, tail);
    law_steady_content(s, third, loc);
    law_parts_join(s, third, loc, start, middle, end, head, tail);
    law_reads_are_whole(s, third, loc, start, end, head + tail);
    assert forall|out: Seq<u8>| #[trigger] s.may_file(third, loc, start, end, out) implies out
        == head + tail by {
        law_reads_are_stable_across_offsets(s, third, loc, start, middle, end, out, head, tail);
    }
}

/// A backend that never answers with more than it was asked for.
pub open spec fn measured<B: Backend>(b: B) -> bool {
    forall|rel: Seq<char>, offset: u64, len: usize, w: Seq<u8>| #[trigger]
        b.may_read_at(rel, offset, len, Ok(w)) ==> w.len() <= len
}

/// Whatever file that was asked for has a block where this one has block `i`
/// has the same block there: stored alike, as long, and with the same checksum.
pub open spec fn alike(past: Past, loc: LocView, i: int) -> bool {
    &&& agreed(past, loc, i)
    &&& forall|l: LocView, j: int|
        #![trigger past.files.contains(l), l.span(j)]
        past.files.contains(l) && l.dat == loc.dat && 0 <= j < l.record.blocks.len() && l.span(j).0
            == loc.span(i).0 ==> {
            &&& l.record.range(j).1 - l.record.range(j).0 == loc.record.range(i).1
                - loc.record.range(i).0
            &&& l.record.blocks[j].checksum == loc.record.blocks[i].checksum
        }
}

/// Where all of some stored bytes can be had, so can every window of them.
proof fn lemma_stitched_windows<B: Backend>(
    s: Setup<B>,
    dat: DatId,
    pos: int,
    end: int,
    out: Seq<u8>,
    n: int,
)
    requires
        measured(s.backend),
        0 <= pos,
        s.may_stitch(dat, pos, end, out),
        out.len() == end - pos,
        window_no(pos) <= n,
        n * RAW_WINDOW < end,
        pos < end,
    ensures
        exists|w: Seq<u8>| #[trigger] s.may_window(dat, n, Ok(w)),
    decreases end - pos,
{
    reveal(Setup::may_stitch);
    let w = choose|w: Seq<u8>|
        {
            let part = s.window_part(pos, end, w);
            &&& #[trigger] s.window_begins(dat, pos, end, out, w)
            &&& if part > 0 {
                s.may_stitch(dat, pos + part, end, out.skip(part))
            } else {
                out.len() == 0
            }
        };
    assert(s.may_window(dat, window_no(pos), Ok(w)));
    if n > window_no(pos) {
        let part = s.window_part(pos, end, w);
        lemma_window_length(s, dat, window_no(pos), w);
        lemma_stitched_windows(s, dat, pos + part, end, out.skip(part), n);
    }
}

proof fn lemma_window_length<B: Backend>(s: Setup<B>, dat: DatId, n: int, w: Seq<u8>)
    requires
        measured(s.backend),
        s.may_window(dat, n, Ok(w)),
    ensures
        w.len() <= RAW_WINDOW,
{
    reveal(Setup::may_window);
}

/// Over a steady backend, stored bytes that can be had whole never fail to be
/// read.
proof fn lemma_never_fails_to_stitch<B: Backend>(
    s: Setup<B>,
    dat: DatId,
    pos: int,
    end: int,
    out: Seq<u8>,
    f: ReadFault,
)
    requires
        steady(s.backend),
        measured(s.backend),
        0 <= pos < end,
        s.may_stitch(dat, pos, end, out),
        out.len() == end - pos,
    ensures
        !s.may_stitch_fail(dat, pos, end, f),
{
    reveal(Setup::may_stitch_fail);
    if s.may_stitch_fail(dat, pos, end, f) {
        let n = choose|n: int| #[trigger]
            s.may_window(dat, n, Err(f)) && window_no(pos) <= n && n * RAW_WINDOW < end;
        lemma_stitched_windows(s, dat, pos, end, out, n);
        reveal(Setup::may_window);
    }
}

/// What may stand in the place of block `i` is block `i`.
pub proof fn lemma_alike_block<B: Backend>(
    s: Setup<B>,
    past: Past,
    loc: LocView,
    i: int,
    b: Seq<u8>,
) -> (r: (Seq<u8>, KeyResolution))
    requires
        0 <= i < loc.record.blocks.len(),
        loc.dat is Some,
        alike(past, loc, i),
        s.may_block(past, loc.dat->0, loc.span(i).0, b),
    ensures
        s.may_stitch(loc.dat->0, loc.span(i).0 as int, loc.span(i).1 as int, r.0),
        r.0.len() == loc.span(i).1 - loc.span(i).0,
        loc.record.mode.encrypted() ==> past.keys.contains_key(loc.source.0)
            && past.keys[loc.source.0] == r.1,
        s.keyed_outcome(loc, i, r.0, r.1) == Ok::<Seq<u8>, ReadFault>(b),
        b.len() == loc.record.range(i).1 - loc.record.range(i).0,
{
    reveal(Setup::may_block);
    reveal(Setup::may_decode);
    let (l, j) = choose|l: LocView, j: int|
        {
            &&& #[trigger] s.may_decode(past, l, j, b)
            &&& past.files.contains(l)
            &&& l.fits(s.index)
            &&& l.dat == Some(loc.dat->0)
            &&& 0 <= j < l.record.blocks.len()
            &&& l.span(j).0 == loc.span(i).0
        };
    assert(past.files.contains(l) && l.span(j).0 == loc.span(i).0);
    let (raw, key) = choose|raw: Seq<u8>, key: KeyResolution|
        {
            &&& #[trigger] s.may_stitch(l.dat->0, l.span(j).0 as int, l.span(j).1 as int, raw)
            &&& s.uses_key(past, l, key)
            &&& #[trigger] s.keyed_outcome(l, j, raw, key) == Ok::<Seq<u8>, ReadFault>(b)
        };
    (raw, key)
}

/// Over a steady backend, a block that can be had never fails to be.
proof fn lemma_never_fails<B: Backend>(
    s: Setup<B>,
    past: Past,
    loc: LocView,
    i: int,
    b: Seq<u8>,
    f: ReadFault,
)
    requires
        steady(s.backend),
        measured(s.backend),
        loc.dat is Some,
        0 <= i < loc.record.blocks.len(),
        alike(past, loc, i),
        s.may_block(past, loc.dat->0, loc.span(i).0, b),
    ensures
        !s.may_fail_at(past, loc, i, f),
{
    reveal(Setup::may_block_fail);
    let (start, end) = (loc.span(i).0 as int, loc.span(i).1 as int);
    let dat = loc.dat->0;
    let (raw, key) = lemma_alike_block(s, past, loc, i, b);
    if start < end {
        lemma_never_fails_to_stitch(s, dat, start, end, raw, f);
    } else {
        reveal(Setup::may_stitch_fail);
    }
    if s.may_decode_fail(past, loc, i, f) {
        let (x, k) = choose|x: Seq<u8>, k: KeyResolution|
            {
                &&& #[trigger] s.may_stitch(dat, start, end, x)
                &&& x.len() == loc.span(i).1 - loc.span(i).0 ==> s.uses_key(past, loc, k)
                &&& #[trigger] s.keyed_outcome(loc, i, x, k) == Err::<Seq<u8>, ReadFault>(f)
            };
        law_steady_stored_bytes(s, dat, start, end, x, raw);
        assert(s.keyed_outcome(loc, i, raw, k) == s.keyed_outcome(loc, i, raw, key));
    }
    if s.may_clash(past, loc, i) {
        let c = choose|c: Seq<u8>| #[trigger]
            s.may_block(past, dat, loc.span(i).0, c) && c.len() < loc.record.range(i).1
                - loc.record.range(i).0;
        let _ = lemma_alike_block(s, past, loc, i, c);
    }
}

/// Over a steady backend that answers no more than it is asked for: where a
/// read of a file has succeeded, and then a read that goes on from where it
/// ended, a read of both at once succeeds, and gives what the two gave, one
/// behind the other; whatever else was read in between, as long as every other
/// file that was asked for has the same blocks where it has any in their
/// place.
pub proof fn law_parts_make_the_whole<B: Backend>(
    s: Setup<B>,
    first: Past,
    second: Past,
    third: Past,
    loc: LocView,
    start: int,
    middle: int,
    end: int,
    head: Seq<u8>,
    tail: Seq<u8>,
)
    requires
        steady(s.backend),
        measured(s.backend),
        loc.dat is Some,
        second.covers(first),
        third.covers(second),
        forall|i: int| 0 <= i < loc.record.blocks.len() ==> #[trigger] alike(third, loc, i),
        0 <= start <= middle <= end,
        s.may_file(first, loc, start, middle, head),
        s.may_file(second, loc, middle, end, tail),
    ensures
        s.may_file(third, loc, start, end, head + tail),
        (head + tail).len() == end - start,
        forall|out: Seq<u8>| #[trigger]
            s.may_file(third, loc, start, end, out) ==> out == head + tail,
        forall|f: ReadFault| !#[trigger] s.may_read_fail(third, loc, start, end, f),
{
    assert forall|i: int| 0 <= i < loc.record.blocks.len() implies #[trigger] agreed(
        third,
        loc,
        i,
    ) by {
        assert(alike(third, loc, i));
    }
    law_one_read_may_follow_another(
        s,
        first,
        second,
        third,
        loc,
        start,
        middle,
        end,
        head,
        tail,
    );
    assert forall|f: ReadFault| !#[trigger] s.may_read_fail(third, loc, start, end, f) by {
        reveal(Setup::may_read_fail);
        if s.may_read_fail(third, loc, start, end, f) {
            let i = choose|i: int| #[trigger]
                s.may_fail_at(third, loc, i, f) && block_no(start) <= i && i * BLOCK_SIZE < end;
            let at = if i * BLOCK_SIZE < start {
                start
            } else {
                i * BLOCK_SIZE
            };
            assert(block_no(at) == i);
            lemma_read_bytes(s, third, loc, start, end, head + tail, at - start);
            assert(alike(third, loc, i));
            let b = choose|b: Seq<u8>| #[trigger]
                s.may_block(third, loc.dat->0, loc.span(i).0, b) && in_block(at) < b.len()
                    && (head + tail)[at - start] == b[in_block(at)];
            lemma_never_fails(s, third, loc, i, b, f);
        }
    }
}

/// What a file table sees of a file is what the newest of its layers holds
/// that has the file at all.
pub proof fn law_table_is_layered<B: Backend>(s: Setup<B>, t: &FileTable, file_id: u32)
    requires
        s.may_table(t),
    ensures
        exists|p: ParsedView| #[trigger]
            s.may_parse(t.blob, Ok(p)) && match super::table::last_record(p.records, file_id) {
                Some(r) => t.find(file_id) matches Some(l) && l@ == super::table::loc_of(
                    s.index,
                    t.blob,
                    p,
                    r,
                ),
                None => t.find(file_id) == match t.parent {
                    Some(parent) => parent.find(file_id),
                    None => None,
                },
            },
{
    reveal(Setup::may_table);
    let p = choose|p: ParsedView| #[trigger]
        s.may_parse(t.blob, Ok(p)) && t.holds(s.index, p);
    super::table::law_layers(t, s.index, p, file_id);
}

/// The layers of a file table are linked as a version chain is.
pub proof fn law_layers_are_linked<B: Backend>(s: Setup<B>, t: &FileTable)
    requires
        s.may_table(t),
    ensures
        s.linked(t.layers()),
        t.layers().len() > 0,
        t.layers().last() == t.blob,
        s.may_begin(t.layers()[0]),
    decreases t,
{
    reveal(Setup::may_table);
    reveal(Setup::linked);
    match &t.parent {
        None => {},
        Some(parent) => {
            law_layers_are_linked(s, &**parent);
            let below = parent.layers();
            let c = t.layers();
            assert forall|i: int| 0 < i < c.len() implies s.may_parent(
                #[trigger] c[i],
                Some(c[i - 1]),
            ) by {
                if i < below.len() {
                    assert(c[i] == below[i]);
                    assert(c[i - 1] == below[i - 1]);
                }
            }
        },
    }
}

} // verus!
