//! Ties the pieces together: fetches and parses blobs, follows version
//! chains, builds per-version file tables, and serves decoded file bytes out
//! of dats through two LRU caches.

use std::collections::HashMap;
use std::sync::Arc;
use vstd::prelude::*;
use vstd::slice::slice_subrange;

use crate::backend;
use crate::backend::Backend;
use crate::cache;
use crate::cache::{Buffer, ByteLru};
use crate::format::checksums::Mode;
use crate::format::chunk::Key;
use crate::format::BLOCK_SIZE;
use crate::index::{BlobId, DatId, Index};
use crate::keys::KeyStore;
use crate::recent;
use crate::recent::{Recent, RecentView};

pub mod block;
pub mod contents;
pub mod error;
pub mod kept;
pub mod laws;
pub mod notes;
pub mod setup;
pub mod table;

pub use block::KeyResolution;
pub use contents::{parse_blob, ParsedBlob};
pub use error::{ErrorClass, ReadError, Result};
pub use setup::RAW_WINDOW;
pub use table::{FileLoc, FileTable};

use block::Sample;
use contents::ParsedView;
use error::{Outcome, ReadFault};
use kept::Kept;
use notes::{Note, NoteView};
use setup::{Past, Setup, CHAIN_LIMIT};
use table::LocView;

verus! {

broadcast use vstd::std_specs::hash::group_hash_axioms;

/// How a store is to work.
#[derive(Debug, Clone, Copy, PartialEq, Eq, Structural)]
pub struct StoreConfig {
    pub raw_cache_bytes: usize,
    pub block_cache_bytes: usize,
    pub verify: bool,
    /// When the depot's key fails, try every known key against the block.
    pub key_search: bool,
}

/// A dat and a number in one number.
pub open spec fn cache_key(dat: DatId, n: u64) -> u128 {
    (dat.0 * 0x1_0000_0000_0000_0000 + n) as u128
}

proof fn lemma_cache_key(a: DatId, m: u64, b: DatId, n: u64)
    ensures
        cache_key(a, m) == cache_key(b, n) ==> a == b && m == n,
{
}

fn make_key(dat: DatId, n: u64) -> (r: u128)
    ensures
        r == cache_key(dat, n),
{
    dat.0 as u128 * 0x1_0000_0000_0000_0000 + n as u128
}

#[verifier::opaque]
spec fn blobs_sound<B: Backend>(s: Setup<B>, m: Map<u128, Arc<ParsedBlob>>) -> bool {
    forall|k: u32|
        #![trigger m.contains_key(k as u128)]
        m.contains_key(k as u128) ==> m[k as u128].wf() && s.may_parse(
            BlobId(k),
            Ok(m[k as u128]@),
        )
}

#[verifier::opaque]
spec fn tables_sound<B: Backend>(s: Setup<B>, m: Map<u128, Arc<FileTable>>) -> bool {
    forall|k: u32|
        #![trigger m.contains_key(k as u128)]
        m.contains_key(k as u128) ==> m[k as u128].blob == BlobId(k) && s.may_table(&m[k as u128])
}

#[verifier::opaque]
spec fn windows_sound<B: Backend>(s: Setup<B>, m: Map<u128, Buffer>) -> bool {
    forall|d: DatId, n: u64|
        #![trigger m.contains_key(cache_key(d, n))]
        m.contains_key(cache_key(d, n)) ==> s.may_window(
            d,
            n as int,
            Ok(m[cache_key(d, n)]@),
        )
}

#[verifier::opaque]
spec fn blocks_sound<B: Backend>(s: Setup<B>, past: Past, m: Map<u128, Buffer>) -> bool {
    forall|d: DatId, n: u64|
        #![trigger m.contains_key(cache_key(d, n))]
        m.contains_key(cache_key(d, n)) ==> s.may_block(past, d, n, m[cache_key(d, n)]@)
}

#[verifier::opaque]
spec fn keys_sound<B: Backend>(s: Setup<B>, past: Past) -> bool {
    s.may_know(past)
}

proof fn lemma_nothing_is_sound<B: Backend>(s: Setup<B>)
    ensures
        blobs_sound(s, Map::empty()),
        tables_sound(s, Map::empty()),
        windows_sound(s, Map::empty()),
        blocks_sound(s, nothing_past(), Map::empty()),
        keys_sound(s, nothing_past()),
{
    reveal(blobs_sound);
    reveal(tables_sound);
    reveal(windows_sound);
    reveal(blocks_sound);
    reveal(keys_sound);
}

proof fn lemma_kept_blob<B: Backend>(s: Setup<B>, m: Map<u128, Arc<ParsedBlob>>, id: BlobId)
    requires
        blobs_sound(s, m),
        m.contains_key(id.0 as u128),
    ensures
        m[id.0 as u128].wf(),
        s.may_parse(id, Ok(m[id.0 as u128]@)),
{
    reveal(blobs_sound);
}

proof fn lemma_keep_blob<B: Backend>(
    s: Setup<B>,
    c: RecentView<Arc<ParsedBlob>>,
    id: BlobId,
    p: Arc<ParsedBlob>,
)
    requires
        blobs_sound(s, c.values),
        p.wf(),
        s.may_parse(id, Ok(p@)),
    ensures
        blobs_sound(s, c.after_put(id.0 as u128, p).values),
{
    reveal(blobs_sound);
    let m = c.after_put(id.0 as u128, p).values;
    assert forall|k: u32|
        #![trigger m.contains_key(k as u128)]
        m.contains_key(k as u128) implies m[k as u128].wf() && s.may_parse(
        BlobId(k),
        Ok(m[k as u128]@),
    ) by {
        if k != id.0 {
            assert(c.values.contains_key(k as u128));
        }
    }
}

proof fn lemma_kept_table<B: Backend>(s: Setup<B>, m: Map<u128, Arc<FileTable>>, id: BlobId)
    requires
        tables_sound(s, m),
        m.contains_key(id.0 as u128),
    ensures
        m[id.0 as u128].blob == id,
        s.may_table(&m[id.0 as u128]),
{
    reveal(tables_sound);
}

proof fn lemma_keep_table<B: Backend>(
    s: Setup<B>,
    c: RecentView<Arc<FileTable>>,
    id: BlobId,
    t: Arc<FileTable>,
)
    requires
        tables_sound(s, c.values),
        t.blob == id,
        s.may_table(&t),
    ensures
        tables_sound(s, c.after_put(id.0 as u128, t).values),
{
    reveal(tables_sound);
    let m = c.after_put(id.0 as u128, t).values;
    assert forall|k: u32|
        #![trigger m.contains_key(k as u128)]
        m.contains_key(k as u128) implies m[k as u128].blob == BlobId(k) && s.may_table(
        &m[k as u128],
    ) by {
        if k != id.0 {
            assert(c.values.contains_key(k as u128));
        }
    }
}

proof fn lemma_kept_window<B: Backend>(s: Setup<B>, m: Map<u128, Buffer>, d: DatId, n: u64)
    requires
        windows_sound(s, m),
        m.contains_key(cache_key(d, n)),
    ensures
        s.may_window(d, n as int, Ok(m[cache_key(d, n)]@)),
{
    reveal(windows_sound);
}

proof fn lemma_keep_window<B: Backend>(
    s: Setup<B>,
    c: RecentView<Buffer>,
    cap: nat,
    dat: DatId,
    n: u64,
    w: Buffer,
)
    requires
        windows_sound(s, c.values),
        s.may_window(dat, n as int, Ok(w@)),
    ensures
        windows_sound(s, cache::inserted(c, cap, cache_key(dat, n), w).values),
{
    reveal(windows_sound);
    let m = cache::inserted(c, cap, cache_key(dat, n), w).values;
    assert forall|d: DatId, k: u64|
        #![trigger m.contains_key(cache_key(d, k))]
        m.contains_key(cache_key(d, k)) implies s.may_window(
        d,
        k as int,
        Ok(m[cache_key(d, k)]@),
    ) by {
        cache::lemma_inserted_values(c, cap, cache_key(dat, n), w, cache_key(d, k));
        lemma_cache_key(d, k, dat, n);
        assert(c.values.contains_key(cache_key(d, k)) ==> s.may_window(
            d,
            k as int,
            Ok(c.values[cache_key(d, k)]@),
        ));
    }
}

proof fn lemma_kept_block<B: Backend>(
    s: Setup<B>,
    past: Past,
    m: Map<u128, Buffer>,
    d: DatId,
    n: u64,
)
    requires
        blocks_sound(s, past, m),
        m.contains_key(cache_key(d, n)),
    ensures
        s.may_block(past, d, n, m[cache_key(d, n)]@),
{
    reveal(blocks_sound);
}

proof fn lemma_kept_later<B: Backend>(
    s: Setup<B>,
    past: Past,
    later: Past,
    m: Map<u128, Buffer>,
)
    requires
        blocks_sound(s, past, m),
        later.covers(past),
    ensures
        blocks_sound(s, later, m),
{
    reveal(blocks_sound);
    assert forall|d: DatId, n: u64|
        #![trigger m.contains_key(cache_key(d, n))]
        m.contains_key(cache_key(d, n)) implies s.may_block(
        later,
        d,
        n,
        m[cache_key(d, n)]@,
    ) by {
        setup::lemma_later(s, past, later, d, n, m[cache_key(d, n)]@);
    }
}

proof fn lemma_keep_block<B: Backend>(
    s: Setup<B>,
    past: Past,
    c: RecentView<Buffer>,
    cap: nat,
    dat: DatId,
    n: u64,
    w: Buffer,
)
    requires
        blocks_sound(s, past, c.values),
        s.may_block(past, dat, n, w@),
    ensures
        blocks_sound(s, past, cache::inserted(c, cap, cache_key(dat, n), w).values),
{
    reveal(blocks_sound);
    let m = cache::inserted(c, cap, cache_key(dat, n), w).values;
    assert forall|d: DatId, k: u64|
        #![trigger m.contains_key(cache_key(d, k))]
        m.contains_key(cache_key(d, k)) implies s.may_block(past, d, k, m[cache_key(d, k)]@) by {
        cache::lemma_inserted_values(c, cap, cache_key(dat, n), w, cache_key(d, k));
        lemma_cache_key(d, k, dat, n);
        assert(c.values.contains_key(cache_key(d, k)) ==> s.may_block(
            past,
            d,
            k,
            c.values[cache_key(d, k)]@,
        ));
    }
}

proof fn lemma_keep_key<B: Backend>(s: Setup<B>, past: Past, id: BlobId, r: KeyResolution)
    requires
        keys_sound(s, past),
        s.may_resolve(past, id, r),
    ensures
        keys_sound(s, past.with_keys(past.keys.insert(id.0, r))),
{
    reveal(keys_sound);
    let n = past.with_keys(past.keys.insert(id.0, r));
    assert forall|b: u32| #[trigger] n.keys.contains_key(b) implies s.may_resolve(
        n,
        BlobId(b),
        n.keys[b],
    ) by {
        if b != id.0 {
            assert(past.keys.contains_key(b));
        }
        setup::lemma_resolve_later(s, past, n, BlobId(b), n.keys[b]);
    }
}

proof fn lemma_kept_key<B: Backend>(s: Setup<B>, past: Past, id: BlobId)
    requires
        keys_sound(s, past),
        past.keys.contains_key(id.0),
    ensures
        s.may_resolve(past, id, past.keys[id.0]),
{
    reveal(keys_sound);
}

/// A key that is resolved may still be resolved so later.
proof fn lemma_known_key_later<B: Backend>(s: Setup<B>, past: Past, later: Past, id: BlobId)
    requires
        keys_sound(s, past),
        later.covers(past),
    ensures
        past.keys.contains_key(id.0) ==> s.may_resolve(later, id, past.keys[id.0]),
{
    if past.keys.contains_key(id.0) {
        lemma_kept_key(s, past, id);
        setup::lemma_resolve_later(s, past, later, id, past.keys[id.0]);
    }
}

proof fn lemma_keys_later<B: Backend>(s: Setup<B>, past: Past, loc: LocView)
    requires
        keys_sound(s, past),
    ensures
        keys_sound(s, past.with_file(loc)),
{
    reveal(keys_sound);
    let n = past.with_file(loc);
    assert forall|b: u32| #[trigger] n.keys.contains_key(b) implies s.may_resolve(
        n,
        BlobId(b),
        n.keys[b],
    ) by {
        assert(past.keys.contains_key(b));
        setup::lemma_resolve_later(s, past, n, BlobId(b), n.keys[b]);
    }
}

/// `out` has been stitched together from `start` to `pos`: whatever the rest
/// may come to, it may follow.
#[verifier::opaque]
spec fn stitched<B: Backend>(
    s: Setup<B>,
    dat: DatId,
    start: int,
    pos: int,
    end: int,
    out: Seq<u8>,
) -> bool {
    forall|rest: Seq<u8>| #[trigger]
        s.may_stitch(dat, pos, end, rest) ==> s.may_stitch(dat, start, end, out + rest)
}

proof fn lemma_stitched_nothing<B: Backend>(s: Setup<B>, dat: DatId, start: int, end: int)
    ensures
        stitched(s, dat, start, start, end, Seq::empty()),
{
    reveal(stitched);
    assert forall|rest: Seq<u8>| #[trigger]
        s.may_stitch(dat, start, end, rest) implies s.may_stitch(
        dat,
        start,
        end,
        Seq::empty() + rest,
    ) by {
        assert(Seq::<u8>::empty() + rest =~= rest);
    }
}

proof fn lemma_stitched_on<B: Backend>(
    s: Setup<B>,
    dat: DatId,
    start: int,
    pos: int,
    end: int,
    out: Seq<u8>,
    w: Seq<u8>,
)
    requires
        0 <= pos < end,
        stitched(s, dat, start, pos, end, out),
        s.may_window(dat, setup::window_no(pos), Ok(w)),
        s.window_part(pos, end, w) > 0,
    ensures
        ({
            let part = s.window_part(pos, end, w);
            let at = setup::window_at(pos);
            stitched(s, dat, start, pos + part, end, out + w.subrange(at, at + part))
        }),
{
    reveal(stitched);
    let part = s.window_part(pos, end, w);
    let at = setup::window_at(pos);
    let piece = w.subrange(at, at + part);
    assert forall|rest: Seq<u8>| #[trigger]
        s.may_stitch(dat, pos + part, end, rest) implies s.may_stitch(
        dat,
        start,
        end,
        (out + piece) + rest,
    ) by {
        setup::lemma_stitch_on(s, dat, pos, end, w, rest);
        assert(s.may_stitch(dat, pos, end, piece + rest));
        assert(out + (piece + rest) =~= (out + piece) + rest);
    }
}

proof fn lemma_stitched_all<B: Backend>(
    s: Setup<B>,
    dat: DatId,
    start: int,
    pos: int,
    end: int,
    out: Seq<u8>,
)
    requires
        stitched(s, dat, start, pos, end, out),
        s.may_stitch(dat, pos, end, Seq::empty()),
    ensures
        s.may_stitch(dat, start, end, out),
{
    reveal(stitched);
    assert(out + Seq::<u8>::empty() =~= out);
}

/// `out` has been read from `start` to `pos`: whatever the rest may come to,
/// then or later, it may follow.
#[verifier::opaque]
spec fn gathered<B: Backend>(
    s: Setup<B>,
    past: Past,
    loc: LocView,
    start: int,
    pos: int,
    end: int,
    out: Seq<u8>,
) -> bool {
    forall|later: Past, rest: Seq<u8>| #[trigger]
        s.may_file(later, loc, pos, end, rest) && later.covers(past) ==> s.may_file(
            later,
            loc,
            start,
            end,
            out + rest,
        )
}

proof fn lemma_gathered_nothing<B: Backend>(
    s: Setup<B>,
    past: Past,
    loc: LocView,
    start: int,
    end: int,
)
    ensures
        gathered(s, past, loc, start, start, end, Seq::empty()),
{
    reveal(gathered);
    assert forall|later: Past, rest: Seq<u8>| #[trigger]
        s.may_file(later, loc, start, end, rest) && later.covers(past) implies s.may_file(
        later,
        loc,
        start,
        end,
        Seq::empty() + rest,
    ) by {
        assert(Seq::<u8>::empty() + rest =~= rest);
    }
}

proof fn lemma_gathered_on<B: Backend>(
    s: Setup<B>,
    past: Past,
    then: Past,
    loc: LocView,
    start: int,
    pos: int,
    end: int,
    out: Seq<u8>,
    b: Seq<u8>,
)
    requires
        0 <= pos < end,
        0 <= setup::block_no(pos) < loc.record.blocks.len(),
        gathered(s, past, loc, start, pos, end, out),
        then.covers(past),
        s.may_block(then, loc.dat->0, loc.span(setup::block_no(pos)).0, b),
        setup::in_block(pos) < b.len(),
    ensures
        ({
            let part = s.block_part(pos, end, b);
            let at = setup::in_block(pos);
            gathered(s, then, loc, start, pos + part, end, out + b.subrange(at, at + part))
        }),
{
    reveal(gathered);
    let part = s.block_part(pos, end, b);
    let at = setup::in_block(pos);
    let piece = b.subrange(at, at + part);
    assert forall|later: Past, rest: Seq<u8>| #[trigger]
        s.may_file(later, loc, pos + part, end, rest) && later.covers(then) implies s.may_file(
        later,
        loc,
        start,
        end,
        (out + piece) + rest,
    ) by {
        setup::lemma_later(
            s,
            then,
            later,
            loc.dat->0,
            loc.span(setup::block_no(pos)).0,
            b,
        );
        setup::lemma_read_on(s, later, loc, pos, end, b, rest);
        assert(s.may_file(later, loc, pos, end, piece + rest));
        setup::lemma_covers(past, then, later);
        assert(out + (piece + rest) =~= (out + piece) + rest);
    }
}

proof fn lemma_gathered_all<B: Backend>(
    s: Setup<B>,
    past: Past,
    loc: LocView,
    start: int,
    pos: int,
    end: int,
    out: Seq<u8>,
)
    requires
        pos >= end,
        gathered(s, past, loc, start, pos, end, out),
    ensures
        s.may_file(past, loc, start, end, out),
{
    reveal(gathered);
    setup::lemma_read_nothing(s, past, loc, pos, end);
    assert(out + Seq::<u8>::empty() =~= out);
}

/// What a new store has been through.
pub open spec fn nothing_past() -> Past {
    Past { files: Set::empty(), keys: Map::empty() }
}

/// A dump that is being read.
#[verifier::reject_recursive_types(B)]
pub struct Store<B: Backend> {
    backend: B,
    index: Index,
    keys: KeyStore,
    cfg: StoreConfig,
    parsed: Recent<Arc<ParsedBlob>>,
    tables: Recent<Arc<FileTable>>,
    raw: ByteLru,
    blocks: ByteLru,
    /// Per source blob: which key actually decrypts it (resolved lazily).
    resolved_keys: HashMap<u32, KeyResolution>,
    /// The files whose blocks have been asked for.
    asked: Ghost<Set<LocView>>,
}

impl<B: Backend> Store<B> {
    /// What the store works on.
    pub closed spec fn setup(&self) -> Setup<B> {
        Setup {
            backend: self.backend,
            index: self.index@,
            keys: self.keys@,
            verify: self.cfg.verify,
            key_search: self.cfg.key_search,
        }
    }

    /// What the store keeps of what it has read.
    pub closed spec fn kept(&self) -> Kept {
        Kept {
            blobs: self.parsed@,
            tables: self.tables@,
            windows: self.raw@,
            window_room: self.raw.cap(),
            blocks: self.blocks@,
            room: self.blocks.cap(),
        }
    }

    /// The blocks that are kept, by dat and offset.
    pub open spec fn kept_blocks(&self) -> Map<u128, Buffer> {
        self.kept().blocks.values
    }

    /// What the store has been through.
    pub closed spec fn past(&self) -> Past {
        Past { files: self.asked@, keys: self.resolved_keys@ }
    }

    /// The keys that are resolved, by blob.
    pub open spec fn resolved(&self) -> Map<u32, KeyResolution> {
        self.past().keys
    }

    /// The blobs that are kept, by number.
    pub open spec fn kept_blobs(&self) -> Map<u128, Arc<ParsedBlob>> {
        self.kept().blobs.values
    }

    /// The tables that are kept, by number.
    pub open spec fn kept_tables(&self) -> Map<u128, Arc<FileTable>> {
        self.kept().tables.values
    }

    /// Everything that is kept is something that the backend may give.
    pub closed spec fn wf(&self) -> bool {
        &&& self.index.wf()
        &&& self.keys.wf()
        &&& self.parsed.wf()
        &&& self.tables.wf()
        &&& self.raw.wf()
        &&& self.blocks.wf()
        &&& blobs_sound(self.setup(), self.parsed@.values)
        &&& tables_sound(self.setup(), self.tables@.values)
        &&& windows_sound(self.setup(), self.raw@.values)
        &&& blocks_sound(self.setup(), self.past(), self.blocks@.values)
        &&& keys_sound(self.setup(), self.past())
    }

    pub fn new(backend: B, index: Index, keys: KeyStore, cfg: StoreConfig) -> (r: Store<B>)
        requires
            index.wf(),
            keys.wf(),
        ensures
            r.wf(),
            r.setup() == (Setup {
                backend,
                index: index@,
                keys: keys@,
                verify: cfg.verify,
                key_search: cfg.key_search,
            }),
            r.kept_blocks() == Map::<u128, Buffer>::empty(),
            r.kept_blobs() == Map::<u128, Arc<ParsedBlob>>::empty(),
            r.kept_tables() == Map::<u128, Arc<FileTable>>::empty(),
            r.kept().sizes() == (0nat, 0nat),
            r.kept().window_room == cfg.raw_cache_bytes,
            r.kept().room == cfg.block_cache_bytes,
            r.past() == nothing_past(),
    {
        proof {
            lemma_nothing_is_sound(
                Setup {
                    backend,
                    index: index@,
                    keys: keys@,
                    verify: cfg.verify,
                    key_search: cfg.key_search,
                },
            );
        }
        Store {
            raw: ByteLru::new(cfg.raw_cache_bytes),
            blocks: ByteLru::new(cfg.block_cache_bytes),
            backend,
            index,
            keys,
            cfg,
            parsed: Recent::new(512),
            tables: Recent::new(256),
            resolved_keys: HashMap::new(),
            asked: Ghost(Set::empty()),
        }
    }

    /// Blobs and dats can be numbered.
    pub proof fn lemma_sizes(&self)
        requires
            self.wf(),
        ensures
            self.setup().index.blobs.len() <= u32::MAX,
            self.setup().index.dats.len() <= u32::MAX,
    {
        self.index.lemma_sizes();
    }

    /// The keys that are resolved may be resolved so.
    pub proof fn lemma_resolved(&self)
        requires
            self.wf(),
        ensures
            self.setup().may_know(self.past()),
    {
        reveal(keys_sound);
    }

    pub fn index(&self) -> (r: &Index)
        requires
            self.wf(),
        ensures
            r.wf(),
            r@ == self.setup().index,
    {
        &self.index
    }

    pub fn backend(&self) -> (r: &B)
        ensures
            *r == self.setup().backend,
    {
        &self.backend
    }

    pub fn key_for(&self, depot: u32) -> (r: Option<Key>)
        requires
            self.wf(),
        ensures
            r == self.setup().keys.get(depot),
    {
        self.keys.get(depot)
    }

    // ---- blobs ----

    /// Raw bytes of a blob. A blob's name embeds the sha256 of its contents,
    /// and they are checked against it; a name without a full hash falls back
    /// to a size check.
    pub fn blob_bytes(&self, id: BlobId) -> (r: Result<Vec<u8>>)
        requires
            self.wf(),
            self.setup().index.has_blob(id),
        ensures
            match r {
                Ok(v) => self.setup().may_fetch(id, Ok(v@)),
                Err(e) => self.setup().may_fetch(id, Err(e@)),
            },
    {
        let entry = self.index.blob(id);
        let reply = self.backend.read_all(entry.path.as_str());
        proof {
            setup::lemma_fetch(self.setup(), id, backend::bytes_view(reply));
        }
        contents::accept_bytes(entry, reply)
    }

    /// Everything that a blob holds.
    pub fn parsed(&mut self, id: BlobId) -> (r: Result<Arc<ParsedBlob>>)
        requires
            old(self).wf(),
            old(self).setup().index.has_blob(id),
        ensures
            final(self).wf(),
            final(self).setup() == old(self).setup(),
            final(self).past() == old(self).past(),
            final(self).kept() == (Kept {
                blobs: kept::after_use(
                    old(self).kept().blobs,
                    id.0 as u128,
                    match r {
                        Ok(p) => Some(p),
                        Err(_) => None,
                    },
                ),
                ..old(self).kept()
            }),
            match r {
                Ok(p) => p.wf() && old(self).setup().may_parse(id, Ok(p@)),
                Err(e) => old(self).setup().may_parse(id, Err(e@)),
            },
            old(self).kept_blobs().contains_key(id.0 as u128) ==> (r matches Ok(p) && p
                == old(self).kept_blobs()[id.0 as u128]),
            r matches Ok(p) ==> final(self).kept_blobs().contains_key(id.0 as u128)
                && final(self).kept_blobs()[id.0 as u128] == p,
    {
        let ghost s = self.setup();
        match self.parsed.get(id.0 as u128) {
            Some(p) => {
                proof {
                    lemma_kept_blob(s, old(self).parsed@.values, id);
                }
                return Ok(recent::share(p));
            },
            None => {},
        }
        let entry = self.index.blob(id);
        let reply = self.backend.read_all(entry.path.as_str());
        proof {
            setup::lemma_fetch(s, id, backend::bytes_view(reply));
        }
        let p = match contents::accept_blob(entry, reply) {
            Ok(p) => Arc::new(p),
            Err(e) => {
                return Err(e);
            },
        };
        proof {
            lemma_keep_blob(s, self.parsed@, id, p);
        }
        let _ = self.parsed.put(id.0 as u128, recent::share(&p));
        Ok(p)
    }

    /// The parent blob, resolved by the (version, crc) recorded in `id`.
    /// Falls back to a unique blob with the parent's version number if the
    /// exact crc is absent from the dump.
    pub fn parent(&mut self, id: BlobId) -> (r: Result<Option<BlobId>>)
        requires
            old(self).wf(),
            old(self).setup().index.has_blob(id),
        ensures
            final(self).wf(),
            final(self).setup() == old(self).setup(),
            final(self).kept().same_blocks(old(self).kept()),
            final(self).past() == old(self).past(),
            final(self).kept().tables == old(self).kept().tables,
            match r {
                Ok(p) => old(self).setup().may_parent(id, p) && (p matches Some(b) ==> old(
                    self,
                ).setup().index.has_blob(b)),
                Err(e) => old(self).setup().may_parse(id, Err(e@)),
            },
    {
        let p = match self.parsed(id) {
            Ok(p) => p,
            Err(e) => {
                return Err(e);
            },
        };
        let depot: u32 = self.index.blob(id).depot;
        let ghost s = self.setup();
        proof {
            setup::lemma_parent(s, id, p@);
        }
        let (version, crc) = match p.meta.prev {
            Some(v) => v,
            None => {
                return Ok(None);
            },
        };
        match self.index.find_blob(depot, version, crc) {
            Some(b) => {
                return Ok(Some(b));
            },
            None => {},
        }
        let candidates = self.index.blobs_with_version(depot, version);
        let ghost c = s.index.with_version(depot, version);
        assert(candidates@.len() == c.len());
        if candidates.len() == 1 {
            proof {
                assert(crate::index::ids(candidates@)[0] == candidates@[0].0);
                self.index.lemma_with_version(depot, version);
                assert(c[0] < s.index.blobs.len());
            }
            Ok(Some(candidates[0]))
        } else {
            Ok(None)
        }
    }

    /// Root-first chain of blobs ending at `id`.
    pub fn chain(&mut self, id: BlobId) -> (r: Result<Vec<BlobId>>)
        requires
            old(self).wf(),
            old(self).setup().index.has_blob(id),
        ensures
            final(self).wf(),
            final(self).setup() == old(self).setup(),
            final(self).kept().same_blocks(old(self).kept()),
            final(self).past() == old(self).past(),
            final(self).kept().tables == old(self).kept().tables,
            match r {
                Ok(c) => old(self).setup().may_chain(id, c@) && forall|i: int|
                    0 <= i < c@.len() ==> old(self).setup().index.has_blob(#[trigger] c@[i]),
                Err(e) => exists|x: BlobId| #[trigger]
                    old(self).setup().reaches(id, x) && old(self).setup().may_parse(x, Err(e@)),
            },
    {
        let ghost s = self.setup();
        let mut up: Vec<BlobId> = Vec::new();
        up.push(id);
        let mut cur = id;
        let mut more = true;
        while more
            invariant
                self.wf(),
                self.setup() == s,
                s == old(self).setup(),
                self.kept().same_blocks(old(self).kept()),
                self.past() == old(self).past(),
                self.kept().tables == old(self).kept().tables,
                self.resolved() == old(self).resolved(),
                0 < up@.len() <= CHAIN_LIMIT + 1,
                up@[0] == id,
                up@.last() == cur,
                up@.no_duplicates(),
                forall|i: int| 0 <= i < up@.len() ==> s.index.has_blob(#[trigger] up@[i]),
                forall|i: int|
                    0 < i < up@.len() ==> s.may_parent(up@[i - 1], Some(#[trigger] up@[i])),
                !more ==> s.begins(up@.reverse()),
            decreases
                    CHAIN_LIMIT + 1 - up@.len(),
                    if more {
                        1int
                    } else {
                        0
                    },
        {
            proof {
                lemma_reversed(s, up@);
            }
            match self.parent(cur) {
                Err(e) => {
                    proof {
                        setup::lemma_chain_parts(s, up@.reverse(), 0);
                    }
                    return Err(e);
                },
                Ok(None) => {
                    proof {
                        setup::lemma_begins(s, up@.reverse(), None);
                    }
                    more = false;
                },
                Ok(Some(p)) => {
                    if has_id(&up, p) || up.len() > CHAIN_LIMIT {
                        proof {
                            let c = up@.reverse();
                            if up@.contains(p) {
                                let i = choose|i: int| 0 <= i < up@.len() && up@[i] == p;
                                assert(c[up@.len() - 1 - i] == p);
                                assert(c.contains(p));
                            }
                            setup::lemma_begins(s, c, Some(p));
                        }
                        more = false;
                    } else {
                        up.push(p);
                        cur = p;
                    }
                },
            }
        }
        proof {
            lemma_reversed(s, up@);
        }
        let out = reversed(&up);
        Ok(out)
    }

    // ---- notes ----

    /// How many keys are resolved.
    pub fn resolved_count(&self) -> (r: usize)
        ensures
            r == self.resolved().len(),
    {
        self.resolved_keys.len()
    }

    /// What there is to say of a blob.
    pub fn blob_notes(&mut self, id: BlobId) -> (r: Vec<Note>)
        requires
            old(self).wf(),
            old(self).setup().index.has_blob(id),
        ensures
            final(self).wf(),
            final(self).setup() == old(self).setup(),
            final(self).kept().same_blocks(old(self).kept()),
            final(self).past() == old(self).past(),
            notes::may_say(old(self).setup(), old(self).resolved(), id, notes::note_views(r@)),
    {
        let ghost s = self.setup();
        let parsed = self.parsed(id);
        let ghost mut o: Outcome<ParsedView> = arbitrary();
        let mut out = match parsed {
            Ok(p) => {
                proof {
                    o = Ok(p@);
                }
                notes::check_blob(&self.index, id, &*p)
            },
            Err(e) => {
                proof {
                    o = Err(e@);
                }
                Vec::new()
            },
        };
        let ghost of_blob = notes::note_views(out@);
        assert(s.may_parse(id, o));
        assert(o is Err ==> of_blob =~= Seq::empty());
        match self.resolved_keys.get(&id.0) {
            Some(r) => {
                let more = notes::check_key(
                    &self.keys,
                    self.cfg.key_search,
                    self.index.blob(id),
                    r,
                );
                notes::put_notes(&mut out, more);
            },
            None => {},
        }
        assert(notes::note_views(out@) =~= of_blob + notes::resolved_notes(
            s,
            self.resolved(),
            id,
        ));
        out
    }

    /// What there is to say of a version: of each blob of its chain, root
    /// first, and of how the chain begins.
    pub fn version_notes(&mut self, id: BlobId) -> (r: Vec<Note>)
        requires
            old(self).wf(),
            old(self).setup().index.has_blob(id),
        ensures
            final(self).wf(),
            final(self).setup() == old(self).setup(),
            final(self).kept().same_blocks(old(self).kept()),
            final(self).past() == old(self).past(),
            notes::may_say_of_version(
                old(self).setup(),
                old(self).resolved(),
                id,
                notes::note_views(r@),
            ),
    {
        let ghost s = self.setup();
        let ghost known = self.resolved();
        let mut out: Vec<Note> = Vec::new();
        assert(notes::note_views(out@) =~= Seq::empty());
        let chain = match self.chain(id) {
            Ok(c) => c,
            Err(e) => {
                proof {
                    let x = choose|x: BlobId| #[trigger]
                        s.reaches(id, x) && s.may_parse(x, Err(e@));
                    assert(s.reaches(id, x) && s.may_parse(x, Err(e@)));
                }
                return out;
            },
        };
        let ghost mut lists = Seq::<Seq<NoteView>>::empty();
        let mut i: usize = 0;
        while i < chain.len()
            invariant
                self.wf(),
                self.setup() == s,
                s == old(self).setup(),
                self.kept().same_blocks(old(self).kept()),
                self.past() == old(self).past(),
                known == self.resolved(),
                i <= chain@.len(),
                forall|k: int| 0 <= k < chain@.len() ==> s.index.has_blob(#[trigger] chain@[k]),
                lists.len() == i,
                forall|k: int| 0 <= k < i ==> #[trigger] notes::may_say(s, known, chain@[k], lists[k]),
                notes::note_views(out@) == notes::joined(lists),
            decreases chain@.len() - i,
        {
            let b = chain[i];
            let more = self.blob_notes(b);
            let ghost said = notes::note_views(more@);
            notes::put_notes(&mut out, more);
            proof {
                let before = lists;
                lists = before.push(said);
                assert(lists.drop_last() =~= before);
                assert forall|k: int| 0 <= k < i + 1 implies #[trigger] notes::may_say(
                    s,
                    known,
                    chain@[k],
                    lists[k],
                ) by {
                    if k < i {
                        assert(notes::may_say(s, known, chain@[k], before[k]));
                    }
                }
            }
            i += 1;
        }
        let begin = match self.parent(chain[0]) {
            Ok(p) => {
                assert(s.may_parent(chain@[0], p));
                notes::check_chain(&self.index, p)
            },
            Err(e) => {
                assert(s.may_parse(chain@[0], Err(e@)));
                Vec::new()
            },
        };
        let ghost at_begin = notes::note_views(begin@);
        notes::put_notes(&mut out, begin);
        assert(notes::all_said(s, known, chain@, lists));
        assert(notes::may_say_of_begin(s, chain@[0], at_begin));
        out
    }

    // ---- file tables ----

    /// File id -> location, as of version `id`: the records it introduced
    /// layered over its parent's table.
    ///
    /// Built by walking the version chain root-first rather than recursing,
    /// so a dump whose blobs point at each other cannot overflow the stack.
    pub fn table(&mut self, id: BlobId) -> (r: Result<Arc<FileTable>>)
        requires
            old(self).wf(),
            old(self).setup().index.has_blob(id),
        ensures
            final(self).wf(),
            final(self).setup() == old(self).setup(),
            final(self).kept().same_blocks(old(self).kept()),
            final(self).past() == old(self).past(),
            match r {
                Ok(t) => t.blob == id && old(self).setup().may_table(&t),
                Err(e) => exists|x: BlobId| #[trigger]
                    old(self).setup().reaches(id, x) && old(self).setup().may_parse(x, Err(e@)),
            },
            old(self).kept_tables().contains_key(id.0 as u128) ==> (r matches Ok(t) && t
                == old(self).kept_tables()[id.0 as u128]),
            r matches Ok(t) ==> final(self).kept_tables().contains_key(id.0 as u128)
                && final(self).kept_tables()[id.0 as u128] == t,
            if old(self).kept_tables().contains_key(id.0 as u128) {
                final(self).kept() == (Kept {
                    tables: old(self).kept().tables.after_get(id.0 as u128),
                    ..old(self).kept()
                })
            } else {
                old(self).setup().may_file_layers(
                    id,
                    old(self).kept().tables,
                    final(self).kept().tables,
                    match r {
                        Ok(t) => Some(t),
                        Err(_) => None,
                    },
                )
            },
    {
        match self.tables.get(id.0 as u128) {
            Some(t) => {
                proof {
                    lemma_kept_table(old(self).setup(), old(self).tables@.values, id);
                }
                return Ok(recent::share(t));
            },
            None => {},
        }
        self.build_table(id)
    }

    fn build_table(&mut self, id: BlobId) -> (r: Result<Arc<FileTable>>)
        requires
            old(self).wf(),
            old(self).setup().index.has_blob(id),
        ensures
            final(self).wf(),
            final(self).setup() == old(self).setup(),
            final(self).kept().same_blocks(old(self).kept()),
            final(self).past() == old(self).past(),
            match r {
                Ok(t) => t.blob == id && old(self).setup().may_table(&t),
                Err(e) => exists|x: BlobId| #[trigger]
                    old(self).setup().reaches(id, x) && old(self).setup().may_parse(x, Err(e@)),
            },
            old(self).setup().may_file_layers(
                id,
                old(self).kept().tables,
                final(self).kept().tables,
                match r {
                    Ok(t) => Some(t),
                    Err(_) => None,
                },
            ),
            r matches Ok(t) ==> final(self).kept_tables().contains_key(id.0 as u128)
                && final(self).kept_tables()[id.0 as u128] == t,
    {
        let ghost s = self.setup();
        let chain = match self.chain(id) {
            Ok(c) => c,
            Err(e) => {
                proof {
                    let none = Seq::<Arc<FileTable>>::empty();
                    setup::lemma_file_layers(s, id, old(self).kept().tables, Seq::empty(), none, None);
                }
                return Err(e);
            },
        };
        let ghost kept = self.kept().tables;
        let first = chain[0];
        proof {
            setup::lemma_chain_parts(s, chain@, 0);
        }
        let mut table = match self.layer_at(first, None) {
            Ok(t) => t,
            Err(e) => {
                proof {
                    let none = Seq::<Arc<FileTable>>::empty();
                    setup::lemma_file_layers(s, id, kept, chain@, none, None);
                }
                return Err(e);
            },
        };
        let ghost mut layers = seq![table];
        proof {
            assert(layers.drop_last() =~= Seq::empty());
            reveal_with_fuel(kept::after_layers, 2);
        }
        let mut i: usize = 1;
        while i < chain.len()
            invariant
                self.wf(),
                self.setup() == s,
                s == old(self).setup(),
                self.kept().same_blocks(old(self).kept()),
                self.past() == old(self).past(),
                1 <= i <= chain@.len(),
                s.may_chain(id, chain@),
                forall|k: int| 0 <= k < chain@.len() ==> s.index.has_blob(#[trigger] chain@[k]),
                table.blob == chain@[i - 1],
                s.may_table(&table),
                kept == old(self).kept().tables,
                layers.len() == i,
                layers.last() == table,
                self.kept().tables == kept::after_layers(kept, chain@, layers),
                self.kept_tables().contains_key(table.blob.0 as u128),
                self.kept_tables()[table.blob.0 as u128] == table,
            decreases chain@.len() - i,
        {
            let b = chain[i];
            proof {
                setup::lemma_chain_parts(s, chain@, i as int);
            }
            table =
            match self.layer_at(b, Some(table)) {
                Ok(t) => t,
                Err(e) => {
                    proof {
                        setup::lemma_file_layers(s, id, kept, chain@, layers, None);
                    }
                    return Err(e);
                },
            };
            proof {
                let more = layers.push(table);
                assert(more.drop_last() =~= layers);
                layers = more;
            }
            i += 1;
        }
        proof {
            setup::lemma_file_layers(s, id, kept, chain@, layers, Some(table));
        }
        Ok(table)
    }

    /// The table of blob `b`, kept or built over `parent`.
    fn layer_at(&mut self, b: BlobId, parent: Option<Arc<FileTable>>) -> (r: Result<
        Arc<FileTable>,
    >)
        requires
            old(self).wf(),
            old(self).setup().index.has_blob(b),
            match parent {
                Some(p) => old(self).setup().may_parent(b, Some(p.blob)) && old(
                    self,
                ).setup().may_table(&p),
                None => old(self).setup().may_begin(b),
            },
        ensures
            final(self).wf(),
            final(self).setup() == old(self).setup(),
            final(self).kept().same_blocks(old(self).kept()),
            final(self).past() == old(self).past(),
            match r {
                Ok(t) => t.blob == b && old(self).setup().may_table(&t),
                Err(e) => old(self).setup().may_parse(b, Err(e@)),
            },
            final(self).kept().tables == kept::after_use(
                old(self).kept().tables,
                b.0 as u128,
                match r {
                    Ok(t) => Some(t),
                    Err(_) => None,
                },
            ),
            r is Err ==> !old(self).kept_tables().contains_key(b.0 as u128),
            r matches Ok(t) ==> final(self).kept_tables().contains_key(b.0 as u128)
                && final(self).kept_tables()[b.0 as u128] == t,
    {
        match self.tables.get(b.0 as u128) {
            Some(t) => {
                proof {
                    lemma_kept_table(old(self).setup(), old(self).tables@.values, b);
                }
                return Ok(recent::share(t));
            },
            None => {},
        }
        let t = match self.own_table(b, parent) {
            Ok(t) => Arc::new(t),
            Err(e) => {
                return Err(e);
            },
        };
        proof {
            lemma_keep_table(self.setup(), self.tables@, b, t);
        }
        let _ = self.tables.put(b.0 as u128, recent::share(&t));
        Ok(t)
    }

    /// One layer: the records blob `id` introduced, over `parent`.
    fn own_table(&mut self, id: BlobId, parent: Option<Arc<FileTable>>) -> (r: Result<FileTable>)
        requires
            old(self).wf(),
            old(self).setup().index.has_blob(id),
            match parent {
                Some(p) => old(self).setup().may_parent(id, Some(p.blob)) && old(
                    self,
                ).setup().may_table(&p),
                None => old(self).setup().may_begin(id),
            },
        ensures
            final(self).wf(),
            final(self).setup() == old(self).setup(),
            final(self).kept().same_blocks(old(self).kept()),
            final(self).past() == old(self).past(),
            final(self).kept().tables == old(self).kept().tables,
            match r {
                Ok(t) => t.blob == id && old(self).setup().may_table(&t),
                Err(e) => old(self).setup().may_parse(id, Err(e@)),
            },
    {
        let ghost s = self.setup();
        let parsed = match self.parsed(id) {
            Ok(p) => p,
            Err(e) => {
                return Err(e);
            },
        };
        let entry = self.index.blob(id);
        let dat = self.index.find_dat(entry.depot, entry.version, parsed.meta.dat_crc);
        let t = FileTable::layer(id, dat, &parsed, parent, Ghost(s.index));
        proof {
            setup::lemma_table(s, &t, parsed@);
        }
        Ok(t)
    }

    /// Where file `file_id` is, as of version `id`.
    pub fn locate(&mut self, id: BlobId, file_id: u32) -> (r: Result<Arc<FileLoc>>)
        requires
            old(self).wf(),
            old(self).setup().index.has_blob(id),
        ensures
            final(self).wf(),
            final(self).setup() == old(self).setup(),
            final(self).kept().same_blocks(old(self).kept()),
            final(self).past() == old(self).past(),
            match r {
                Ok(l) => old(self).setup().may_locate(id, file_id, Some(l)) && l@.fits(
                    old(self).setup().index,
                ),
                Err(e) => (e@ == ReadFault::MissingRecord(file_id) && old(self).setup().may_locate(
                    id,
                    file_id,
                    None,
                )) || exists|x: BlobId| #[trigger]
                    old(self).setup().reaches(id, x) && old(self).setup().may_parse(x, Err(e@)),
            },
    {
        let ghost s = self.setup();
        let t = match self.table(id) {
            Ok(t) => t,
            Err(e) => {
                return Err(e);
            },
        };
        proof {
            setup::lemma_locate(s, &*t, file_id);
        }
        match t.get(file_id) {
            Some(l) => {
                proof {
                    self.index.lemma_sizes();
                    setup::lemma_found_fits(s, &t, file_id);
                }
                Ok(recent::share(l))
            },
            None => Err(ReadError::MissingRecord(file_id)),
        }
    }

    // ---- data ----

    fn raw_window(&mut self, dat: DatId, n: u64) -> (r: Result<Buffer>)
        requires
            old(self).wf(),
            old(self).setup().index.has_dat(dat),
            n * RAW_WINDOW <= u64::MAX,
        ensures
            final(self).wf(),
            final(self).setup() == old(self).setup(),
            final(self).past() == old(self).past(),
            match r {
                Ok(w) => old(self).setup().may_window(dat, n as int, Ok(w@)),
                Err(e) => old(self).setup().may_window(dat, n as int, Err(e@)),
            },
            final(self).kept() == (Kept {
                windows: old(self).kept().windows_with(
                    cache_key(dat, n),
                    match r {
                        Ok(w) => Some(w),
                        Err(_) => None,
                    },
                ),
                ..old(self).kept()
            }),
    {
        let key = make_key(dat, n);
        let ghost s = self.setup();
        match self.raw.get(key) {
            Some(w) => {
                proof {
                    lemma_kept_window(s, old(self).raw@.values, dat, n);
                }
                return Ok(w);
            },
            None => {
                proof {
                    old(self).raw.lemma_sound();
                    recent::lemma_missed(old(self).raw@, key);
                }
            },
        }
        let entry = self.index.dat(dat);
        let start: u64 = n * RAW_WINDOW;
        let left: u64 = if start < entry.size {
            entry.size - start
        } else {
            0
        };
        let len: usize = if left < RAW_WINDOW {
            left as usize
        } else {
            RAW_WINDOW as usize
        };
        let bytes = if len == 0 {
            Vec::new()
        } else {
            match self.backend.read_at(entry.path.as_str(), start, len) {
                Ok(v) => v,
                Err(m) => {
                    proof {
                        setup::lemma_window(s, dat, n as int, Err(ReadFault::Other(m@)));
                    }
                    return Err(ReadError::Other(m));
                },
            }
        };
        assert(len == 0 ==> bytes@ =~= Seq::<u8>::empty());
        let w = Arc::new(bytes);
        proof {
            setup::lemma_window(s, dat, n as int, Ok(w@));
            lemma_keep_window(s, self.raw@, self.raw.cap(), dat, n, w);
        }
        self.raw.insert(key, recent::share(&w));
        Ok(w)
    }

    /// Stored bytes `[start, end)` of a dat, assembled from cached windows.
    fn dat_bytes(&mut self, dat: DatId, start: u64, end: u64) -> (r: Result<Vec<u8>>)
        requires
            old(self).wf(),
            old(self).setup().index.has_dat(dat),
            start <= end,
        ensures
            final(self).wf(),
            final(self).setup() == old(self).setup(),
            final(self).kept().same_blocks(old(self).kept()),
            final(self).past() == old(self).past(),
            match r {
                Ok(v) => old(self).setup().may_stitch(dat, start as int, end as int, v@),
                Err(e) => old(self).setup().may_stitch_fail(dat, start as int, end as int, e@),
            },
    {
        let ghost s = self.setup();
        let mut out: Vec<u8> = Vec::new();
        let mut pos: u64 = start;
        let mut done = false;
        proof {
            lemma_stitched_nothing(s, dat, start as int, end as int);
        }
        while pos < end && !done
            invariant
                self.wf(),
                self.setup() == s,
                s == old(self).setup(),
                s.index.has_dat(dat),
                self.kept().same_blocks(old(self).kept()),
                self.past() == old(self).past(),
                start <= pos <= end,
                !done ==> stitched(s, dat, start as int, pos as int, end as int, out@),
                done ==> s.may_stitch(dat, start as int, end as int, out@),
            decreases
                    end - pos,
                    if done {
                        0int
                    } else {
                        1
                    },
        {
            let n: u64 = pos / RAW_WINDOW;
            let w = match self.raw_window(dat, n) {
                Ok(w) => w,
                Err(e) => {
                    proof {
                        setup::lemma_stitch_fails(
                            s,
                            dat,
                            start as int,
                            pos as int,
                            end as int,
                            e@,
                        );
                    }
                    return Err(e);
                },
            };
            let at: u64 = pos % RAW_WINDOW;
            if at >= w.len() as u64 {
                proof {
                    setup::lemma_stitch_ends(s, dat, pos as int, end as int, w@);
                    lemma_stitched_all(s, dat, start as int, pos as int, end as int, out@);
                }
                done = true;
            } else {
                let here: u64 = w.len() as u64 - at;
                let take: u64 = if end - pos < here {
                    end - pos
                } else {
                    here
                };
                let piece = slice_subrange(w.as_slice(), at as usize, (at + take) as usize);
                let ghost before = out@;
                out.extend_from_slice(piece);
                proof {
                    assert(s.window_part(pos as int, end as int, w@) == take);
                    assert(out@ =~= before + piece@);
                    lemma_stitched_on(
                        s,
                        dat,
                        start as int,
                        pos as int,
                        end as int,
                        before,
                        w@,
                    );
                }
                pos = pos + take;
            }
        }
        proof {
            if !done {
                setup::lemma_stitch_nothing(s, dat, pos as int, end as int);
                lemma_stitched_all(s, dat, start as int, pos as int, end as int, out@);
            }
        }
        Ok(out)
    }

    /// Which key decrypts data stored by blob `source`, resolving it on the
    /// first encrypted block seen. `raw` is one raw encrypted block with its
    /// mode and stored checksum, used to test candidates.
    fn resolve_key(&mut self, source: BlobId, mode: Mode, raw: &[u8], expected: u32) -> (r:
        KeyResolution)
        requires
            old(self).wf(),
            old(self).setup().index.has_blob(source),
            exists|loc: LocView, i: int| #[trigger]
                old(self).setup().gives_sample(
                    old(self).past(),
                    loc,
                    i,
                    Sample { mode, raw: raw@, expected },
                ) && loc.source == source,
        ensures
            final(self).wf(),
            final(self).setup() == old(self).setup(),
            final(self).kept().same_blocks(old(self).kept()),
            r == old(self).setup().resolved_by(
                old(self).resolved(),
                source,
                Sample { mode, raw: raw@, expected },
            ),
            final(self).past() == old(self).past().with_keys(
                old(self).resolved().insert(source.0, r),
            ),
    {
        let ghost s = self.setup();
        match self.resolved_keys.get(&source.0) {
            Some(r) => {
                assert(self.resolved_keys@.insert(source.0, *r) =~= self.resolved_keys@);
                return *r;
            },
            None => {},
        }
        let entry = self.index.blob(source);
        let r = block::resolve(
            &self.keys,
            self.cfg.key_search,
            entry.depot,
            entry.crc,
            mode,
            raw,
            expected,
        );
        proof {
            let sample = Sample { mode, raw: raw@, expected };
            let (l, j) = choose|l: LocView, j: int| #[trigger]
                s.gives_sample(self.past(), l, j, sample) && l.source == source;
            setup::lemma_resolve(s, self.past(), l, j, sample);
            lemma_keep_key(s, self.past(), source, r);
            lemma_kept_later(
                s,
                self.past(),
                self.past().with_keys(self.resolved_keys@.insert(source.0, r)),
                self.blocks@.values,
            );
        }
        let _ = self.resolved_keys.insert(source.0, r);
        r
    }

    /// Resolve the key for an encrypted file by reading its first block.
    pub fn probe_key(&mut self, loc: &FileLoc) -> (r: Result<KeyResolution>)
        requires
            old(self).wf(),
            loc@.fits(old(self).setup().index),
        ensures
            final(self).wf(),
            final(self).setup() == old(self).setup(),
            final(self).kept().same_blocks(old(self).kept()),
            old(self).setup().may_probe(
                old(self).resolved(),
                loc@,
                match r {
                    Ok(k) => Ok(k),
                    Err(e) => Err(e@),
                },
            ),
            final(self).past() == match r {
                Ok(k) => old(self).past().with_file(loc@).with_keys(
                    old(self).resolved().insert(loc@.source.0, k),
                ),
                Err(_) => old(self).past().with_file(loc@),
            },
            final(self).past().covers(old(self).past()),
    {
        proof {
            lemma_kept_later(
                self.setup(),
                self.past(),
                self.past().with_file(loc@),
                self.blocks@.values,
            );
            lemma_keys_later(self.setup(), self.past(), loc@);
        }
        self.asked = Ghost(self.asked@.insert(loc@));
        let dat = match loc.dat {
            Some(d) => d,
            None => {
                return Err(self.missing_dat(loc));
            },
        };
        // An empty file stores nothing, so there is no ciphertext to test a
        // candidate key against.
        if loc.record.blocks.len() == 0 {
            return Err(ReadError::NoBlocksToProbe { file_id: loc.record.file_id });
        }
        let start: u64 = loc.offsets[0];
        let end: u64 = loc.offsets[1];
        proof {
            table::lemma_offsets_grow(loc@.record, 0);
        }
        let raw = match self.dat_bytes(dat, start, end) {
            Ok(v) => v,
            Err(e) => {
                return Err(e);
            },
        };
        if raw.len() as u64 != end - start {
            return Err(
                ReadError::ShortRead {
                    file_id: loc.record.file_id,
                    block: 0,
                    want: end - start,
                    got: raw.len() as u64,
                },
            );
        }
        proof {
            let sample = self.setup().sample(loc@, 0, raw@);
            assert(self.setup().gives_sample(self.past(), loc@, 0, sample));
        }
        Ok(
            self.resolve_key(
                loc.source,
                loc.record.mode,
                raw.as_slice(),
                loc.record.blocks[0].checksum,
            ),
        )
    }

    fn missing_dat(&mut self, loc: &FileLoc) -> (r: ReadError)
        requires
            old(self).wf(),
            loc@.fits(old(self).setup().index),
        ensures
            final(self).wf(),
            final(self).setup() == old(self).setup(),
            final(self).kept().same_blocks(old(self).kept()),
            final(self).past() == old(self).past(),
            old(self).setup().may_miss_dat(loc@.source, r@),
    {
        let ghost s = self.setup();
        let crc: u32 = match self.parsed(loc.source) {
            Ok(p) => {
                proof {
                    setup::lemma_miss_dat(s, loc.source, Ok(p@));
                }
                p.meta.dat_crc
            },
            Err(e) => {
                proof {
                    setup::lemma_miss_dat(s, loc.source, Err(e@));
                }
                0
            },
        };
        let e = self.index.blob(loc.source);
        ReadError::MissingDat { depot: e.depot, version: e.version, crc }
    }

    /// Decoded bytes of block `i` of a file.
    pub fn block(&mut self, loc: &FileLoc, i: u64) -> (r: Result<Buffer>)
        requires
            old(self).wf(),
            loc@.fits(old(self).setup().index),
        ensures
            final(self).wf(),
            final(self).setup() == old(self).setup(),
            final(self).past().files == old(self).past().files.insert(loc@),
            final(self).past().covers(old(self).past()),
            final(self).kept().room == old(self).kept().room,
            match r {
                Err(_) => final(self).kept().blocks == old(self).kept().blocks,
                Ok(b) => {
                    let key = cache_key(loc@.dat->0, loc@.span(i as int).0);
                    if old(self).kept_blocks().contains_key(key) {
                        final(self).kept().blocks == old(self).kept().blocks.after_get(key)
                    } else {
                        final(self).kept().blocks == old(self).kept().blocks_with(
                            loc@.record.mode == Mode::Plain,
                            key,
                            b,
                        )
                    }
                },
            },
            match loc@.dat {
                None => {
                    &&& r matches Err(e)
                    &&& old(self).setup().may_miss_dat(loc@.source, e@)
                    &&& final(self).resolved() == old(self).resolved()
                },
                Some(d) => if i >= loc@.record.blocks.len() {
                    &&& r matches Err(e)
                    &&& e@ == loc@.no_such_block(i as int)
                    &&& final(self).resolved() == old(self).resolved()
                } else if old(self).kept_blocks().contains_key(
                    cache_key(d, loc@.span(i as int).0),
                ) {
                    &&& r == Ok::<Buffer, ReadError>(
                        old(self).kept_blocks()[cache_key(d, loc@.span(i as int).0)],
                    )
                    &&& final(self).resolved() == old(self).resolved()
                } else {
                    let (start, end) = loc@.span(i as int);
                    let s = old(self).setup();
                    let known = old(self).resolved();
                    ||| {
                        &&& r matches Err(e)
                        &&& s.may_stitch_fail(d, start as int, end as int, e@)
                        &&& final(self).resolved() == known
                    }
                    ||| exists|raw: Seq<u8>| #[trigger]
                        s.may_stitch(d, start as int, end as int, raw) && s.block_outcome(
                            loc@,
                            i as int,
                            raw,
                            known,
                        ) == (match r {
                            Ok(b) => Ok::<Seq<u8>, ReadFault>(b@),
                            Err(e) => Err::<Seq<u8>, ReadFault>(e@),
                        }) && final(self).resolved() == s.known_after(known, loc@, i as int, raw)
                },
            },
            match r {
                Ok(b) => old(self).setup().may_block(
                    final(self).past(),
                    loc@.dat->0,
                    loc@.span(i as int).0,
                    b@,
                ) && i < loc@.record.blocks.len() && loc@.dat is Some,
                Err(e) => old(self).setup().may_block_fail(
                    final(self).past(),
                    loc@,
                    i as int,
                    e@,
                ),
            },
    {
        let ghost s = self.setup();
        let ghost known = self.resolved();
        let ghost past = self.past().with_file(loc@);
        proof {
            lemma_kept_later(s, self.past(), past, self.blocks@.values);
            lemma_keys_later(s, self.past(), loc@);
        }
        self.asked = Ghost(past.files);
        let dat = match loc.dat {
            Some(d) => d,
            None => {
                let e = self.missing_dat(loc);
                proof {
                    setup::lemma_block_fails(s, self.past(), loc@, i as int, e@);
                }
                return Err(e);
            },
        };
        let (start, end) = match loc.block_span(i) {
            Some(p) => p,
            None => {
                proof {
                    setup::lemma_block_fails(s, self.past(), loc@, i as int, loc@.no_such_block(i as int));
                }
                return Err(loc.no_such_block(i));
            },
        };
        assert(loc@.offsets.len() == loc@.record.blocks.len() + 1);
        proof {
            table::lemma_offsets_grow(loc@.record, i as int);
        }
        let key = make_key(dat, start);
        match self.blocks.get(key) {
            Some(b) => {
                proof {
                    lemma_kept_block(s, past, old(self).blocks@.values, dat, start);
                }
                return Ok(b);
            },
            None => {
                proof {
                    old(self).blocks.lemma_sound();
                    recent::lemma_missed(old(self).blocks@, key);
                }
            },
        }
        let raw = match self.dat_bytes(dat, start, end) {
            Ok(v) => v,
            Err(e) => {
                proof {
                    setup::lemma_block_fails(s, self.past(), loc@, i as int, e@);
                }
                return Err(e);
            },
        };
        let ghost stored = raw@;
        let out = match self.finish_block(loc, i, raw, end - start) {
            Ok(v) => v,
            Err(e) => {
                proof {
                    lemma_known_key_later(s, past, self.past(), loc@.source);
                    setup::lemma_decode_fails(
                        s,
                        self.past(),
                        loc@,
                        i as int,
                        stored,
                        known,
                        e@,
                    );
                }
                return Err(e);
            },
        };
        proof {
            lemma_known_key_later(s, past, self.past(), loc@.source);
            setup::lemma_block(s, self.past(), loc@, i as int, stored, known, out@);
        }
        let decoded = Arc::new(out);
        // A plain block's decoded bytes are exactly its stored bytes, which
        // the raw-window cache already holds; caching them again would spend
        // the block cache storing a second copy of the raw one.
        if loc.record.mode != Mode::Plain {
            proof {
                lemma_keep_block(
                    s,
                    self.past(),
                    self.blocks@,
                    self.blocks.cap(),
                    dat,
                    start,
                    decoded,
                );
            }
            self.blocks.insert(key, recent::share(&decoded));
        }
        Ok(decoded)
    }

    /// Decode block `i` of a file from its stored bytes.
    fn finish_block(&mut self, loc: &FileLoc, i: u64, raw: Vec<u8>, want: u64) -> (r: Result<
        Vec<u8>,
    >)
        requires
            old(self).wf(),
            loc@.fits(old(self).setup().index),
            i < loc@.record.blocks.len(),
            want == loc@.span(i as int).1 - loc@.span(i as int).0,
            old(self).past().files.contains(loc@),
            loc@.dat is Some,
            old(self).setup().may_stitch(
                loc@.dat->0,
                loc@.span(i as int).0 as int,
                loc@.span(i as int).1 as int,
                raw@,
            ),
        ensures
            final(self).wf(),
            final(self).setup() == old(self).setup(),
            final(self).kept().same_blocks(old(self).kept()),
            final(self).past() == old(self).past().with_keys(
                old(self).setup().known_after(old(self).resolved(), loc@, i as int, raw@),
            ),
            match r {
                Ok(b) => old(self).setup().block_outcome(
                    loc@,
                    i as int,
                    raw@,
                    old(self).resolved(),
                ) == Ok::<Seq<u8>, ReadFault>(b@),
                Err(e) => old(self).setup().block_outcome(
                    loc@,
                    i as int,
                    raw@,
                    old(self).resolved(),
                ) == Err::<Seq<u8>, ReadFault>(e@),
            },
    {
        let rec = &loc.record;
        assert(rec.blocks.len() == rec@.blocks.len());
        if raw.len() as u64 != want {
            return Err(
                ReadError::ShortRead {
                    file_id: rec.file_id,
                    block: i,
                    want,
                    got: raw.len() as u64,
                },
            );
        }
        if rec.mode.is_encrypted() {
            let checksum: u32 = rec.blocks[i as usize].checksum;
            proof {
                let sample = self.setup().sample(loc@, i as int, raw@);
                assert(self.setup().gives_sample(self.past(), loc@, i as int, sample));
            }
            let resolved = self.resolve_key(loc.source, rec.mode, raw.as_slice(), checksum);
            let entry = self.index.blob(loc.source);
            match block::take_key(resolved, entry.depot, entry.crc) {
                Err(e) => Err(e),
                Ok(k) => block::decode_block(rec, i, raw, Some(&k), self.cfg.verify),
            }
        } else {
            block::decode_block(rec, i, raw, None, self.cfg.verify)
        }
    }

    /// Read `len` decoded bytes of a file starting at `offset`.
    pub fn read(&mut self, loc: &FileLoc, offset: u64, len: usize) -> (r: Result<Vec<u8>>)
        requires
            old(self).wf(),
            loc@.fits(old(self).setup().index),
        ensures
            final(self).wf(),
            final(self).setup() == old(self).setup(),
            if offset >= loc@.record.size || len == 0 {
                final(self).past() == old(self).past()
            } else {
                old(self).setup().may_pass(old(self).past(), final(self).past(), loc@)
            },
            ({
                let size = loc@.record.size as int;
                let end = setup::least(offset + len, size);
                if offset >= size || len == 0 {
                    r matches Ok(v) && v@.len() == 0
                } else {
                    match r {
                        Ok(v) => old(self).setup().may_file(
                            final(self).past(),
                            loc@,
                            offset as int,
                            end,
                            v@,
                        ),
                        Err(e) => old(self).setup().may_read_fail(
                            final(self).past(),
                            loc@,
                            offset as int,
                            end,
                            e@,
                        ),
                    }
                }
            }),
            final(self).past().covers(old(self).past()),
    {
        let ghost s = self.setup();
        proof {
            setup::lemma_learn_nothing(s, self.past(), loc@);
        }
        let size: u64 = loc.record.size;
        if offset >= size || len == 0 {
            return Ok(Vec::new());
        }
        let left: u64 = size - offset;
        let wanted: u64 = if (len as u64) < left {
            len as u64
        } else {
            left
        };
        let end: u64 = offset + wanted;
        let mut out: Vec<u8> = Vec::new();
        let mut pos: u64 = offset;
        proof {
            lemma_gathered_nothing(s, self.past(), loc@, offset as int, end as int);
        }
        while pos < end
            invariant
                self.wf(),
                self.setup() == s,
                s == old(self).setup(),
                self.past().files == if pos == offset {
                    old(self).past().files
                } else {
                    old(self).past().files.insert(loc@)
                },
                self.past().covers(old(self).past()),
                loc@.fits(s.index),
                offset < end,
                offset <= pos <= end,
                end == setup::least(offset + len, loc@.record.size as int),
                offset < loc@.record.size,
                len > 0,
                gathered(s, self.past(), loc@, offset as int, pos as int, end as int, out@),
                s.may_learn(old(self).resolved(), self.past(), loc@),
            decreases end - pos,
        {
            // Every byte below `size` is covered by a block, so a missing or
            // short block is corruption, not end of file: report it rather
            // than handing back a silently truncated read.
            let i: u64 = pos / BLOCK_SIZE;
            assert(self.past().files.insert(loc@) =~= old(self).past().files.insert(loc@));
            let ghost begun = self.past();
            let got = self.block(loc, i);
            proof {
                setup::lemma_covers(old(self).past(), begun, self.past());
                if self.resolved() != begun.keys {
                    let raw = choose|raw: Seq<u8>| #[trigger]
                        s.may_stitch(
                            loc@.dat->0,
                            loc@.span(i as int).0 as int,
                            loc@.span(i as int).1 as int,
                            raw,
                        ) && self.resolved() == s.known_after(begun.keys, loc@, i as int, raw);
                    setup::lemma_learn_on(
                        s,
                        old(self).resolved(),
                        begun,
                        self.past(),
                        loc@,
                        i as int,
                        raw,
                    );
                } else {
                    setup::lemma_learn_still(
                        s,
                        old(self).resolved(),
                        begun,
                        self.past(),
                        loc@,
                    );
                }
            }
            let b = match got {
                Ok(b) => b,
                Err(e) => {
                    proof {
                        setup::lemma_read_fails(
                            s,
                            self.past(),
                            loc@,
                            offset as int,
                            pos as int,
                            end as int,
                            e@,
                        );
                    }
                    return Err(e);
                },
            };
            let at: u64 = pos % BLOCK_SIZE;
            if at >= b.len() as u64 {
                proof {
                    assert(b@.len() < loc@.record.range(i as int).1 - loc@.record.range(
                        i as int,
                    ).0);
                    assert(s.may_clash(self.past(), loc@, i as int));
                    setup::lemma_read_fails(
                        s,
                        self.past(),
                        loc@,
                        offset as int,
                        pos as int,
                        end as int,
                        loc@.no_such_block(i as int),
                    );
                }
                return Err(loc.no_such_block(i));
            }
            let here: u64 = b.len() as u64 - at;
            let take: u64 = if end - pos < here {
                end - pos
            } else {
                here
            };
            let piece = slice_subrange(b.as_slice(), at as usize, (at + take) as usize);
            let ghost before = out@;
            out.extend_from_slice(piece);
            proof {
                assert(s.block_part(pos as int, end as int, b@) == take);
                assert(out@ =~= before + piece@);
                lemma_gathered_on(
                    s,
                    begun,
                    self.past(),
                    loc@,
                    offset as int,
                    pos as int,
                    end as int,
                    before,
                    b@,
                );
            }
            pos = pos + take;
        }
        proof {
            lemma_gathered_all(s, self.past(), loc@, offset as int, pos as int, end as int, out@);
        }
        Ok(out)
    }

    /// How many bytes the two caches keep: stored windows, decoded blocks.
    pub fn cache_stats(&self) -> (r: (usize, usize))
        requires
            self.wf(),
        ensures
            r.0 == self.kept().sizes().0,
            r.1 == self.kept().sizes().1,
            r.0 <= self.kept().window_room,
            r.1 <= self.kept().room,
    {
        (self.raw.bytes(), self.blocks.bytes())
    }
}

/// Whether a blob is among some.
fn has_id(v: &Vec<BlobId>, id: BlobId) -> (r: bool)
    ensures
        r == v@.contains(id),
{
    let mut i: usize = 0;
    while i < v.len()
        invariant
            i <= v@.len(),
            forall|j: int| 0 <= j < i ==> v@[j] != id,
        decreases v@.len() - i,
    {
        if v[i].0 == id.0 {
            assert(v@[i as int] == id);
            return true;
        }
        i += 1;
    }
    false
}

fn reversed(v: &Vec<BlobId>) -> (r: Vec<BlobId>)
    ensures
        r@ == v@.reverse(),
{
    let mut out: Vec<BlobId> = Vec::new();
    let mut i: usize = v.len();
    while i > 0
        invariant
            i <= v@.len(),
            out@.len() == v@.len() - i,
            forall|k: int| 0 <= k < out@.len() ==> out@[k] == v@[v@.len() - 1 - k],
        decreases i,
    {
        i -= 1;
        out.push(v[i]);
    }
    proof {
        lemma_reverse(v@);
        assert(out@ =~= v@.reverse());
    }
    out
}

proof fn lemma_reverse(s: Seq<BlobId>)
    ensures
        s.reverse().len() == s.len(),
        forall|k: int| 0 <= k < s.len() ==> #[trigger] s.reverse()[k] == s[s.len() - 1 - k],
{
    broadcast use vstd::seq_lib::group_seq_properties;

}

/// A way up from a blob, turned round, is a chain that ends at it.
proof fn lemma_reversed<B: Backend>(s: Setup<B>, up: Seq<BlobId>)
    requires
        up.len() > 0,
        up.no_duplicates(),
        forall|i: int| 0 < i < up.len() ==> s.may_parent(up[i - 1], Some(#[trigger] up[i])),
    ensures
        s.linked(up.reverse()),
        up.reverse().len() == up.len(),
        up.reverse()[0] == up.last(),
        up.reverse().last() == up[0],
        up.reverse().no_duplicates(),
        forall|k: int| 0 <= k < up.len() ==> #[trigger] up.reverse()[k] == up[up.len() - 1 - k],
{
    lemma_reverse(up);
    setup::lemma_turned_round(s, up, up.reverse());
}

} // verus!
