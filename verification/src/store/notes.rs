//! What is worth a word about a dump, though nothing fails for it: where the
//! parts of a blob disagree, where a version's parent or its data is missing,
//! and how the search for a key went.

use vstd::prelude::*;

use super::block;
use block::{KeyResolution, Sample};
use super::contents::{ParsedBlob, ParsedView};
use super::error::{Outcome, ReadFault};
use super::setup::Setup;
use crate::backend::Backend;
use crate::format::checksums;
use crate::format::checksums::{Block, FileRecord, FileView};
use crate::format::chunk::Key;
use crate::index::{BlobEntry, BlobId, BlobView, Index, IndexView};
use crate::keys;
use crate::keys::{KeyStore, KeysView};
use crate::text;

verus! {

/// A remark, and the file of the dump that it is about.
#[derive(Debug, PartialEq, Eq)]
pub struct Note {
    pub about: String,
    pub text: String,
}

/// A `Note`, as the contracts see it.
#[verifier::ext_equal]
pub struct NoteView {
    pub about: Seq<char>,
    pub text: Seq<char>,
}

impl View for Note {
    type V = NoteView;

    open spec fn view(&self) -> NoteView {
        NoteView { about: self.about@, text: self.text@ }
    }
}

pub open spec fn note_views(v: Seq<Note>) -> Seq<NoteView> {
    v.map_values(|n: Note| n@)
}

fn put_note(out: &mut Vec<Note>, about: &str, said: String)
    ensures
        note_views(final(out)@) == note_views(old(out)@).push(
            NoteView { about: about@, text: said@ },
        ),
{
    let ghost seen = NoteView { about: about@, text: said@ };
    out.push(Note { about: text::owned(about), text: said });
    assert(note_views(out@) =~= note_views(old(out)@).push(seen));
}

/// Append notes to notes.
pub(crate) fn put_notes(out: &mut Vec<Note>, more: Vec<Note>)
    ensures
        note_views(final(out)@) == note_views(old(out)@) + note_views(more@),
{
    let ghost before = note_views(out@);
    let mut i: usize = 0;
    assert(before + note_views(more@).take(0) =~= before);
    while i < more.len()
        invariant
            i <= more@.len(),
            note_views(out@) == before + note_views(more@).take(i as int),
        decreases more@.len() - i,
    {
        put_note(out, more[i].about.as_str(), text::owned(more[i].text.as_str()));
        assert(note_views(more@).take(i + 1) =~= note_views(more@).take(i as int).push(
            more@[i as int]@,
        ));
        assert(note_views(out@) =~= before + note_views(more@).take(i + 1));
        i += 1;
    }
    assert(note_views(more@).take(i as int) =~= note_views(more@));
}

/// One note, or none.
pub open spec fn note_if(worth: bool, about: Seq<char>, said: Seq<char>) -> Seq<NoteView> {
    if worth {
        seq![NoteView { about, text: said }]
    } else {
        Seq::empty()
    }
}

// ---- what a blob stores ---------------------------------------------------

pub open spec fn up_to(n: nat) -> u64 {
    if n <= u64::MAX {
        n as u64
    } else {
        u64::MAX
    }
}

/// How many bytes some blocks take.
pub open spec fn blocks_size(blocks: Seq<Block>) -> nat
    decreases blocks.len(),
{
    if blocks.len() == 0 {
        0
    } else {
        blocks_size(blocks.drop_last()) + blocks.last().compressed_size as nat
    }
}

/// How many bytes the blocks of some files take.
pub open spec fn stored_size(records: Seq<FileView>) -> nat
    decreases records.len(),
{
    if records.len() == 0 {
        0
    } else {
        stored_size(records.drop_last()) + blocks_size(records.last().blocks)
    }
}

fn size_of_blocks(blocks: &Vec<Block>) -> (r: u64)
    ensures
        r == up_to(blocks_size(blocks@)),
{
    let mut n: u64 = 0;
    let mut i: usize = 0;
    while i < blocks.len()
        invariant
            i <= blocks@.len(),
            n == up_to(blocks_size(blocks@.take(i as int))),
        decreases blocks@.len() - i,
    {
        proof {
            assert(blocks@.take(i + 1).drop_last() =~= blocks@.take(i as int));
        }
        n = n.saturating_add(blocks[i].compressed_size as u64);
        i += 1;
    }
    assert(blocks@.take(i as int) =~= blocks@);
    n
}

/// How many bytes the blocks of some files take, as far as 64 bits go.
pub fn size_of_records(records: &Vec<FileRecord>) -> (r: u64)
    ensures
        r == up_to(stored_size(checksums::file_views(records@))),
{
    let ghost all = checksums::file_views(records@);
    let mut n: u64 = 0;
    let mut i: usize = 0;
    while i < records.len()
        invariant
            i <= records@.len(),
            all == checksums::file_views(records@),
            n == up_to(stored_size(all.take(i as int))),
        decreases records@.len() - i,
    {
        proof {
            assert(all.take(i + 1).drop_last() =~= all.take(i as int));
            assert(all.take(i + 1).last() == records@[i as int]@);
        }
        n = n.saturating_add(size_of_blocks(&records[i].blocks));
        i += 1;
    }
    assert(all.take(i as int) =~= all);
    n
}

/// Where the pieces of a blob, its file name and its dat disagree.
pub open spec fn cross_checks(v: IndexView, id: BlobId, p: ParsedView) -> Seq<NoteView> {
    let e = v.blob(id);
    let stored = up_to(stored_size(p.records));
    note_if(
        p.meta.own_crc != e.crc,
        e.file_name,
        "blob key 10 "@ + text::hex8(p.meta.own_crc as nat) + " != name crc"@,
    ) + note_if(
        p.manifest.version_id != e.version,
        e.file_name,
        "manifest version id "@ + text::dec(p.manifest.version_id as nat) + " != name"@,
    ) + note_if(
        stored != p.meta.dat_size,
        e.file_name,
        "blocks total "@ + text::dec(stored as nat) + " bytes but blob says the dat is "@
            + text::dec(p.meta.dat_size as nat),
    ) + match v.find_dat(e.depot, e.version, p.meta.dat_crc) {
        None => Seq::empty(),
        Some(d) => note_if(
            v.dat(d).size != p.meta.dat_size,
            v.dat(d).path,
            "dat is "@ + text::dec(v.dat(d).size as nat) + " bytes on disk, blob says "@
                + text::dec(p.meta.dat_size as nat) + if v.dat(d).incomplete {
                " (download in progress)"@
            } else {
                ""@
            },
        ),
    }
}

/// Where the pieces of a blob, its file name and its dat disagree.
pub fn check_pieces(ix: &Index, id: BlobId, p: &ParsedBlob) -> (r: Vec<Note>)
    requires
        ix.wf(),
        ix@.has_blob(id),
    ensures
        note_views(r@) == cross_checks(ix@, id, p@),
{
    let mut out: Vec<Note> = Vec::new();
    let e = ix.blob(id);
    assert(note_views(out@) =~= Seq::<NoteView>::empty());
    if p.meta.own_crc != e.crc {
        let mut s = text::owned("blob key 10 ");
        text::push_hex8(&mut s, p.meta.own_crc);
        text::push_text(&mut s, " != name crc");
        put_note(&mut out, e.file_name.as_str(), s);
    }
    if p.manifest.version_id != e.version {
        let mut s = text::owned("manifest version id ");
        text::push_dec(&mut s, p.manifest.version_id as u64);
        text::push_text(&mut s, " != name");
        put_note(&mut out, e.file_name.as_str(), s);
    }
    let stored: u64 = size_of_records(&p.records);
    if stored != p.meta.dat_size {
        let mut s = text::owned("blocks total ");
        text::push_dec(&mut s, stored);
        text::push_text(&mut s, " bytes but blob says the dat is ");
        text::push_dec(&mut s, p.meta.dat_size);
        put_note(&mut out, e.file_name.as_str(), s);
    }
    if let Some(d) = ix.find_dat(e.depot, e.version, p.meta.dat_crc) {
        let dat = ix.dat(d);
        if dat.size != p.meta.dat_size {
            let mut s = text::owned("dat is ");
            text::push_dec(&mut s, dat.size);
            text::push_text(&mut s, " bytes on disk, blob says ");
            text::push_dec(&mut s, p.meta.dat_size);
            text::push_text(
                &mut s,
                if dat.incomplete {
                    " (download in progress)"
                } else {
                    ""
                },
            );
            put_note(&mut out, dat.path.as_str(), s);
        }
    }
    assert(note_views(out@) =~= cross_checks(ix@, id, p@));
    out
}

// ---- parents and data -----------------------------------------------------

/// Where the parent that a blob records is not in the dump.
pub open spec fn parent_notes(v: IndexView, id: BlobId, p: ParsedView) -> Seq<NoteView> {
    let e = v.blob(id);
    match p.meta.prev {
        None => Seq::empty(),
        Some((version, crc)) => if v.find_blob(e.depot, version, crc) is Some {
            Seq::empty()
        } else {
            let n = v.with_version(e.depot, version).len();
            note_if(
                true,
                e.file_name,
                if n == 1 {
                    "parent crc "@ + text::hex8(crc as nat)
                        + " not found; using the only version-"@ + text::dec(version as nat)
                        + " blob"@
                } else if n == 0 {
                    "parent version "@ + text::dec(version as nat)
                        + " is missing from the dump"@
                } else {
                    "parent crc "@ + text::hex8(crc as nat) + " not found and version "@
                        + text::dec(version as nat) + " is ambiguous"@
                },
            )
        },
    }
}

/// Where the parent that a blob records is not in the dump.
pub fn check_parent(ix: &Index, id: BlobId, p: &ParsedBlob) -> (r: Vec<Note>)
    requires
        ix.wf(),
        ix@.has_blob(id),
    ensures
        note_views(r@) == parent_notes(ix@, id, p@),
{
    let mut out: Vec<Note> = Vec::new();
    assert(note_views(out@) =~= Seq::<NoteView>::empty());
    let e = ix.blob(id);
    let (version, crc) = match p.meta.prev {
        Some(v) => v,
        None => {
            return out;
        },
    };
    if ix.find_blob(e.depot, version, crc).is_some() {
        return out;
    }
    let candidates = ix.blobs_with_version(e.depot, version);
    assert(candidates@.len() == ix@.with_version(e.depot, version).len());
    let s = if candidates.len() == 1 {
        let mut s = text::owned("parent crc ");
        text::push_hex8(&mut s, crc);
        text::push_text(&mut s, " not found; using the only version-");
        text::push_dec(&mut s, version as u64);
        text::push_text(&mut s, " blob");
        s
    } else if candidates.len() == 0 {
        let mut s = text::owned("parent version ");
        text::push_dec(&mut s, version as u64);
        text::push_text(&mut s, " is missing from the dump");
        s
    } else {
        let mut s = text::owned("parent crc ");
        text::push_hex8(&mut s, crc);
        text::push_text(&mut s, " not found and version ");
        text::push_dec(&mut s, version as u64);
        text::push_text(&mut s, " is ambiguous");
        s
    };
    put_note(&mut out, e.file_name.as_str(), s);
    assert(note_views(out@) =~= parent_notes(ix@, id, p@));
    out
}

/// Where the dat of a blob with files is not in the dump.
pub open spec fn dat_notes(v: IndexView, id: BlobId, p: ParsedView) -> Seq<NoteView> {
    let e = v.blob(id);
    note_if(
        v.find_dat(e.depot, e.version, p.meta.dat_crc) is None && p.records.len() > 0,
        e.file_name,
        "dat with crc "@ + text::hex8(p.meta.dat_crc as nat) + " is missing; "@ + text::dec(
            p.records.len(),
        ) + " files unreadable"@,
    )
}

/// Where the dat of a blob with files is not in the dump.
pub fn check_dat(ix: &Index, id: BlobId, p: &ParsedBlob) -> (r: Vec<Note>)
    requires
        ix.wf(),
        ix@.has_blob(id),
    ensures
        note_views(r@) == dat_notes(ix@, id, p@),
{
    let mut out: Vec<Note> = Vec::new();
    assert(note_views(out@) =~= Seq::<NoteView>::empty());
    let e = ix.blob(id);
    assert(p@.records.len() == p.records@.len());
    if ix.find_dat(e.depot, e.version, p.meta.dat_crc).is_none() && p.records.len() > 0 {
        let mut s = text::owned("dat with crc ");
        text::push_hex8(&mut s, p.meta.dat_crc);
        text::push_text(&mut s, " is missing; ");
        text::push_dec(&mut s, p.records.len() as u64);
        text::push_text(&mut s, " files unreadable");
        put_note(&mut out, e.file_name.as_str(), s);
    }
    assert(note_views(out@) =~= dat_notes(ix@, id, p@));
    out
}

/// What there is to say of a blob, from what it holds.
pub open spec fn blob_notes(v: IndexView, id: BlobId, p: ParsedView) -> Seq<NoteView> {
    cross_checks(v, id, p) + parent_notes(v, id, p) + dat_notes(v, id, p)
}

/// What there is to say of a blob, from what it holds.
pub fn check_blob(ix: &Index, id: BlobId, p: &ParsedBlob) -> (r: Vec<Note>)
    requires
        ix.wf(),
        ix@.has_blob(id),
    ensures
        note_views(r@) == blob_notes(ix@, id, p@),
{
    let mut out = check_pieces(ix, id, p);
    put_notes(&mut out, check_parent(ix, id, p));
    put_notes(&mut out, check_dat(ix, id, p));
    out
}

/// What there is to say of a version chain that leads on from its first blob
/// to `parent`: it turns in a circle, or is too long to follow.
pub open spec fn chain_notes(v: IndexView, parent: Option<BlobId>) -> Seq<NoteView> {
    match parent {
        None => Seq::empty(),
        Some(p) => seq![
            NoteView {
                about: v.blob(p).file_name,
                text: "version chain cycle at "@ + v.blob(p).file_name,
            },
        ],
    }
}

/// What there is to say of a version chain that leads on from its first blob.
pub fn check_chain(ix: &Index, parent: Option<BlobId>) -> (r: Vec<Note>)
    requires
        parent matches Some(p) ==> ix@.has_blob(p),
    ensures
        note_views(r@) == chain_notes(ix@, parent),
{
    let mut out: Vec<Note> = Vec::new();
    assert(note_views(out@) =~= Seq::<NoteView>::empty());
    if let Some(p) = parent {
        let e = ix.blob(p);
        let mut s = text::owned("version chain cycle at ");
        text::push_text(&mut s, e.file_name.as_str());
        put_note(&mut out, e.file_name.as_str(), s);
    }
    assert(note_views(out@) =~= chain_notes(ix@, parent));
    out
}

// ---- keys -----------------------------------------------------------------

/// What the first of some keys with the value `k` goes by.
pub open spec fn label_of(candidates: Seq<(Seq<char>, Key)>, k: Key) -> Seq<char>
    decreases candidates.len(),
{
    if candidates.len() == 0 {
        Seq::empty()
    } else if candidates[0].1 == k {
        candidates[0].0
    } else {
        label_of(candidates.skip(1), k)
    }
}

/// How the search for the key of a blob went, from what it came to: whether
/// the configured key failed; and, where the other keys were tried, which of
/// them decrypts it and which line to add to a keys file, or that none does.
pub open spec fn key_notes(known: KeysView, search: bool, e: BlobView, r: KeyResolution) -> Seq<
    NoteView,
> {
    note_if(
        known.get_for_blob(e.depot, e.crc) is Some && !(r is Configured),
        e.file_name,
        "configured key for depot "@ + text::dec(e.depot as nat)
            + " does not decrypt this blob"@,
    ) + match r {
        KeyResolution::Configured(_) => Seq::empty(),
        KeyResolution::Discovered(k, _) => note_if(
            true,
            e.file_name,
            "key search: depot "@ + label_of(known.candidates(), k)
                + "'s key decrypts it; add `"@ + keys::written(e.depot, e.crc, k@)
                + "` to a keys file"@,
        ),
        KeyResolution::Nothing { tried } => note_if(
            search,
            e.file_name,
            "key search: none of "@ + text::dec(tried as nat)
                + " known keys decrypt this blob"@,
        ),
    }
}

fn same_key(a: &Key, b: &Key) -> (r: bool)
    ensures
        r == (*a == *b),
{
    let mut i: usize = 0;
    while i < 16
        invariant
            i <= 16,
            a@.len() == 16,
            b@.len() == 16,
            forall|k: int| 0 <= k < i ==> a@[k] == b@[k],
        decreases 16 - i,
    {
        if a[i] != b[i] {
            return false;
        }
        i += 1;
    }
    assert(a@ =~= b@);
    assert(*a =~= *b);
    true
}

fn find_label(known: &KeyStore, k: &Key) -> (r: String)
    ensures
        r@ == label_of(known@.candidates(), *k),
{
    let all = known.candidates();
    let ghost c = known@.candidates();
    let mut i: usize = 0;
    assert(c.skip(0) =~= c);
    while i < all.len()
        invariant
            i <= all@.len(),
            c == known@.candidates(),
            all@.len() == c.len(),
            forall|j: int|
                0 <= j < all@.len() ==> (#[trigger] all@[j]).0@ == c[j].0 && all@[j].1 == c[j].1,
            label_of(c, *k) == label_of(c.skip(i as int), *k),
        decreases all@.len() - i,
    {
        proof {
            assert(c.skip(i as int)[0] == c[i as int]);
            assert(c.skip(i as int).skip(1) =~= c.skip(i + 1));
            assert(all@[i as int].1 == c[i as int].1);
        }
        if same_key(&all[i].1, k) {
            return text::owned(all[i].0.as_str());
        }
        i += 1;
    }
    let r = String::new();
    assert(r@ =~= Seq::<char>::empty());
    r
}

/// How the search for the key of a blob went, from what it came to.
pub fn check_key(known: &KeyStore, search: bool, e: &BlobEntry, r: &KeyResolution) -> (n: Vec<Note>)
    requires
        known.wf(),
    ensures
        note_views(n@) == key_notes(known@, search, e@, *r),
{
    let mut out: Vec<Note> = Vec::new();
    assert(note_views(out@) =~= Seq::<NoteView>::empty());
    let configured = match r {
        KeyResolution::Configured(_) => true,
        _ => false,
    };
    if known.get_for_blob(e.depot, e.crc).is_some() && !configured {
        let mut s = text::owned("configured key for depot ");
        text::push_dec(&mut s, e.depot as u64);
        text::push_text(&mut s, " does not decrypt this blob");
        put_note(&mut out, e.file_name.as_str(), s);
    }
    match r {
        KeyResolution::Configured(_) => {},
        KeyResolution::Discovered(k, _) => {
            let mut s = text::owned("key search: depot ");
            text::push_text(&mut s, find_label(known, k).as_str());
            text::push_text(&mut s, "'s key decrypts it; add `");
            let line = keys::key_line(e.depot, e.crc, k);
            text::push_text(&mut s, line.as_str());
            text::push_text(&mut s, "` to a keys file");
            put_note(&mut out, e.file_name.as_str(), s);
        },
        KeyResolution::Nothing { tried } => {
            if search {
                let mut s = text::owned("key search: none of ");
                text::push_dec(&mut s, *tried as u64);
                text::push_text(&mut s, " known keys decrypt this blob");
                put_note(&mut out, e.file_name.as_str(), s);
            }
        },
    }
    assert(note_views(out@) =~= key_notes(known@, search, e@, *r));
    out
}

// ---- versions -------------------------------------------------------------

/// Notes, one after the other.
pub open spec fn joined(lists: Seq<Seq<NoteView>>) -> Seq<NoteView>
    decreases lists.len(),
{
    if lists.len() == 0 {
        Seq::empty()
    } else {
        joined(lists.drop_last()) + lists.last()
    }
}

/// What there is to say of how the key of a blob was found, where it was.
pub open spec fn resolved_notes<B: Backend>(
    s: Setup<B>,
    known: Map<u32, KeyResolution>,
    id: BlobId,
) -> Seq<NoteView> {
    if known.contains_key(id.0) {
        key_notes(s.keys, s.key_search, s.index.blob(id), known[id.0])
    } else {
        Seq::empty()
    }
}

/// What there is to say of a blob, where the keys of `known` are resolved, may
/// come to `n`.
pub open spec fn may_say<B: Backend>(
    s: Setup<B>,
    known: Map<u32, KeyResolution>,
    id: BlobId,
    n: Seq<NoteView>,
) -> bool {
    exists|o: Outcome<ParsedView>| #[trigger]
        s.may_parse(id, o) && n == (match o {
            Ok(p) => blob_notes(s.index, id, p),
            Err(_) => Seq::empty(),
        }) + resolved_notes(s, known, id)
}

/// What there is to say of how a version chain begins may come to `n`.
pub open spec fn may_say_of_begin<B: Backend>(s: Setup<B>, first: BlobId, n: Seq<NoteView>) -> bool {
    ||| exists|p: Option<BlobId>| #[trigger]
        s.may_parent(first, p) && n == chain_notes(s.index, p)
    ||| exists|f: ReadFault| #[trigger] s.may_parse(first, Err(f)) && n.len() == 0
}

/// What there is to say of version `id` may come to `n`: of each blob of its
/// chain, root first, and of how the chain begins; nothing where the chain
/// cannot be followed.
pub open spec fn may_say_of_version<B: Backend>(
    s: Setup<B>,
    known: Map<u32, KeyResolution>,
    id: BlobId,
    n: Seq<NoteView>,
) -> bool {
    ||| n.len() == 0 && exists|x: BlobId, f: ReadFault| #[trigger]
        s.reaches(id, x) && #[trigger] s.may_parse(x, Err(f))
    ||| exists|c: Seq<BlobId>, lists: Seq<Seq<NoteView>>, begin: Seq<NoteView>|
        {
            &&& s.may_chain(id, c)
            &&& #[trigger] all_said(s, known, c, lists)
            &&& #[trigger] may_say_of_begin(s, c[0], begin)
            &&& n == joined(lists) + begin
        }
}

/// What there is to say of the blobs of a chain may come to `lists`.
pub open spec fn all_said<B: Backend>(
    s: Setup<B>,
    known: Map<u32, KeyResolution>,
    c: Seq<BlobId>,
    lists: Seq<Seq<NoteView>>,
) -> bool {
    &&& lists.len() == c.len()
    &&& forall|k: int| 0 <= k < c.len() ==> #[trigger] may_say(s, known, c[k], lists[k])
}

/// The key that a search finds goes by the label of the first known key that
/// decrypts the sample, and the line that is hinted at gives the blob that
/// key.
pub proof fn law_hint_gives_the_key(
    known: KeysView,
    depot: u32,
    crc: u32,
    s: Sample,
)
    requires
        block::resolution(known, true, depot, crc, s) is Discovered,
    ensures
        ({
            let k = block::resolution(known, true, depot, crc, s)->Discovered_0;
            let i = block::first_working(known.candidates(), 0, s)->0;
            &&& known.candidates()[i].1 == k
            &&& label_of(known.candidates(), k) == known.candidates()[i].0
            &&& keys::spec_of(keys::written(depot, crc, k@)) == Ok::<
                keys::SpecView,
                keys::KeyFault,
            >(keys::SpecView::Blob(depot, crc, k))
        }),
{
    let all = known.candidates();
    let k = block::resolution(known, true, depot, crc, s)->Discovered_0;
    assert(all.skip(0) =~= all);
    lemma_first_label(all, 0, s, k);
    keys::law_written_key_reads_back(depot, crc, k);
}

proof fn lemma_first_label(all: Seq<(Seq<char>, Key)>, i: int, s: Sample, k: Key)
    requires
        0 <= i <= all.len(),
        block::first_working(all, i, s) matches Some(j) && all[j].1 == k,
    ensures
        ({
            let j = block::first_working(all, i, s)->0;
            &&& i <= j < all.len()
            &&& block::works(s, k)
            &&& label_of(all.skip(i), k) == all[j].0
        }),
    decreases all.len() - i,
{
    if i < all.len() {
        assert(all.skip(i)[0] == all[i]);
        assert(all.skip(i).skip(1) =~= all.skip(i + 1));
        if !block::works(s, all[i].1) {
            lemma_first_label(all, i + 1, s, k);
        }
    }
}

} // verus!
