//! The virtual tree the filesystem frontends serve.
//!
//! ```text
//! /<depot>/                      one directory per depot id
//! /<depot>/<version>/            the tree as of that version
//! /<depot>/<version>-<crc>/      when several blobs share a version number
//! /<depot>/latest -> <version>   symlink to the newest version
//! /<depot>/by-date/<timestamp>_<version> -> ../<version>
//! ```
//!
//! Every node is named by a [`Key`], which is small and copyable, so a
//! frontend can intern it or carry it in an open file context as it likes.

use std::sync::Arc;
use vstd::prelude::*;

use crate::backend::Backend;
use crate::calendar::{format_stamp, Date};
use crate::format::checksums::Mode;
use crate::format::manifest::flags;
use crate::format::manifest::{Manifest, Node, NO_NODE};
use crate::index::{BlobEntry, BlobId, Depot, Index, IndexView};
use crate::store::block::KeyResolution;
use crate::store::contents::{ParsedBlob, ParsedView};
use crate::store::error::{Outcome, ReadError, ReadFault};
use crate::store::notes;
use crate::store::notes::{Note, NoteView};
use crate::store::setup;
use crate::store::setup::Setup;
use crate::store::table::{FileLoc, LocView};
use crate::store::Store;
use crate::text;

pub mod laws;
pub mod listing;
pub mod shown;

verus! {

/// The name of a node of the tree.
#[derive(Debug, Clone, Copy, PartialEq, Eq, Hash, Structural)]
pub enum Key {
    Root,
    Depot(u32),
    Latest(u32),
    ByDate(u32),
    DateLink(BlobId),
    /// Root of a version's tree.
    Version(BlobId),
    /// Any other manifest node.
    Node(BlobId, u32),
}

#[derive(Debug, Clone, Copy, PartialEq, Eq, Structural)]
pub enum Kind {
    Dir,
    File,
    Symlink,
}

/// What a frontend needs to answer a stat: everything else it invents.
#[derive(Debug, Clone, Copy, PartialEq, Eq, Structural)]
pub struct Meta {
    pub kind: Kind,
    pub size: u64,
    pub mtime: Date,
}

/// One entry of a directory listing. Names are bytes because manifests store
/// them that way; only the frontends decide how to spell them.
#[derive(Debug)]
pub struct Entry {
    pub name: Vec<u8>,
    pub key: Key,
    pub kind: Kind,
}

/// An `Entry`, as the contracts see it.
#[verifier::ext_equal]
pub struct EntryView {
    pub name: Seq<u8>,
    pub key: Key,
    pub kind: Kind,
}

impl View for Entry {
    type V = EntryView;

    open spec fn view(&self) -> EntryView {
        EntryView { name: self.name@, key: self.key, kind: self.kind }
    }
}

pub open spec fn entry_views(v: Seq<Entry>) -> Seq<EntryView> {
    v.map_values(|e: Entry| e@)
}

/// Why the tree cannot answer.
#[derive(Debug)]
pub enum TreeError {
    NotFound,
    NotADirectory,
    Read(ReadError),
}

/// A `TreeError`, as the contracts see it.
pub enum TreeFault {
    NotFound,
    NotADirectory,
    Read(ReadFault),
}

impl View for TreeError {
    type V = TreeFault;

    open spec fn view(&self) -> TreeFault {
        match self {
            TreeError::NotFound => TreeFault::NotFound,
            TreeError::NotADirectory => TreeFault::NotADirectory,
            TreeError::Read(e) => TreeFault::Read(e@),
        }
    }
}

impl TreeFault {
    /// The message that describes the failure.
    pub open spec fn text(self) -> Seq<char> {
        match self {
            TreeFault::NotFound => "no such entry"@,
            TreeFault::NotADirectory => "not a directory"@,
            TreeFault::Read(f) => f.text(),
        }
    }
}

impl TreeError {
    /// The message that describes the failure.
    pub fn message(&self) -> (r: String)
        ensures
            r@ == self@.text(),
    {
        match self {
            TreeError::NotFound => text::owned("no such entry"),
            TreeError::NotADirectory => text::owned("not a directory"),
            TreeError::Read(e) => e.message(),
        }
    }
}

/// What the tree answers, as the contracts see it.
pub type TreeOutcome<T> = core::result::Result<T, TreeFault>;

// ---- what the tree may come to --------------------------------------------

/// Locating file `file_id` of version `id` may come to `r`.
pub open spec fn may_find<B: Backend>(
    s: Setup<B>,
    id: BlobId,
    file_id: u32,
    r: Outcome<LocView>,
) -> bool {
    match r {
        Ok(l) => exists|a: Arc<FileLoc>| #[trigger]
            s.may_locate(id, file_id, Some(a)) && a@ == l && l.fits(s.index),
        Err(f) => (f == ReadFault::MissingRecord(file_id) && s.may_locate(id, file_id, None))
            || exists|x: BlobId| #[trigger] s.reaches(id, x) && s.may_parse(x, Err(f)),
    }
}

/// The location that a search came to, if it found one.
pub open spec fn found(r: Outcome<LocView>) -> Option<LocView> {
    match r {
        Ok(l) => Some(l),
        Err(_) => None,
    }
}

/// What a blob was parsed as, if it could be.
pub open spec fn parsed_as(r: Outcome<ParsedView>) -> Option<ParsedView> {
    match r {
        Ok(p) => Some(p),
        Err(_) => None,
    }
}

/// The metadata of manifest node `idx` may come to `r`, given the manifest.
pub open spec fn may_node_meta<B: Backend>(
    s: Setup<B>,
    blob: BlobId,
    n: Node,
    r: Meta,
) -> bool {
    if n.dir() {
        r == listing::node_meta(s.index, blob, n, None)
    } else {
        exists|l: Outcome<LocView>| #[trigger]
            may_find(s, blob, n.file_id, l) && r == listing::node_meta(
                s.index,
                blob,
                n,
                found(l),
            )
    }
}

/// The metadata of a key may come to `r`.
pub open spec fn may_meta<B: Backend>(s: Setup<B>, key: Key, r: TreeOutcome<Meta>) -> bool {
    match key {
        Key::Node(b, idx) => exists|o: Outcome<ParsedView>| #[trigger]
            s.may_parse(b, o) && match o {
                Err(f) => r == Err::<Meta, TreeFault>(TreeFault::Read(f)),
                Ok(p) => r matches Ok(meta) && may_node_meta(
                    s,
                    b,
                    listing::node_or_blank(p.manifest, idx),
                    meta,
                ),
            },
        _ => match listing::index_meta(s.index, key) {
            Some(meta) => r == Ok::<Meta, TreeFault>(meta),
            None => r == Err::<Meta, TreeFault>(TreeFault::NotFound),
        },
    }
}

/// The directory of a key may come to `r`.
pub open spec fn may_parent<B: Backend>(s: Setup<B>, key: Key, r: Key) -> bool {
    match key {
        Key::Node(b, idx) => exists|o: Outcome<ParsedView>| #[trigger]
            s.may_parse(b, o) && r == match o {
                Ok(p) => listing::node_parent(b, p.manifest, idx),
                Err(_) => Key::Version(b),
            },
        _ => r == listing::index_parent(s.index, key),
    }
}

/// What there is to say of the version that a key is of may come to `n`;
/// there is nothing to say of a key outside the versions' trees.
pub open spec fn may_say<B: Backend>(
    s: Setup<B>,
    known: Map<u32, KeyResolution>,
    key: Key,
    n: Seq<NoteView>,
) -> bool {
    match key {
        Key::Version(b) => notes::may_say_of_version(s, known, b, n),
        Key::Node(b, _) => notes::may_say_of_version(s, known, b, n),
        _ => n.len() == 0,
    }
}

/// The children of version `b`'s directory that `key` names may come to `r`.
pub open spec fn may_list_nodes<B: Backend>(
    s: Setup<B>,
    b: BlobId,
    key: Key,
    r: TreeOutcome<Seq<EntryView>>,
) -> bool {
    exists|o: Outcome<ParsedView>| #[trigger]
        s.may_parse(b, o) && r == match o {
            Err(f) => Err(TreeFault::Read(f)),
            Ok(p) => listing::child_entries(
                b,
                p.manifest,
                listing::node_index(key, p.manifest)->0,
            ),
        }
}

/// The children of a directory may come to `r`.
pub open spec fn may_list<B: Backend>(
    s: Setup<B>,
    key: Key,
    r: TreeOutcome<Seq<EntryView>>,
) -> bool {
    match key {
        Key::Version(b) => may_list_nodes(s, b, key, r),
        Key::Node(b, _) => may_list_nodes(s, b, key, r),
        _ => r == listing::index_entries(s.index, key),
    }
}

/// A search in version `b`'s directory that `parent` names may come to `r`.
pub open spec fn may_lookup_node<B: Backend>(
    s: Setup<B>,
    b: BlobId,
    parent: Key,
    name: Seq<u8>,
    r: TreeOutcome<Option<Key>>,
) -> bool {
    exists|o: Outcome<ParsedView>| #[trigger]
        s.may_parse(b, o) && r == match o {
            Err(f) => Err(TreeFault::Read(f)),
            Ok(p) => Ok(
                listing::child_lookup(
                    b,
                    p.manifest,
                    listing::node_index(parent, p.manifest)->0,
                    name,
                ),
            ),
        }
}

/// A search for a child by name may come to `r`.
pub open spec fn may_lookup<B: Backend>(
    s: Setup<B>,
    parent: Key,
    name: Seq<u8>,
    r: TreeOutcome<Option<Key>>,
) -> bool {
    match parent {
        Key::Version(b) => may_lookup_node(s, b, parent, name, r),
        Key::Node(b, _) => may_lookup_node(s, b, parent, name, r),
        _ => r == Ok::<Option<Key>, TreeFault>(
            listing::bytes_lookup(s.index, parent, name),
        ),
    }
}

/// Where a file's bytes are may come to `r`.
pub open spec fn may_locate<B: Backend>(s: Setup<B>, key: Key, r: TreeOutcome<LocView>) -> bool {
    match key {
        Key::Node(b, idx) => exists|o: Outcome<ParsedView>| #[trigger]
            s.may_parse(b, o) && match o {
                Err(f) => r == Err::<LocView, TreeFault>(TreeFault::Read(f)),
                Ok(p) => if !p.manifest.has(idx) || p.manifest.nodes[idx as int].dir() {
                    r == Err::<LocView, TreeFault>(TreeFault::NotFound)
                } else {
                    exists|l: Outcome<LocView>| #[trigger]
                        may_find(s, b, p.manifest.nodes[idx as int].file_id, l) && r
                            == listing::lifted(l)
                },
            },
        _ => r == Err::<LocView, TreeFault>(TreeFault::NotFound),
    }
}

/// The attributes of manifest node `idx` may come to `r`, given what its blob
/// was parsed as.
pub open spec fn may_node_attrs<B: Backend>(
    s: Setup<B>,
    b: BlobId,
    idx: u32,
    p: Option<ParsedView>,
    r: Seq<listing::Attr>,
) -> bool {
    match p {
        Some(q) => if q.manifest.has(idx) && !q.manifest.nodes[idx as int].dir() {
            exists|l: Outcome<LocView>| #[trigger]
                may_find(s, b, q.manifest.nodes[idx as int].file_id, l) && r
                    == listing::node_attrs(s.index, b, idx, p, found(l))
        } else {
            r == listing::node_attrs(s.index, b, idx, p, None)
        },
        None => r == listing::node_attrs(s.index, b, idx, p, None),
    }
}

/// What is known of manifest node `idx` may come to `r`.
pub open spec fn may_node_xattrs<B: Backend>(
    s: Setup<B>,
    b: BlobId,
    idx: u32,
    r: Seq<listing::Attr>,
) -> bool {
    exists|o: Outcome<ParsedView>| #[trigger]
        s.may_parse(b, o) && may_node_attrs(s, b, idx, parsed_as(o), r)
}

/// What is known of a key may come to `r`.
pub open spec fn may_xattrs<B: Backend>(s: Setup<B>, key: Key, r: Seq<listing::Attr>) -> bool {
    match key {
        Key::Depot(d) => r == seq![("user.steam2.depot"@, text::dec(d as nat))],
        Key::Version(b) => exists|o: Outcome<ParsedView>| #[trigger]
            s.may_parse(b, o) && r == listing::version_attrs(s.index, b, parsed_as(o)),
        Key::Node(b, idx) => may_node_xattrs(s, b, idx, r),
        _ => r == Seq::<listing::Attr>::empty(),
    }
}

// ---- from plain values ----------------------------------------------------

/// The date of a blob, or 1970-01-01.
pub fn blob_date(ix: &Index, id: BlobId) -> (r: Date)
    requires
        ix@.has_blob(id),
    ensures
        r == listing::blob_date(ix@, id),
{
    match ix.blob(id).date {
        Some(d) => d,
        None => Date::epoch(),
    }
}

/// Key for a manifest node, mapping the root node to `Version`.
pub fn node_key(blob: BlobId, m: &Manifest, idx: u32) -> (r: Key)
    requires
        m.wf(),
    ensures
        r == listing::node_key(blob, m@, idx),
{
    if idx == m.root() {
        Key::Version(blob)
    } else {
        Key::Node(blob, idx)
    }
}

fn node_or_blank(m: &Manifest, idx: u32) -> (r: Node)
    ensures
        r == listing::node_or_blank(m@, idx),
{
    match m.node(idx) {
        Some(n) => *n,
        None => Node {
            name_offset: 0,
            count_or_size: 0,
            file_id: NO_NODE,
            flags: 0,
            parent: NO_NODE,
            next_sibling: NO_NODE,
            first_child: NO_NODE,
        },
    }
}

/// Metadata for a manifest node, with where its file is; file mtimes come
/// from the version that last changed the file when its table is available.
pub fn node_meta(ix: &Index, blob: BlobId, n: &Node, loc: Option<&FileLoc>) -> (r: Meta)
    requires
        ix@.has_blob(blob),
        loc matches Some(l) ==> ix@.has_blob(l@.source),
    ensures
        r == listing::node_meta(
            ix@,
            blob,
            *n,
            match loc {
                Some(l) => Some(l@),
                None => None,
            },
        ),
{
    if n.is_dir() {
        return Meta { kind: Kind::Dir, size: 0, mtime: blob_date(ix, blob) };
    }
    match loc {
        Some(l) => Meta {
            kind: Kind::File,
            size: l.record.size,
            mtime: blob_date(ix, l.source),
        },
        None => Meta {
            kind: Kind::File,
            size: n.count_or_size as u64,
            mtime: blob_date(ix, blob),
        },
    }
}

/// Where a symlink points, relative to its own directory.
pub fn link_target(ix: &Index, key: Key) -> (r: Option<String>)
    requires
        ix.wf(),
        listing::known(ix@, key),
    ensures
        match r {
            Some(t) => listing::link_target(ix@, key) == Some(t@),
            None => listing::link_target(ix@, key) is None,
        },
{
    match key {
        Key::Latest(d) => match ix.latest(d) {
            Some(b) => match ix.depot(d) {
                Some(x) => match x.name_of(b) {
                    Some(n) => Some(text::owned(n)),
                    None => None,
                },
                None => None,
            },
            None => None,
        },
        Key::DateLink(b) => match ix.depot(ix.blob(b).depot) {
            Some(x) => match x.name_of(b) {
                Some(n) => {
                    let mut t = text::owned("../");
                    text::push_text(&mut t, n);
                    Some(t)
                },
                None => None,
            },
            None => None,
        },
        _ => None,
    }
}

fn link_size(ix: &Index, key: Key) -> (r: u64)
    requires
        ix.wf(),
        listing::known(ix@, key),
    ensures
        r == listing::link_size(ix@, key),
{
    match link_target(ix, key) {
        Some(t) => t.as_str().as_bytes().len() as u64,
        None => 0,
    }
}

/// Metadata of a key that names no manifest node; `None` for a link to
/// nothing.
pub fn index_meta(ix: &Index, key: Key) -> (r: Option<Meta>)
    requires
        ix.wf(),
        listing::known(ix@, key),
    ensures
        r == listing::index_meta(ix@, key),
{
    match key {
        Key::Root => Some(Meta { kind: Kind::Dir, size: 0, mtime: Date::epoch() }),
        Key::Depot(d) => {
            let mtime = match ix.latest(d) {
                Some(b) => blob_date(ix, b),
                None => Date::epoch(),
            };
            Some(Meta { kind: Kind::Dir, size: 0, mtime })
        },
        Key::ByDate(_) => Some(Meta { kind: Kind::Dir, size: 0, mtime: Date::epoch() }),
        Key::Latest(d) => match ix.latest(d) {
            Some(b) => Some(
                Meta { kind: Kind::Symlink, size: link_size(ix, key), mtime: blob_date(ix, b) },
            ),
            None => None,
        },
        Key::DateLink(b) => Some(
            Meta { kind: Kind::Symlink, size: link_size(ix, key), mtime: blob_date(ix, b) },
        ),
        Key::Version(b) => Some(Meta { kind: Kind::Dir, size: 0, mtime: blob_date(ix, b) }),
        Key::Node(_, _) => None,
    }
}

fn put_entry(out: &mut Vec<Entry>, name: &str, key: Key, kind: Kind)
    ensures
        entry_views(final(out)@) == entry_views(old(out)@).push(
            EntryView { name: text::utf8(name@), key, kind },
        ),
{
    let e = Entry { name: text::bytes_of(name), key, kind };
    out.push(e);
    assert(entry_views(out@) =~= entry_views(old(out)@).push(e@));
}

fn list_depots(ix: &Index) -> (out: Vec<Entry>)
    requires
        ix.wf(),
    ensures
        entry_views(out@) == listing::depot_entries(ix@),
{
    let ghost v = ix@;
    let depots = ix.depots();
    let ghost nums = depots@.map_values(|d: (u32, Depot)| d.0);
    proof {
        assert forall|d: u32| nums.contains(d) <==> #[trigger] v.has_depot(d) by {
            if nums.contains(d) {
                let k = choose|k: int| 0 <= k < nums.len() && nums[k] == d;
                assert(depots@[k].0 == d);
            }
            if v.has_depot(d) {
                let k = choose|k: int| 0 <= k < depots@.len() && (#[trigger] depots@[k]).0 == d;
                assert(nums[k] == d);
            }
        }
        assert(v.is_depot_list(nums));
        crate::index::lemma_depot_list(v, nums);
    }
    let mut out: Vec<Entry> = Vec::new();
    let mut i: usize = 0;
    while i < depots.len()
        invariant
            i <= depots@.len(),
            nums == depots@.map_values(|d: (u32, Depot)| d.0),
            nums == v.depot_list(),
            entry_views(out@) == listing::depot_entries(v).take(i as int),
        decreases depots@.len() - i,
    {
        let d: u32 = depots[i].0;
        let mut name = String::new();
        text::push_dec(&mut name, d as u64);
        put_entry(&mut out, name.as_str(), Key::Depot(d), Kind::Dir);
        proof {
            assert(nums[i as int] == d);
            assert(name@ =~= text::dec(d as nat));
            assert(entry_views(out@) =~= listing::depot_entries(v).take(i + 1));
        }
        i += 1;
    }
    assert(listing::depot_entries(v).take(i as int) =~= listing::depot_entries(v));
    out
}

fn list_versions(d: &Depot, Ghost(v): Ghost<IndexView>, Ghost(depot): Ghost<u32>) -> (out: Vec<
    Entry,
>)
    requires
        d.wf(),
        d@ == v.depot(depot),
    ensures
        entry_views(out@) == listing::version_entries(v, depot),
{
    let versions = d.versions();
    let mut out: Vec<Entry> = Vec::new();
    let mut i: usize = 0;
    while i < versions.len()
        invariant
            i <= versions@.len(),
            d@ == v.depot(depot),
            versions@.len() == d@.blobs.len(),
            forall|k: int|
                0 <= k < versions@.len() ==> (#[trigger] versions@[k]).0@ == d@.names[k]
                    && versions@[k].1 == BlobId(d@.blobs[k]),
            entry_views(out@) == listing::version_entries(v, depot).take(i as int),
        decreases versions@.len() - i,
    {
        put_entry(&mut out, versions[i].0, Key::Version(versions[i].1), Kind::Dir);
        assert(entry_views(out@) =~= listing::version_entries(v, depot).take(i + 1));
        i += 1;
    }
    assert(listing::version_entries(v, depot).take(i as int) =~= listing::version_entries(
        v,
        depot,
    ));
    out
}

fn list_dates(d: &Depot, Ghost(v): Ghost<IndexView>, Ghost(depot): Ghost<u32>) -> (out: Vec<Entry>)
    requires
        d.wf(),
        d@ == v.depot(depot),
    ensures
        entry_views(out@) == listing::date_entries(v, depot),
{
    let links = d.date_links();
    let mut out: Vec<Entry> = Vec::new();
    let mut i: usize = 0;
    while i < links.len()
        invariant
            i <= links@.len(),
            d@ == v.depot(depot),
            links@.len() == d@.date_order.len(),
            forall|k: int|
                0 <= k < links@.len() ==> (#[trigger] links@[k]).1 == BlobId(d@.date_order[k])
                    && links@[k].0@ == (match d@.link_of(d@.date_order[k]) {
                    Some(link) => link,
                    None => ""@,
                }),
            entry_views(out@) == listing::date_entries(v, depot).take(i as int),
        decreases links@.len() - i,
    {
        put_entry(&mut out, links[i].0, Key::DateLink(links[i].1), Kind::Symlink);
        assert(entry_views(out@) =~= listing::date_entries(v, depot).take(i + 1));
        i += 1;
    }
    assert(listing::date_entries(v, depot).take(i as int) =~= listing::date_entries(v, depot));
    out
}

/// The children of a directory that is no part of a version's tree.
pub fn index_entries(ix: &Index, key: Key) -> (r: core::result::Result<Vec<Entry>, TreeError>)
    requires
        ix.wf(),
    ensures
        match r {
            Ok(out) => listing::index_entries(ix@, key) == Ok::<Seq<EntryView>, TreeFault>(
                entry_views(out@),
            ),
            Err(e) => listing::index_entries(ix@, key) == Err::<Seq<EntryView>, TreeFault>(e@),
        },
{
    match key {
        Key::Root => Ok(list_depots(ix)),
        Key::Depot(d) => {
            let mut out: Vec<Entry> = match ix.depot(d) {
                Some(dep) => list_versions(dep, Ghost(ix@), Ghost(d)),
                None => {
                    let none: Vec<Entry> = Vec::new();
                    assert(entry_views(none@) =~= Seq::<EntryView>::empty());
                    return Ok(none);
                },
            };
            let ghost names = entry_views(out@);
            if ix.latest(d).is_some() {
                put_entry(&mut out, "latest", Key::Latest(d), Kind::Symlink);
            }
            put_entry(&mut out, "by-date", Key::ByDate(d), Kind::Dir);
            assert(entry_views(out@) =~= names + (if ix@.latest(d) is Some {
                seq![listing::latest_entry(d)]
            } else {
                Seq::empty()
            }) + seq![listing::by_date_entry(d)]);
            Ok(out)
        },
        Key::ByDate(d) => match ix.depot(d) {
            Some(dep) => Ok(list_dates(dep, Ghost(ix@), Ghost(d))),
            None => {
                let none: Vec<Entry> = Vec::new();
                assert(entry_views(none@) =~= Seq::<EntryView>::empty());
                Ok(none)
            },
        },
        _ => Err(TreeError::NotADirectory),
    }
}

/// The children of a directory of a version's tree.
pub fn child_entries(blob: BlobId, m: &Manifest, dir: u32) -> (r: core::result::Result<
    Vec<Entry>,
    TreeError,
>)
    requires
        m.wf(),
    ensures
        match r {
            Ok(out) => listing::child_entries(blob, m@, dir) == Ok::<Seq<EntryView>, TreeFault>(
                entry_views(out@),
            ),
            Err(e) => listing::child_entries(blob, m@, dir) == Err::<Seq<EntryView>, TreeFault>(e@),
        },
{
    let is_dir = match m.node(dir) {
        Some(n) => n.is_dir(),
        None => false,
    };
    if !is_dir {
        return Err(TreeError::NotADirectory);
    }
    proof {
        m.lemma_sound();
    }
    let kids = m.children(dir).collect();
    let ghost want = listing::child_entries(blob, m@, dir)->Ok_0;
    let mut out: Vec<Entry> = Vec::new();
    let mut i: usize = 0;
    while i < kids.len()
        invariant
            m.wf(),
            m.searchable(),
            i <= kids@.len(),
            kids@ == m@.children(dir),
            want == Seq::new(
                m@.children(dir).len(),
                |k: int| listing::child_entry(blob, m@, m@.children(dir)[k]),
            ),
            entry_views(out@) == want.take(i as int),
        decreases kids@.len() - i,
    {
        let c: u32 = kids[i];
        let kind = match m.node(c) {
            Some(n) => if n.is_dir() {
                Kind::Dir
            } else {
                Kind::File
            },
            None => Kind::File,
        };
        let e = Entry { name: text::copy_bytes(m.name(c)), key: node_key(blob, m, c), kind };
        proof {
            assert(want[i as int] == listing::child_entry(blob, m@, c));
            assert(e@ =~= want[i as int]);
        }
        let ghost shown = e@;
        let ghost before = out@;
        out.push(e);
        proof {
            assert(entry_views(out@) =~= entry_views(before).push(shown));
            assert(want.take(i + 1) =~= want.take(i as int).push(want[i as int]));
        }
        i += 1;
    }
    assert(want.take(i as int) =~= want);
    Ok(out)
}

/// A child by name, of a directory that is no part of a version's tree.
pub fn index_lookup(ix: &Index, parent: Key, name: &str) -> (r: Option<Key>)
    requires
        ix.wf(),
    ensures
        r == listing::index_lookup(ix@, parent, name@),
{
    match parent {
        Key::Root => {
            let chars = text::chars_of(name);
            match text::parse_u32(chars.as_slice(), 10) {
                Some(d) => match ix.depot(d) {
                    Some(_) => Some(Key::Depot(d)),
                    None => None,
                },
                None => None,
            }
        },
        Key::Depot(d) => {
            if text::same_text(name, "latest") {
                match ix.latest(d) {
                    Some(_) => Some(Key::Latest(d)),
                    None => None,
                }
            } else if text::same_text(name, "by-date") {
                Some(Key::ByDate(d))
            } else {
                match ix.depot(d) {
                    Some(dep) => match dep.lookup_name(name) {
                        Some(b) => Some(Key::Version(b)),
                        None => None,
                    },
                    None => None,
                }
            }
        },
        Key::ByDate(d) => match ix.depot(d) {
            Some(dep) => match dep.lookup_date_link(name) {
                Some(b) => Some(Key::DateLink(b)),
                None => None,
            },
            None => None,
        },
        _ => None,
    }
}

/// A child by name, of a directory of a version's tree.
pub fn child_lookup(blob: BlobId, m: &Manifest, dir: u32, name: &[u8]) -> (r: Option<Key>)
    requires
        m.wf(),
    ensures
        r == listing::child_lookup(blob, m@, dir, name@),
{
    match m.child_by_name(dir, name) {
        Some(c) => Some(node_key(blob, m, c)),
        None => None,
    }
}

/// The directory of a manifest node.
pub fn node_parent(blob: BlobId, m: &Manifest, idx: u32) -> (r: Key)
    requires
        m.wf(),
    ensures
        r == listing::node_parent(blob, m@, idx),
{
    match m.node(idx) {
        Some(n) => node_key(blob, m, n.parent),
        None => Key::Version(blob),
    }
}

// ---- attributes -----------------------------------------------------------

/// Attributes as the contracts see them.
pub open spec fn attr_views(v: Seq<(&'static str, String)>) -> Seq<listing::Attr> {
    v.map_values(|a: (&'static str, String)| (a.0@, a.1@))
}

fn put_attr(out: &mut Vec<(&'static str, String)>, name: &'static str, value: String)
    ensures
        attr_views(final(out)@) == attr_views(old(out)@).push((name@, value@)),
{
    let ghost shown = (name@, value@);
    out.push((name, value));
    assert(attr_views(out@) =~= attr_views(old(out)@).push(shown));
}

/// The name of a storage mode.
pub fn mode_name(mode: Mode) -> (r: &'static str)
    ensures
        r@ == listing::mode_name(mode),
{
    match mode {
        Mode::Plain => "Plain",
        Mode::Compressed => "Compressed",
        Mode::CompressedEncrypted => "CompressedEncrypted",
        Mode::Encrypted => "Encrypted",
    }
}

/// A version and a crc, as a blob records its parent.
pub fn version_crc(version: u32, crc: u32) -> (r: String)
    ensures
        r@ == listing::version_crc(version, crc),
{
    let mut s = text::decimal(version as u64);
    text::push_text(&mut s, "-");
    text::push_hex8(&mut s, crc);
    s
}

fn put_entry_attrs(out: &mut Vec<(&'static str, String)>, e: &BlobEntry)
    ensures
        attr_views(final(out)@) == listing::with_entry_attrs(attr_views(old(out)@), e@),
{
    put_attr(out, "user.steam2.depot", text::decimal(e.depot as u64));
    put_attr(out, "user.steam2.version", text::decimal(e.version as u64));
    put_attr(out, "user.steam2.blob", text::owned(e.file_name.as_str()));
    match e.date {
        Some(d) => put_attr(out, "user.steam2.date", format_stamp(d.secs)),
        None => {},
    }
}

fn put_blob_attrs(out: &mut Vec<(&'static str, String)>, p: &ParsedBlob)
    ensures
        attr_views(final(out)@) == listing::with_blob_attrs(attr_views(old(out)@), p@),
{
    put_attr(out, "user.steam2.app_id", text::decimal(p.manifest.app_id() as u64));
    let mut crc = String::new();
    text::push_hex8(&mut crc, p.meta.dat_crc);
    assert(crc@ =~= text::hex8(p.meta.dat_crc as nat));
    put_attr(out, "user.steam2.dat_crc", crc);
    match p.meta.prev {
        Some((v, c)) => put_attr(out, "user.steam2.parent", version_crc(v, c)),
        None => {},
    }
}

fn put_node_attrs(out: &mut Vec<(&'static str, String)>, n: &Node)
    ensures
        attr_views(final(out)@) == listing::with_node_attrs(attr_views(old(out)@), *n),
{
    let mut word = String::new();
    text::push_prefixed_hex(&mut word, n.flags as u64, 6);
    assert(word@ =~= text::prefixed_hex(n.flags as nat, 6));
    put_attr(out, "user.steam2.flags", word);
    put_attr(out, "user.steam2.flags_decoded", flags::describe(n.flags));
    if !n.is_dir() {
        put_attr(out, "user.steam2.file_id", text::decimal(n.file_id as u64));
    }
}

fn put_loc_attrs(out: &mut Vec<(&'static str, String)>, ix: &Index, l: &FileLoc)
    requires
        l@.fits(ix@),
    ensures
        attr_views(final(out)@) == listing::with_loc_attrs(attr_views(old(out)@), ix@, l@),
{
    put_attr(out, "user.steam2.mode", text::owned(mode_name(l.record.mode)));
    put_attr(out, "user.steam2.source_version", text::decimal(ix.blob(l.source).version as u64));
    put_attr(out, "user.steam2.blocks", text::decimal(l.record.num_blocks() as u64));
    match l.dat {
        Some(d) => {
            let dat = ix.dat(d);
            put_attr(out, "user.steam2.dat", text::owned(dat.path.as_str()));
            put_attr(out, "user.steam2.dat_offset", text::decimal(l.record.offset));
            if dat.incomplete {
                put_attr(out, "user.steam2.dat_incomplete", text::owned("1"));
            }
        },
        None => put_attr(out, "user.steam2.dat", text::owned("missing")),
    }
}

/// What is known of a version, with what its blob was parsed as.
pub fn version_attrs(ix: &Index, blob: BlobId, p: Option<&ParsedBlob>) -> (r: Vec<
    (&'static str, String),
>)
    requires
        ix@.has_blob(blob),
    ensures
        attr_views(r@) == listing::version_attrs(
            ix@,
            blob,
            match p {
                Some(p) => Some(p@),
                None => None,
            },
        ),
{
    let mut out: Vec<(&'static str, String)> = Vec::new();
    assert(attr_views(out@) =~= Seq::<listing::Attr>::empty());
    put_entry_attrs(&mut out, ix.blob(blob));
    match p {
        Some(p) => put_blob_attrs(&mut out, p),
        None => {},
    }
    out
}

/// What is known of a manifest node, with what its blob was parsed as and
/// where its file is.
pub fn node_attrs(
    ix: &Index,
    blob: BlobId,
    idx: u32,
    p: Option<&ParsedBlob>,
    loc: Option<&FileLoc>,
) -> (r: Vec<(&'static str, String)>)
    requires
        ix@.has_blob(blob),
        loc matches Some(l) ==> l@.fits(ix@),
    ensures
        attr_views(r@) == listing::node_attrs(
            ix@,
            blob,
            idx,
            match p {
                Some(p) => Some(p@),
                None => None,
            },
            match loc {
                Some(l) => Some(l@),
                None => None,
            },
        ),
{
    let mut out = version_attrs(ix, blob, p);
    match p {
        Some(p) => match p.manifest.node(idx) {
            Some(n) => {
                put_node_attrs(&mut out, n);
                if !n.is_dir() {
                    match loc {
                        Some(l) => put_loc_attrs(&mut out, ix, l),
                        None => {},
                    }
                }
            },
            None => {},
        },
        None => {},
    }
    out
}

// ---- the tree -------------------------------------------------------------

/// The tree over one [`Store`].
#[verifier::reject_recursive_types(B)]
pub struct Tree<B: Backend> {
    pub store: Store<B>,
}

impl<B: Backend> Tree<B> {
    pub open spec fn wf(&self) -> bool {
        self.store.wf()
    }

    /// What the tree works on.
    pub open spec fn setup(&self) -> Setup<B> {
        self.store.setup()
    }

    /// The blob that a key names, if it names one, is in the index.
    pub open spec fn knows(&self, key: Key) -> bool {
        listing::known(self.setup().index, key)
    }

    pub fn new(store: Store<B>) -> (r: Tree<B>)
        ensures
            r.store == store,
    {
        Tree { store }
    }

    /// Metadata for a manifest node.
    fn node_meta(&mut self, blob: BlobId, n: &Node) -> (r: Meta)
        requires
            old(self).wf(),
            old(self).setup().index.has_blob(blob),
        ensures
            final(self).wf(),
            final(self).setup() == old(self).setup(),
            final(self).store.past() == old(self).store.past(),
            may_node_meta(old(self).setup(), blob, *n, r),
    {
        if n.is_dir() {
            return node_meta(self.store.index(), blob, n, None);
        }
        let ghost s = self.setup();
        match self.store.locate(blob, n.file_id) {
            Ok(l) => {
                assert(may_find(s, blob, n.file_id, Ok(l@)));
                node_meta(self.store.index(), blob, n, Some(&*l))
            },
            Err(e) => {
                assert(may_find(s, blob, n.file_id, Err(e@)));
                node_meta(self.store.index(), blob, n, None)
            },
        }
    }

    pub fn meta(&mut self, key: Key) -> (r: core::result::Result<Meta, TreeError>)
        requires
            old(self).wf(),
            old(self).knows(key),
        ensures
            final(self).wf(),
            final(self).setup() == old(self).setup(),
            final(self).store.past() == old(self).store.past(),
            match r {
                Ok(m) => may_meta(old(self).setup(), key, Ok(m)),
                Err(e) => may_meta(old(self).setup(), key, Err(e@)),
            },
    {
        match key {
            Key::Node(b, idx) => match self.store.parsed(b) {
                Ok(p) => {
                    let n = node_or_blank(&*p.manifest, idx);
                    Ok(self.node_meta(b, &n))
                },
                Err(e) => Err(TreeError::Read(e)),
            },
            _ => match index_meta(self.store.index(), key) {
                Some(m) => Ok(m),
                None => Err(TreeError::NotFound),
            },
        }
    }

    /// Where a symlink points, relative to its own directory.
    pub fn link_target(&self, key: Key) -> (r: Option<String>)
        requires
            self.wf(),
            self.knows(key),
        ensures
            match r {
                Some(t) => listing::link_target(self.setup().index, key) == Some(t@),
                None => listing::link_target(self.setup().index, key) is None,
            },
    {
        link_target(self.store.index(), key)
    }

    /// The directory a key lives in. The root is its own, and a node whose
    /// manifest will not load reports its version.
    pub fn parent(&mut self, key: Key) -> (r: Key)
        requires
            old(self).wf(),
            old(self).knows(key),
        ensures
            final(self).wf(),
            final(self).setup() == old(self).setup(),
            final(self).store.past() == old(self).store.past(),
            may_parent(old(self).setup(), key, r),
            old(self).knows(r),
    {
        match key {
            Key::Root => Key::Root,
            Key::Depot(_) => Key::Root,
            Key::Latest(d) => Key::Depot(d),
            Key::ByDate(d) => Key::Depot(d),
            Key::DateLink(b) => Key::ByDate(self.store.index().blob(b).depot),
            Key::Version(b) => Key::Depot(self.store.index().blob(b).depot),
            Key::Node(b, idx) => match self.store.parsed(b) {
                Ok(p) => node_parent(b, &*p.manifest, idx),
                Err(_) => Key::Version(b),
            },
        }
    }

    /// What there is to say of the version that a key is of.
    pub fn notes(&mut self, key: Key) -> (r: Vec<Note>)
        requires
            old(self).wf(),
            old(self).knows(key),
        ensures
            final(self).wf(),
            final(self).setup() == old(self).setup(),
            final(self).store.past() == old(self).store.past(),
            may_say(
                old(self).setup(),
                old(self).store.resolved(),
                key,
                notes::note_views(r@),
            ),
    {
        match key {
            Key::Version(b) | Key::Node(b, _) => self.store.version_notes(b),
            _ => Vec::new(),
        }
    }

    fn node_entries(&mut self, b: BlobId, key: Key) -> (r: core::result::Result<
        Vec<Entry>,
        TreeError,
    >)
        requires
            old(self).wf(),
            old(self).setup().index.has_blob(b),
            key == Key::Version(b) || (key matches Key::Node(x, _) && x == b),
        ensures
            final(self).wf(),
            final(self).setup() == old(self).setup(),
            final(self).store.past() == old(self).store.past(),
            match r {
                Ok(v) => may_list_nodes(old(self).setup(), b, key, Ok(entry_views(v@))),
                Err(e) => may_list_nodes(old(self).setup(), b, key, Err(e@)),
            },
            r matches Ok(v) ==> forall|k: int|
                0 <= k < v@.len() ==> old(self).knows((#[trigger] v@[k]).key),
    {
        let p = match self.store.parsed(b) {
            Ok(p) => p,
            Err(e) => {
                return Err(TreeError::Read(e));
            },
        };
        let dir: u32 = match key {
            Key::Node(_, idx) => idx,
            _ => p.manifest.root(),
        };
        let r = child_entries(b, &*p.manifest, dir);
        proof {
            if let Ok(v) = &r {
                assert forall|k: int| 0 <= k < v@.len() implies self.knows(
                    (#[trigger] v@[k]).key,
                ) by {
                    assert(entry_views(v@)[k] == v@[k]@);
                    laws::lemma_child_known(self.setup().index, b, p.manifest@, dir, k);
                }
            }
        }
        r
    }

    /// A directory's children, without `.` and `..`.
    pub fn entries(&mut self, key: Key) -> (r: core::result::Result<Vec<Entry>, TreeError>)
        requires
            old(self).wf(),
            old(self).knows(key),
        ensures
            final(self).wf(),
            final(self).setup() == old(self).setup(),
            final(self).store.past() == old(self).store.past(),
            match r {
                Ok(v) => may_list(old(self).setup(), key, Ok(entry_views(v@))),
                Err(e) => may_list(old(self).setup(), key, Err(e@)),
            },
            r matches Ok(v) ==> forall|k: int|
                0 <= k < v@.len() ==> old(self).knows((#[trigger] v@[k]).key),
    {
        match key {
            Key::Version(b) => self.node_entries(b, key),
            Key::Node(b, _) => self.node_entries(b, key),
            _ => {
                let ix = self.store.index();
                let r = index_entries(ix, key);
                proof {
                    if let Ok(v) = &r {
                        assert forall|k: int| 0 <= k < v@.len() implies self.knows(
                            (#[trigger] v@[k]).key,
                        ) by {
                            laws::lemma_entry_known(ix, key, k);
                            assert(entry_views(v@)[k] == v@[k]@);
                        }
                    }
                }
                r
            },
        }
    }

    fn lookup_node(&mut self, b: BlobId, parent: Key, name: &[u8]) -> (r: core::result::Result<
        Option<Key>,
        TreeError,
    >)
        requires
            old(self).wf(),
            old(self).setup().index.has_blob(b),
            parent == Key::Version(b) || (parent matches Key::Node(x, _) && x == b),
        ensures
            final(self).wf(),
            final(self).setup() == old(self).setup(),
            final(self).store.past() == old(self).store.past(),
            match r {
                Ok(k) => may_lookup_node(old(self).setup(), b, parent, name@, Ok(k)),
                Err(e) => may_lookup_node(old(self).setup(), b, parent, name@, Err(e@)),
            },
            r matches Ok(Some(k)) ==> old(self).knows(k),
    {
        let p = match self.store.parsed(b) {
            Ok(p) => p,
            Err(e) => {
                return Err(TreeError::Read(e));
            },
        };
        let dir: u32 = match parent {
            Key::Node(_, idx) => idx,
            _ => p.manifest.root(),
        };
        Ok(child_lookup(b, &*p.manifest, dir, name))
    }

    /// One child by name. `None` means "no such name here", which is distinct
    /// from the directory itself being unreadable.
    pub fn lookup(&mut self, parent: Key, name: &[u8]) -> (r: core::result::Result<
        Option<Key>,
        TreeError,
    >)
        requires
            old(self).wf(),
            old(self).knows(parent),
        ensures
            final(self).wf(),
            final(self).setup() == old(self).setup(),
            final(self).store.past() == old(self).store.past(),
            match r {
                Ok(k) => may_lookup(old(self).setup(), parent, name@, Ok(k)),
                Err(e) => may_lookup(old(self).setup(), parent, name@, Err(e@)),
            },
            r matches Ok(Some(k)) ==> old(self).knows(k),
    {
        match parent {
            Key::Version(b) => self.lookup_node(b, parent, name),
            Key::Node(b, _) => self.lookup_node(b, parent, name),
            _ => {
                let shown = text::from_utf8_lossy(name);
                let ix = self.store.index();
                proof {
                    laws::lemma_lookup_known(ix, parent, shown@);
                    if !vstd::utf8::valid_utf8(name@) && listing::index_lookup(
                        ix@,
                        parent,
                        shown@,
                    ) is Some {
                        laws::lemma_lookup_is_ascii(ix, parent, shown@, '\u{fffd}');
                    }
                }
                Ok(index_lookup(ix, parent, shown.as_str()))
            },
        }
    }

    /// Where a file's bytes are. Only `Key::Node` can have any.
    pub fn locate(&mut self, key: Key) -> (r: core::result::Result<Arc<FileLoc>, TreeError>)
        requires
            old(self).wf(),
            old(self).knows(key),
        ensures
            final(self).wf(),
            final(self).setup() == old(self).setup(),
            final(self).store.past() == old(self).store.past(),
            match r {
                Ok(l) => may_locate(old(self).setup(), key, Ok(l@)) && l@.fits(
                    old(self).setup().index,
                ),
                Err(e) => may_locate(old(self).setup(), key, Err(e@)),
            },
    {
        let (b, idx) = match key {
            Key::Node(b, idx) => (b, idx),
            _ => {
                return Err(TreeError::NotFound);
            },
        };
        let ghost s = self.setup();
        let p = match self.store.parsed(b) {
            Ok(p) => p,
            Err(e) => {
                return Err(TreeError::Read(e));
            },
        };
        let n = match p.manifest.node(idx) {
            Some(n) => n,
            None => {
                return Err(TreeError::NotFound);
            },
        };
        if n.is_dir() {
            return Err(TreeError::NotFound);
        }
        match self.store.locate(b, n.file_id) {
            Ok(l) => {
                assert(may_find(s, b, n.file_id, Ok(l@)));
                Ok(l)
            },
            Err(e) => {
                assert(may_find(s, b, n.file_id, Err(e@)));
                Err(TreeError::Read(e))
            },
        }
    }

    /// Read `len` decoded bytes of a file starting at `offset`.
    pub fn read(&mut self, loc: &FileLoc, offset: u64, len: usize) -> (r: core::result::Result<
        Vec<u8>,
        TreeError,
    >)
        requires
            old(self).wf(),
            loc@.fits(old(self).setup().index),
        ensures
            final(self).wf(),
            final(self).setup() == old(self).setup(),
            if offset >= loc@.record.size || len == 0 {
                final(self).store.past() == old(self).store.past()
            } else {
                old(self).setup().may_pass(old(self).store.past(), final(self).store.past(), loc@)
            },
            final(self).store.past().covers(old(self).store.past()),
            ({
                let size = loc@.record.size as int;
                let end = setup::least(offset + len, size);
                if offset >= size || len == 0 {
                    r matches Ok(v) && v@.len() == 0
                } else {
                    match r {
                        Ok(v) => old(self).setup().may_file(
                            final(self).store.past(),
                            loc@,
                            offset as int,
                            end,
                            v@,
                        ),
                        Err(e) => e@ matches TreeFault::Read(f) && old(
                            self,
                        ).setup().may_read_fail(
                            final(self).store.past(),
                            loc@,
                            offset as int,
                            end,
                            f,
                        ),
                    }
                }
            }),
    {
        match self.store.read(loc, offset, len) {
            Ok(v) => Ok(v),
            Err(e) => Err(TreeError::Read(e)),
        }
    }

    fn node_xattrs(&mut self, b: BlobId, idx: u32) -> (r: Vec<(&'static str, String)>)
        requires
            old(self).wf(),
            old(self).setup().index.has_blob(b),
        ensures
            final(self).wf(),
            final(self).setup() == old(self).setup(),
            final(self).store.past() == old(self).store.past(),
            may_node_xattrs(old(self).setup(), b, idx, attr_views(r@)),
    {
        let ghost s = self.setup();
        let p = match self.store.parsed(b) {
            Ok(p) => p,
            Err(e) => {
                let ghost o: Outcome<ParsedView> = Err(e@);
                let out = node_attrs(self.store.index(), b, idx, None, None);
                assert(s.may_parse(b, o) && may_node_attrs(
                    s,
                    b,
                    idx,
                    parsed_as(o),
                    attr_views(out@),
                ));
                return out;
            },
        };
        let ghost o: Outcome<ParsedView> = Ok(p@);
        let out = match p.manifest.node(idx) {
            Some(n) => if n.is_dir() {
                node_attrs(self.store.index(), b, idx, Some(&*p), None)
            } else {
                match self.store.locate(b, n.file_id) {
                    Ok(l) => {
                        let ghost at: Outcome<LocView> = Ok(l@);
                        assert(may_find(s, b, n.file_id, at) && found(at) == Some(l@));
                        node_attrs(self.store.index(), b, idx, Some(&*p), Some(&*l))
                    },
                    Err(e) => {
                        let ghost at: Outcome<LocView> = Err(e@);
                        assert(may_find(s, b, n.file_id, at) && found(at) is None);
                        node_attrs(self.store.index(), b, idx, Some(&*p), None)
                    },
                }
            },
            None => node_attrs(self.store.index(), b, idx, Some(&*p), None),
        };
        assert(s.may_parse(b, o) && may_node_attrs(s, b, idx, parsed_as(o), attr_views(out@)));
        out
    }

    /// Everything we know about a node, as name/value pairs.
    pub fn xattrs(&mut self, key: Key) -> (r: Vec<(&'static str, String)>)
        requires
            old(self).wf(),
            old(self).knows(key),
        ensures
            final(self).wf(),
            final(self).setup() == old(self).setup(),
            final(self).store.past() == old(self).store.past(),
            may_xattrs(old(self).setup(), key, attr_views(r@)),
    {
        let ghost s = self.setup();
        match key {
            Key::Depot(d) => {
                let mut out: Vec<(&'static str, String)> = Vec::new();
                put_attr(&mut out, "user.steam2.depot", text::decimal(d as u64));
                assert(attr_views(out@) =~= seq![("user.steam2.depot"@, text::dec(d as nat))]);
                out
            },
            Key::Version(b) => match self.store.parsed(b) {
                Ok(p) => {
                    assert(s.may_parse(b, Ok(p@)));
                    assert(parsed_as(Ok(p@)) == Some(p@));
                    version_attrs(self.store.index(), b, Some(&*p))
                },
                Err(e) => {
                    assert(s.may_parse(b, Err(e@)));
                    assert(parsed_as(Err(e@)) is None);
                    version_attrs(self.store.index(), b, None)
                },
            },
            Key::Node(b, idx) => self.node_xattrs(b, idx),
            _ => {
                let out: Vec<(&'static str, String)> = Vec::new();
                assert(attr_views(out@) =~= Seq::<listing::Attr>::empty());
                out
            },
        }
    }
}

} // verus!
