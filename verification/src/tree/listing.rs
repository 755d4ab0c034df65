//! What the tree holds: what follows from the index alone, and what follows
//! from a version's manifest.

use vstd::prelude::*;

use super::{EntryView, Key, Kind, Meta, TreeFault, TreeOutcome};
use crate::calendar;
use crate::calendar::Date;
use crate::format::checksums::Mode;
use crate::format::manifest::flags;
use crate::format::manifest::{ManifestView, Node, NO_NODE};
use crate::index::{BlobId, BlobView, IndexView};
use crate::store::contents::ParsedView;
use crate::store::error::ReadFault;
use crate::store::table::LocView;
use crate::text;

verus! {

/// The blob that a key names, if it names one, is in the index.
pub open spec fn known(v: IndexView, key: Key) -> bool {
    match key {
        Key::Root => true,
        Key::Depot(_) => true,
        Key::Latest(_) => true,
        Key::ByDate(_) => true,
        Key::DateLink(b) => v.has_blob(b),
        Key::Version(b) => v.has_blob(b),
        Key::Node(b, _) => v.has_blob(b),
    }
}

/// The date of a blob, or 1970-01-01.
pub open spec fn blob_date(v: IndexView, id: BlobId) -> Date {
    match v.blob(id).date {
        Some(d) => d,
        None => Date { secs: 0, nanos: 0 },
    }
}

pub open spec fn epoch() -> Date {
    Date { secs: 0, nanos: 0 }
}

pub open spec fn dir_meta(mtime: Date) -> Meta {
    Meta { kind: Kind::Dir, size: 0, mtime }
}

/// Key for a manifest node, mapping the root node to `Version`.
pub open spec fn node_key(blob: BlobId, m: ManifestView, idx: u32) -> Key {
    if idx == m.root() {
        Key::Version(blob)
    } else {
        Key::Node(blob, idx)
    }
}

/// The manifest node a key names, for the two keys that have one.
pub open spec fn node_index(key: Key, m: ManifestView) -> Option<u32> {
    match key {
        Key::Version(_) => Some(m.root()),
        Key::Node(_, idx) => Some(idx),
        _ => None,
    }
}

/// A node, or one that says nothing where there is none.
pub open spec fn node_or_blank(m: ManifestView, idx: u32) -> Node {
    if m.has(idx) {
        m.nodes[idx as int]
    } else {
        Node {
            name_offset: 0,
            count_or_size: 0,
            file_id: NO_NODE,
            flags: 0,
            parent: NO_NODE,
            next_sibling: NO_NODE,
            first_child: NO_NODE,
        }
    }
}

/// Metadata for a manifest node, with where its file is, if it could be
/// located.
pub open spec fn node_meta(v: IndexView, blob: BlobId, n: Node, loc: Option<LocView>) -> Meta {
    if n.dir() {
        dir_meta(blob_date(v, blob))
    } else {
        match loc {
            Some(l) => Meta {
                kind: Kind::File,
                size: l.record.size,
                mtime: blob_date(v, l.source),
            },
            None => Meta {
                kind: Kind::File,
                size: n.count_or_size as u64,
                mtime: blob_date(v, blob),
            },
        }
    }
}

/// Where a symlink points, relative to its own directory.
pub open spec fn link_target(v: IndexView, key: Key) -> Option<Seq<char>> {
    match key {
        Key::Latest(d) => match v.latest(d) {
            Some(b) => if v.has_depot(d) {
                v.depot(d).name_of(b.0)
            } else {
                None
            },
            None => None,
        },
        Key::DateLink(b) => {
            let d = v.blob(b).depot;
            if v.has_depot(d) {
                match v.depot(d).name_of(b.0) {
                    Some(n) => Some("../"@ + n),
                    None => None,
                }
            } else {
                None
            }
        },
        _ => None,
    }
}

/// How many bytes a symlink's target takes.
pub open spec fn link_size(v: IndexView, key: Key) -> u64 {
    match link_target(v, key) {
        Some(t) => text::utf8(t).len() as u64,
        None => 0,
    }
}

/// Metadata of a key that names no manifest node; `None` for a link to
/// nothing.
pub open spec fn index_meta(v: IndexView, key: Key) -> Option<Meta> {
    match key {
        Key::Root => Some(dir_meta(epoch())),
        Key::Depot(d) => Some(
            dir_meta(
                match v.latest(d) {
                    Some(b) => blob_date(v, b),
                    None => epoch(),
                },
            ),
        ),
        Key::ByDate(_) => Some(dir_meta(epoch())),
        Key::Latest(d) => match v.latest(d) {
            Some(b) => Some(
                Meta { kind: Kind::Symlink, size: link_size(v, key), mtime: blob_date(v, b) },
            ),
            None => None,
        },
        Key::DateLink(b) => Some(
            Meta { kind: Kind::Symlink, size: link_size(v, key), mtime: blob_date(v, b) },
        ),
        Key::Version(b) => Some(dir_meta(blob_date(v, b))),
        Key::Node(..) => None,
    }
}

// ---- listings -------------------------------------------------------------

pub open spec fn depot_entry(d: u32) -> EntryView {
    EntryView { name: text::utf8(text::dec(d as nat)), key: Key::Depot(d), kind: Kind::Dir }
}

pub open spec fn depot_entries(v: IndexView) -> Seq<EntryView> {
    Seq::new(v.depot_list().len(), |k: int| depot_entry(v.depot_list()[k]))
}

pub open spec fn version_entry(v: IndexView, d: u32, k: int) -> EntryView {
    EntryView {
        name: text::utf8(v.depot(d).names[k]),
        key: Key::Version(BlobId(v.depot(d).blobs[k])),
        kind: Kind::Dir,
    }
}

pub open spec fn version_entries(v: IndexView, d: u32) -> Seq<EntryView> {
    Seq::new(v.depot(d).blobs.len(), |k: int| version_entry(v, d, k))
}

pub open spec fn latest_entry(d: u32) -> EntryView {
    EntryView { name: text::utf8("latest"@), key: Key::Latest(d), kind: Kind::Symlink }
}

pub open spec fn by_date_entry(d: u32) -> EntryView {
    EntryView { name: text::utf8("by-date"@), key: Key::ByDate(d), kind: Kind::Dir }
}

pub open spec fn date_entry(v: IndexView, d: u32, k: int) -> EntryView {
    let b = v.depot(d).date_order[k];
    EntryView {
        name: text::utf8(
            match v.depot(d).link_of(b) {
                Some(link) => link,
                None => ""@,
            },
        ),
        key: Key::DateLink(BlobId(b)),
        kind: Kind::Symlink,
    }
}

pub open spec fn date_entries(v: IndexView, d: u32) -> Seq<EntryView> {
    Seq::new(v.depot(d).date_order.len(), |k: int| date_entry(v, d, k))
}

/// The children of a directory that is no part of a version's tree.
pub open spec fn index_entries(v: IndexView, key: Key) -> TreeOutcome<Seq<EntryView>> {
    match key {
        Key::Root => Ok(depot_entries(v)),
        Key::Depot(d) => Ok(
            if v.has_depot(d) {
                version_entries(v, d) + (if v.latest(d) is Some {
                    seq![latest_entry(d)]
                } else {
                    Seq::empty()
                }) + seq![by_date_entry(d)]
            } else {
                Seq::empty()
            },
        ),
        Key::ByDate(d) => Ok(
            if v.has_depot(d) {
                date_entries(v, d)
            } else {
                Seq::empty()
            },
        ),
        _ => Err(TreeFault::NotADirectory),
    }
}

pub open spec fn child_entry(blob: BlobId, m: ManifestView, c: u32) -> EntryView {
    EntryView {
        name: m.name(c),
        key: node_key(blob, m, c),
        kind: if m.has(c) && m.nodes[c as int].dir() {
            Kind::Dir
        } else {
            Kind::File
        },
    }
}

/// The children of a directory of a version's tree.
pub open spec fn child_entries(blob: BlobId, m: ManifestView, dir: u32) -> TreeOutcome<
    Seq<EntryView>,
> {
    if m.has(dir) && m.nodes[dir as int].dir() {
        Ok(Seq::new(m.children(dir).len(), |k: int| child_entry(blob, m, m.children(dir)[k])))
    } else {
        Err(TreeFault::NotADirectory)
    }
}

// ---- lookups --------------------------------------------------------------

/// A child by name, of a directory that is no part of a version's tree.
pub open spec fn index_lookup(v: IndexView, parent: Key, name: Seq<char>) -> Option<Key> {
    match parent {
        Key::Root => match text::unsigned(name, 10, u32::MAX as nat) {
            Some(n) => if v.has_depot(n as u32) {
                Some(Key::Depot(n as u32))
            } else {
                None
            },
            None => None,
        },
        Key::Depot(d) => if name == "latest"@ {
            match v.latest(d) {
                Some(_) => Some(Key::Latest(d)),
                None => None,
            }
        } else if name == "by-date"@ {
            Some(Key::ByDate(d))
        } else if v.has_depot(d) {
            match v.depot(d).named(name) {
                Some(b) => Some(Key::Version(b)),
                None => None,
            }
        } else {
            None
        },
        Key::ByDate(d) => if v.has_depot(d) {
            match v.depot(d).linked(name) {
                Some(b) => Some(Key::DateLink(b)),
                None => None,
            }
        } else {
            None
        },
        _ => None,
    }
}

/// A child by the bytes of its name, of a directory that is no part of a
/// version's tree: a name that is not UTF-8 is nobody's.
pub open spec fn bytes_lookup(v: IndexView, parent: Key, name: Seq<u8>) -> Option<Key> {
    if vstd::utf8::valid_utf8(name) {
        index_lookup(v, parent, vstd::utf8::decode_utf8(name))
    } else {
        None
    }
}

/// A child by name, of a directory of a version's tree.
pub open spec fn child_lookup(blob: BlobId, m: ManifestView, dir: u32, name: Seq<u8>) -> Option<
    Key,
> {
    match m.child_named(dir, name) {
        Some(c) => Some(node_key(blob, m, c)),
        None => None,
    }
}

/// The directory of a key that names no manifest node. The root is its own.
pub open spec fn index_parent(v: IndexView, key: Key) -> Key {
    match key {
        Key::Root => Key::Root,
        Key::Depot(_) => Key::Root,
        Key::Latest(d) => Key::Depot(d),
        Key::ByDate(d) => Key::Depot(d),
        Key::DateLink(b) => Key::ByDate(v.blob(b).depot),
        Key::Version(b) => Key::Depot(v.blob(b).depot),
        Key::Node(b, _) => Key::Version(b),
    }
}

/// The directory of a manifest node.
pub open spec fn node_parent(blob: BlobId, m: ManifestView, idx: u32) -> Key {
    if m.has(idx) {
        node_key(blob, m, m.nodes[idx as int].parent)
    } else {
        Key::Version(blob)
    }
}

// ---- attributes -----------------------------------------------------------

/// The name and the value of an attribute.
pub type Attr = (Seq<char>, Seq<char>);

pub open spec fn mode_name(mode: Mode) -> Seq<char> {
    match mode {
        Mode::Plain => "Plain"@,
        Mode::Compressed => "Compressed"@,
        Mode::CompressedEncrypted => "CompressedEncrypted"@,
        Mode::Encrypted => "Encrypted"@,
    }
}

/// A version and a crc, as a blob records its parent.
pub open spec fn version_crc(version: u32, crc: u32) -> Seq<char> {
    text::dec(version as nat) + "-"@ + text::hex8(crc as nat)
}

/// `out` with what the index says of a blob.
pub open spec fn with_entry_attrs(out: Seq<Attr>, e: BlobView) -> Seq<Attr> {
    let a = out.push(("user.steam2.depot"@, text::dec(e.depot as nat))).push(
        ("user.steam2.version"@, text::dec(e.version as nat)),
    ).push(("user.steam2.blob"@, e.file_name));
    match e.date {
        Some(d) => a.push(("user.steam2.date"@, calendar::stamp(d.secs as nat))),
        None => a,
    }
}

/// `out` with what a blob says of itself.
pub open spec fn with_blob_attrs(out: Seq<Attr>, p: ParsedView) -> Seq<Attr> {
    let a = out.push(("user.steam2.app_id"@, text::dec(p.manifest.app_id as nat))).push(
        ("user.steam2.dat_crc"@, text::hex8(p.meta.dat_crc as nat)),
    );
    match p.meta.prev {
        Some((v, c)) => a.push(("user.steam2.parent"@, version_crc(v, c))),
        None => a,
    }
}

/// `out` with what the manifest says of a node.
pub open spec fn with_node_attrs(out: Seq<Attr>, n: Node) -> Seq<Attr> {
    let a = out.push(("user.steam2.flags"@, text::prefixed_hex(n.flags as nat, 6))).push(
        ("user.steam2.flags_decoded"@, flags::described(n.flags)),
    );
    if n.dir() {
        a
    } else {
        a.push(("user.steam2.file_id"@, text::dec(n.file_id as nat)))
    }
}

/// `out` with where a file's bytes are.
pub open spec fn with_loc_attrs(out: Seq<Attr>, v: IndexView, l: LocView) -> Seq<Attr> {
    let a = out.push(("user.steam2.mode"@, mode_name(l.record.mode))).push(
        ("user.steam2.source_version"@, text::dec(v.blob(l.source).version as nat)),
    ).push(("user.steam2.blocks"@, text::dec(l.record.blocks.len())));
    match l.dat {
        Some(d) => {
            let b = a.push(("user.steam2.dat"@, v.dat(d).path)).push(
                ("user.steam2.dat_offset"@, text::dec(l.record.offset as nat)),
            );
            if v.dat(d).incomplete {
                b.push(("user.steam2.dat_incomplete"@, "1"@))
            } else {
                b
            }
        },
        None => a.push(("user.steam2.dat"@, "missing"@)),
    }
}

/// What is known of a version, with what its blob was parsed as.
pub open spec fn version_attrs(v: IndexView, blob: BlobId, p: Option<ParsedView>) -> Seq<Attr> {
    let a = with_entry_attrs(Seq::empty(), v.blob(blob));
    match p {
        Some(p) => with_blob_attrs(a, p),
        None => a,
    }
}

/// What is known of a manifest node, with what its blob was parsed as and
/// where its file is.
pub open spec fn node_attrs(
    v: IndexView,
    blob: BlobId,
    idx: u32,
    p: Option<ParsedView>,
    loc: Option<LocView>,
) -> Seq<Attr> {
    let a = version_attrs(v, blob, p);
    match p {
        Some(p) => if p.manifest.has(idx) {
            let n = p.manifest.nodes[idx as int];
            let b = with_node_attrs(a, n);
            match loc {
                Some(l) => if n.dir() {
                    b
                } else {
                    with_loc_attrs(b, v, l)
                },
                None => b,
            }
        } else {
            a
        },
        None => a,
    }
}

/// A failure to read, as a failure of the tree.
pub open spec fn lifted<T>(r: core::result::Result<T, ReadFault>) -> TreeOutcome<T> {
    match r {
        Ok(v) => Ok(v),
        Err(f) => Err(TreeFault::Read(f)),
    }
}

} // verus!
