//! What a tree shows of a dump: what its directories list, where its links lead,
//! and what it tells of its files.

use vstd::prelude::*;

use super::laws;
use super::listing;
use super::listing::Attr;
use super::{EntryView, Key, Kind, Meta, TreeFault, TreeOutcome};
use crate::backend::Backend;
use crate::calendar;
use crate::calendar::Date;
use crate::format::checksums::Mode;
use crate::format::manifest::flags;
use crate::format::manifest::Node;
use crate::index::laws as index_laws;
use crate::index::names;
use crate::index::{lemma_last_index, BlobId, Index, IndexView};
use crate::store::contents::ParsedView;
use crate::store::error::Outcome;
use crate::store::setup;
use crate::store::setup::Setup;
use crate::store::table::LocView;
use crate::text;

verus! {

// ---- listings -------------------------------------------------------------

/// A list has an entry for `key`, under `name`.
pub open spec fn shows(list: Seq<EntryView>, name: Seq<char>, key: Key, kind: Kind) -> bool {
    exists|k: int|
        0 <= k < list.len() && #[trigger] list[k] == (EntryView {
            name: text::utf8(name),
            key,
            kind,
        })
}

/// A list has an entry for `key`.
pub open spec fn has_key(list: Seq<EntryView>, key: Key) -> bool {
    exists|k: int| 0 <= k < list.len() && (#[trigger] list[k]).key == key
}

/// The root lists a directory for every depot of the dump, under its number, and
/// for no other, in the order of the numbers.
pub proof fn law_the_root_lists_the_depots(ix: &Index, d: u32)
    requires
        ix.wf(),
    ensures
        ({
            let list = listing::index_entries(ix@, Key::Root)->Ok_0;
            &&& listing::index_entries(ix@, Key::Root) is Ok
            &&& has_key(list, Key::Depot(d)) <==> exists|i: u32| ix@.in_depot(d, i)
            &&& has_key(list, Key::Depot(d)) ==> shows(
                list,
                text::dec(d as nat),
                Key::Depot(d),
                Kind::Dir,
            )
            &&& forall|k: int| 0 <= k < list.len() ==> (#[trigger] list[k]).key is Depot
            &&& forall|i: int, j: int|
                0 <= i < j < list.len() ==> (#[trigger] list[i]).key->Depot_0 < (
                #[trigger] list[j]).key->Depot_0
        }),
{
    ix.lemma_depot_numbers();
    let nums = ix@.depot_list();
    let list = listing::depot_entries(ix@);
    if has_key(list, Key::Depot(d)) {
        let k = choose|k: int| 0 <= k < list.len() && (#[trigger] list[k]).key == Key::Depot(d);
        assert(list[k] == listing::depot_entry(nums[k]));
        assert(nums.contains(nums[k]));
        assert(ix@.has_depot(d));
    }
    if ix@.has_depot(d) {
        assert(nums.contains(d));
        let k = choose|k: int| 0 <= k < nums.len() && nums[k] == d;
        assert(list[k] == listing::depot_entry(d));
        assert(list[k].key == Key::Depot(d));
    }
}

/// A depot lists a directory for every one of its blobs, under the name of its
/// version, and for no other blob; a link to the newest of them; and the directory
/// of the dates.
pub proof fn law_a_depot_lists_its_versions(ix: &Index, d: u32, b: u32)
    requires
        ix.wf(),
        ix@.has_depot(d),
    ensures
        ({
            let list = listing::index_entries(ix@, Key::Depot(d))->Ok_0;
            &&& listing::index_entries(ix@, Key::Depot(d)) is Ok
            &&& has_key(list, Key::Version(BlobId(b))) <==> ix@.in_depot(d, b)
            &&& ix@.in_depot(d, b) ==> shows(
                list,
                ix@.version_name(b),
                Key::Version(BlobId(b)),
                Kind::Dir,
            )
            &&& shows(list, "latest"@, Key::Latest(d), Kind::Symlink)
            &&& shows(list, "by-date"@, Key::ByDate(d), Kind::Dir)
        }),
{
    let v = ix@;
    let dep = v.depot(d);
    ix.lemma_listings(d);
    ix.lemma_sizes();
    index_laws::law_the_newest_blob(v, d);
    let list = listing::index_entries(v, Key::Depot(d))->Ok_0;
    let n = dep.blobs.len() as int;
    assert(list.len() == n + 2);
    assert(list[n] == listing::latest_entry(d));
    assert(list[n + 1] == listing::by_date_entry(d));
    assert forall|k: int| 0 <= k < n implies list[k] == #[trigger] listing::version_entry(v, d, k) by {}
    if has_key(list, Key::Version(BlobId(b))) {
        let k = choose|k: int|
            0 <= k < list.len() && (#[trigger] list[k]).key == Key::Version(BlobId(b));
        assert(k < n);
        assert(list[k] == listing::version_entry(v, d, k));
        assert(dep.blobs.contains(b));
    }
    if v.in_depot(d, b) {
        assert(dep.blobs.contains(b));
        let k = choose|k: int| 0 <= k < dep.blobs.len() && dep.blobs[k] == b;
        assert(list[k] == listing::version_entry(v, d, k));
        assert(dep.names[k] == v.version_name(b));
        assert(list[k].key == Key::Version(BlobId(b)));
    }
}

/// The directory of the dates of a depot lists a link for every one of its blobs,
/// under its link name, and nothing else.
pub proof fn law_the_dates_list_every_blob(ix: &Index, d: u32, b: u32)
    requires
        ix.wf(),
        ix@.has_depot(d),
    ensures
        ({
            let list = listing::index_entries(ix@, Key::ByDate(d))->Ok_0;
            &&& listing::index_entries(ix@, Key::ByDate(d)) is Ok
            &&& has_key(list, Key::DateLink(BlobId(b))) <==> ix@.in_depot(d, b)
            &&& ix@.in_depot(d, b) ==> shows(
                list,
                ix@.link_name(b),
                Key::DateLink(BlobId(b)),
                Kind::Symlink,
            )
            &&& forall|k: int| 0 <= k < list.len() ==> (#[trigger] list[k]).key is DateLink
        }),
{
    let v = ix@;
    let dep = v.depot(d);
    ix.lemma_listings(d);
    let list = listing::date_entries(v, d);
    let order = dep.date_order;
    if has_key(list, Key::DateLink(BlobId(b))) {
        let k = choose|k: int|
            0 <= k < list.len() && (#[trigger] list[k]).key == Key::DateLink(BlobId(b));
        assert(list[k] == listing::date_entry(v, d, k));
        assert(order[k] == b);
        assert(order.contains(b));
    }
    if v.in_depot(d, b) {
        assert(order.contains(b));
        let k = choose|k: int| 0 <= k < order.len() && order[k] == b;
        assert(list[k] == listing::date_entry(v, d, k));
        lemma_name_and_link(ix, d, b);
        assert(list[k].key == Key::DateLink(BlobId(b)));
    }
}

proof fn lemma_name_and_link(ix: &Index, d: u32, b: u32)
    requires
        ix.wf(),
        ix@.in_depot(d, b),
    ensures
        ix@.has_depot(d),
        ix@.depot(d).name_of(b) == Some(ix@.version_name(b)),
        ix@.depot(d).link_of(b) == Some(ix@.link_name(b)),
        exists|k: int| 0 <= k < ix@.depot(d).blobs.len() && #[trigger] ix@.depot(d).blobs[k] == b,
{
    let v = ix@;
    assert(v.has_depot(d));
    ix.lemma_listings(d);
    let dep = v.depot(d);
    assert(dep.blobs.contains(b));
    lemma_last_index(dep.blobs, b);
}

/// The links of a depot lead to versions that are there: `latest` to the newest
/// blob, and that of a date, from the directory of the dates, to its own blob.
pub proof fn law_links_lead_to_their_versions(ix: &Index, d: u32, b: u32)
    requires
        ix.wf(),
        ix@.in_depot(d, b),
        names::distinct(ix@, d),
    ensures
        ({
            let newest = ix@.latest(d)->0;
            &&& listing::link_target(ix@, Key::Latest(d)) == Some(ix@.version_name(newest.0))
            &&& listing::index_lookup(ix@, Key::Depot(d), ix@.version_name(newest.0)) == Some(
                Key::Version(newest),
            )
            &&& listing::link_target(ix@, Key::DateLink(BlobId(b))) == Some(
                "../"@ + ix@.version_name(b),
            )
            &&& listing::index_lookup(ix@, Key::Depot(d), ix@.version_name(b)) == Some(
                Key::Version(BlobId(b)),
            )
        }),
{
    let v = ix@;
    ix.lemma_sizes();
    assert(v.has_depot(d));
    index_laws::law_the_newest_blob(v, d);
    let newest = v.latest(d)->0;
    lemma_name_and_link(ix, d, b);
    lemma_name_and_link(ix, d, newest.0);
    lemma_found_by_name(ix, d, b);
    lemma_found_by_name(ix, d, newest.0);
}

proof fn lemma_found_by_name(ix: &Index, d: u32, b: u32)
    requires
        ix.wf(),
        ix@.in_depot(d, b),
        names::distinct(ix@, d),
    ensures
        listing::index_lookup(ix@, Key::Depot(d), ix@.version_name(b)) == Some(
            Key::Version(BlobId(b)),
        ),
{
    lemma_name_and_link(ix, d, b);
    let k = choose|k: int|
        0 <= k < ix@.depot(d).blobs.len() && #[trigger] ix@.depot(d).blobs[k] == b;
    laws::lemma_version_agrees(ix, d, k);
    text::law_text_round_trip(ix@.version_name(b));
    assert(ix@.depot(d).names[k] == ix@.version_name(b));
}

// ---- metadata -------------------------------------------------------------

/// The date of a blob; 1970-01-01 where it has none.
pub open spec fn dated(v: IndexView, b: BlobId) -> Date {
    match v.blobs[b.0 as int].date {
        Some(d) => d,
        None => Date { secs: 0, nanos: 0 },
    }
}

/// A file has the size of its record and the date of the version that brought it;
/// a file that is not found has the size that its manifest tells and the date of
/// the version it is looked at in; and a directory has that date too.
pub proof fn law_what_a_node_tells(v: IndexView, b: BlobId, n: Node, loc: Option<LocView>)
    ensures
        ({
            let m = listing::node_meta(v, b, n, loc);
            if n.file_id == 0xffff_ffff {
                m == (Meta { kind: Kind::Dir, size: 0, mtime: dated(v, b) })
            } else {
                m == match loc {
                    Some(l) => Meta {
                        kind: Kind::File,
                        size: l.record.size,
                        mtime: dated(v, l.source),
                    },
                    None => Meta {
                        kind: Kind::File,
                        size: n.count_or_size as u64,
                        mtime: dated(v, b),
                    },
                }
            }
        }),
{
}

/// A depot and its `latest` link have the date of its newest blob, a version and
/// its link in the directory of the dates that of their own; and a link is as long
/// as the text of where it leads.
pub proof fn law_what_the_index_tells(ix: &Index, d: u32, b: u32)
    requires
        ix.wf(),
        ix@.in_depot(d, b),
    ensures
        ({
            let newest = ix@.latest(d)->0;
            &&& ix@.latest(d) is Some
            &&& listing::index_meta(ix@, Key::Depot(d)) == Some(
                (Meta { kind: Kind::Dir, size: 0, mtime: dated(ix@, newest) }),
            )
            &&& listing::index_meta(ix@, Key::Latest(d)) == Some(
                (Meta {
                    kind: Kind::Symlink,
                    size: text::utf8(ix@.version_name(newest.0)).len() as u64,
                    mtime: dated(ix@, newest),
                }),
            )
            &&& listing::index_meta(ix@, Key::Version(BlobId(b))) == Some(
                (Meta { kind: Kind::Dir, size: 0, mtime: dated(ix@, BlobId(b)) }),
            )
            &&& listing::index_meta(ix@, Key::DateLink(BlobId(b))) == Some(
                (Meta {
                    kind: Kind::Symlink,
                    size: text::utf8("../"@ + ix@.version_name(b)).len() as u64,
                    mtime: dated(ix@, BlobId(b)),
                }),
            )
        }),
{
    let v = ix@;
    ix.lemma_sizes();
    assert(v.has_depot(d));
    index_laws::law_the_newest_blob(v, d);
    let newest = v.latest(d)->0;
    lemma_name_and_link(ix, d, b);
    lemma_name_and_link(ix, d, newest.0);
}

/// Over a steady backend, what is told of the size of a file is the size of what is
/// read of it: both go by the same record.
pub proof fn law_a_file_is_as_long_as_it_is_told<B: Backend>(
    s: Setup<B>,
    b: BlobId,
    idx: u32,
    p: ParsedView,
    loc: LocView,
)
    requires
        setup::steady(s.backend),
        s.may_parse(b, Ok(p)),
        super::may_locate(s, Key::Node(b, idx), Ok(loc)),
    ensures
        idx < p.manifest.nodes.len(),
        p.manifest.nodes[idx as int].file_id != 0xffff_ffff,
        super::may_find(s, b, p.manifest.nodes[idx as int].file_id, Ok(loc)),
        super::may_meta(
            s,
            Key::Node(b, idx),
            Ok(Meta { kind: Kind::File, size: loc.record.size, mtime: dated(s.index, loc.source) }),
        ),
{
    let r: TreeOutcome<LocView> = Ok(loc);
    let o = choose|o: Outcome<ParsedView>| #[trigger]
        s.may_parse(b, o) && match o {
            Err(f) => r == Err::<LocView, TreeFault>(TreeFault::Read(f)),
            Ok(p) => if !p.manifest.has(idx) || p.manifest.nodes[idx as int].dir() {
                r == Err::<LocView, TreeFault>(TreeFault::NotFound)
            } else {
                exists|l: Outcome<LocView>| #[trigger]
                    super::may_find(s, b, p.manifest.nodes[idx as int].file_id, l) && r
                        == listing::lifted(l)
            },
        };
    setup::law_steady_blobs(s, b, o, Ok(p));
    let n = p.manifest.nodes[idx as int];
    let l: Outcome<LocView> = Ok(loc);
    assert(super::may_find(s, b, n.file_id, l));
    let meta = Meta { kind: Kind::File, size: loc.record.size, mtime: dated(s.index, loc.source) };
    assert(super::may_node_meta(s, b, n, meta));
    assert(s.may_parse(b, Ok(p)));
}

/// Nothing but a file of a version has bytes.
pub proof fn law_only_files_have_bytes<B: Backend>(s: Setup<B>, key: Key, loc: LocView)
    requires
        super::may_locate(s, key, Ok(loc)),
    ensures
        key is Node,
        exists|p: ParsedView| #[trigger]
            s.may_parse(key->Node_0, Ok(p)) && key->Node_1 < p.manifest.nodes.len()
                && p.manifest.nodes[key->Node_1 as int].file_id != 0xffff_ffff,
{
    let r: TreeOutcome<LocView> = Ok(loc);
    let (b, idx) = (key->Node_0, key->Node_1);
    let o = choose|o: Outcome<ParsedView>| #[trigger]
        s.may_parse(b, o) && match o {
            Err(f) => r == Err::<LocView, TreeFault>(TreeFault::Read(f)),
            Ok(p) => if !p.manifest.has(idx) || p.manifest.nodes[idx as int].dir() {
                r == Err::<LocView, TreeFault>(TreeFault::NotFound)
            } else {
                exists|l: Outcome<LocView>| #[trigger]
                    super::may_find(s, b, p.manifest.nodes[idx as int].file_id, l) && r
                        == listing::lifted(l)
            },
        };
    assert(s.may_parse(b, Ok(o->Ok_0)));
}

// ---- attributes -----------------------------------------------------------

/// Among some attributes is one with a name and a value.
pub open spec fn tells(attrs: Seq<Attr>, name: Seq<char>, value: Seq<char>) -> bool {
    exists|k: int| 0 <= k < attrs.len() && #[trigger] attrs[k] == (name, value)
}

/// Whatever some attributes tell, others tell too.
pub open spec fn tells_all(more: Seq<Attr>, attrs: Seq<Attr>) -> bool {
    forall|name: Seq<char>, value: Seq<char>|
        tells(attrs, name, value) ==> #[trigger] tells(more, name, value)
}

proof fn lemma_more(attrs: Seq<Attr>, more: Seq<Attr>)
    requires
        attrs.len() <= more.len(),
        forall|k: int| 0 <= k < attrs.len() ==> #[trigger] more[k] == attrs[k],
    ensures
        tells_all(more, attrs),
{
    assert forall|name: Seq<char>, value: Seq<char>| tells(attrs, name, value) implies
        #[trigger] tells(more, name, value) by {
        let k = choose|k: int| 0 <= k < attrs.len() && #[trigger] attrs[k] == (name, value);
        assert(more[k] == (name, value));
    }
}

/// A version tells its depot, its number, its file and, where it has one, its date,
/// whatever has been told before.
pub proof fn law_attributes_of_an_entry(out: Seq<Attr>, e: crate::index::BlobView)
    ensures
        ({
            let r = listing::with_entry_attrs(out, e);
            &&& tells_all(r, out)
            &&& tells(r, "user.steam2.depot"@, text::dec(e.depot as nat))
            &&& tells(r, "user.steam2.version"@, text::dec(e.version as nat))
            &&& tells(r, "user.steam2.blob"@, e.file_name)
            &&& e.date matches Some(d) ==> tells(
                r,
                "user.steam2.date"@,
                calendar::stamp(d.secs as nat),
            )
            &&& r.len() == out.len() + if e.date is Some {
                4int
            } else {
                3int
            }
        }),
{
    let r = listing::with_entry_attrs(out, e);
    let n = out.len() as int;
    assert(r[n] == ("user.steam2.depot"@, text::dec(e.depot as nat)));
    assert(r[n + 1] == ("user.steam2.version"@, text::dec(e.version as nat)));
    assert(r[n + 2] == ("user.steam2.blob"@, e.file_name));
    if e.date is Some {
        assert(r[n + 3] == ("user.steam2.date"@, calendar::stamp(e.date->0.secs as nat)));
    }
    lemma_more(out, r);
}

/// A blob that could be parsed tells its app, the crc of its dat, and the version
/// and crc of its parent, if it records one.
pub proof fn law_attributes_of_a_blob(out: Seq<Attr>, p: ParsedView)
    ensures
        ({
            let r = listing::with_blob_attrs(out, p);
            &&& tells_all(r, out)
            &&& tells(r, "user.steam2.app_id"@, text::dec(p.manifest.app_id as nat))
            &&& tells(r, "user.steam2.dat_crc"@, text::hex8(p.meta.dat_crc as nat))
            &&& p.meta.prev matches Some((version, crc)) ==> tells(
                r,
                "user.steam2.parent"@,
                text::dec(version as nat) + "-"@ + text::hex8(crc as nat),
            )
            &&& r.len() == out.len() + if p.meta.prev is Some {
                3int
            } else {
                2int
            }
        }),
{
    let r = listing::with_blob_attrs(out, p);
    let n = out.len() as int;
    assert(r[n] == ("user.steam2.app_id"@, text::dec(p.manifest.app_id as nat)));
    assert(r[n + 1] == ("user.steam2.dat_crc"@, text::hex8(p.meta.dat_crc as nat)));
    match p.meta.prev {
        Some((version, crc)) => {
            assert(r[n + 2] == (
                "user.steam2.parent"@,
                text::dec(version as nat) + "-"@ + text::hex8(crc as nat),
            ));
        },
        None => {},
    }
    lemma_more(out, r);
}

/// A node tells its flags, as a number and by name, and a file its number.
pub proof fn law_attributes_of_a_node(out: Seq<Attr>, n: Node)
    ensures
        ({
            let r = listing::with_node_attrs(out, n);
            &&& tells_all(r, out)
            &&& tells(r, "user.steam2.flags"@, text::prefixed_hex(n.flags as nat, 6))
            &&& tells(r, "user.steam2.flags_decoded"@, flags::described(n.flags))
            &&& n.file_id != 0xffff_ffff ==> tells(
                r,
                "user.steam2.file_id"@,
                text::dec(n.file_id as nat),
            )
            &&& r.len() == out.len() + if n.file_id != 0xffff_ffff {
                3int
            } else {
                2int
            }
        }),
{
    let r = listing::with_node_attrs(out, n);
    let k = out.len() as int;
    assert(r[k] == ("user.steam2.flags"@, text::prefixed_hex(n.flags as nat, 6)));
    assert(r[k + 1] == ("user.steam2.flags_decoded"@, flags::described(n.flags)));
    if n.file_id != 0xffff_ffff {
        assert(r[k + 2] == ("user.steam2.file_id"@, text::dec(n.file_id as nat)));
    }
    lemma_more(out, r);
}

/// How a file is stored, by name.
pub open spec fn named_mode(m: Mode, name: Seq<char>) -> bool {
    match m {
        Mode::Plain => name == "Plain"@,
        Mode::Compressed => name == "Compressed"@,
        Mode::CompressedEncrypted => name == "CompressedEncrypted"@,
        Mode::Encrypted => name == "Encrypted"@,
    }
}

/// A file that is found tells how it is stored, in how many blocks, the version
/// that brought it, and where it begins in which dat, or that the dat is missing.
pub proof fn law_attributes_of_a_place(
    out: Seq<Attr>,
    v: IndexView,
    l: LocView,
    mode: Seq<char>,
)
    requires
        named_mode(l.record.mode, mode),
    ensures
        ({
            let r = listing::with_loc_attrs(out, v, l);
            &&& tells_all(r, out)
            &&& tells(r, "user.steam2.mode"@, mode)
            &&& tells(
                r,
                "user.steam2.source_version"@,
                text::dec(v.blobs[l.source.0 as int].version as nat),
            )
            &&& tells(r, "user.steam2.blocks"@, text::dec(l.record.blocks.len()))
            &&& match l.dat {
                Some(d) => {
                    &&& tells(r, "user.steam2.dat"@, v.dats[d.0 as int].path)
                    &&& tells(r, "user.steam2.dat_offset"@, text::dec(l.record.offset as nat))
                    &&& v.dats[d.0 as int].incomplete ==> tells(
                        r,
                        "user.steam2.dat_incomplete"@,
                        "1"@,
                    )
                    &&& r.len() == out.len() + if v.dats[d.0 as int].incomplete {
                        6int
                    } else {
                        5int
                    }
                },
                None => tells(r, "user.steam2.dat"@, "missing"@) && r.len() == out.len() + 4,
            }
        }),
{
    let r = listing::with_loc_attrs(out, v, l);
    let n = out.len() as int;
    assert(r[n] == ("user.steam2.mode"@, mode));
    assert(r[n + 1] == (
        "user.steam2.source_version"@,
        text::dec(v.blobs[l.source.0 as int].version as nat),
    ));
    assert(r[n + 2] == ("user.steam2.blocks"@, text::dec(l.record.blocks.len())));
    match l.dat {
        Some(d) => {
            assert(r[n + 3] == ("user.steam2.dat"@, v.dats[d.0 as int].path));
            assert(r[n + 4] == ("user.steam2.dat_offset"@, text::dec(l.record.offset as nat)));
            if v.dats[d.0 as int].incomplete {
                assert(r[n + 5] == ("user.steam2.dat_incomplete"@, "1"@));
            }
        },
        None => {
            assert(r[n + 3] == ("user.steam2.dat"@, "missing"@));
        },
    }
    lemma_more(out, r);
}

/// A node tells all that its version does; where its blob can be parsed and has
/// it, what the manifest says of it; and a file that is found, where it is.
pub proof fn law_attributes_are_put_together(
    v: IndexView,
    b: BlobId,
    idx: u32,
    p: ParsedView,
    l: LocView,
)
    requires
        idx < p.manifest.nodes.len(),
    ensures
        ({
            let n = p.manifest.nodes[idx as int];
            let version = listing::version_attrs(v, b, Some(p));
            &&& version == listing::with_blob_attrs(
                listing::with_entry_attrs(Seq::empty(), v.blobs[b.0 as int]),
                p,
            )
            &&& listing::version_attrs(v, b, None) == listing::with_entry_attrs(
                Seq::empty(),
                v.blobs[b.0 as int],
            )
            &&& listing::node_attrs(v, b, idx, None, None) == listing::version_attrs(v, b, None)
            &&& listing::node_attrs(v, b, idx, Some(p), None) == listing::with_node_attrs(version, n)
            &&& n.file_id != 0xffff_ffff ==> listing::node_attrs(v, b, idx, Some(p), Some(l))
                == listing::with_loc_attrs(listing::with_node_attrs(version, n), v, l)
        }),
{
}

/// Over a steady backend, what is told of a file is told of the place of that very
/// file, if it is found, and what is told of a version is what its own blob was parsed
/// as.
pub proof fn law_attributes_are_of_the_key<B: Backend>(
    s: Setup<B>,
    b: BlobId,
    idx: u32,
    p: ParsedView,
    version: Seq<Attr>,
    node: Seq<Attr>,
)
    requires
        setup::steady(s.backend),
        s.may_parse(b, Ok(p)),
        super::may_xattrs(s, Key::Version(b), version),
        super::may_xattrs(s, Key::Node(b, idx), node),
        idx < p.manifest.nodes.len(),
    ensures
        version == listing::version_attrs(s.index, b, Some(p)),
        p.manifest.nodes[idx as int].file_id == 0xffff_ffff ==> node == listing::node_attrs(
            s.index,
            b,
            idx,
            Some(p),
            None,
        ),
        p.manifest.nodes[idx as int].file_id != 0xffff_ffff ==> exists|l: Outcome<LocView>|
            #[trigger]
            super::may_find(s, b, p.manifest.nodes[idx as int].file_id, l) && node
                == listing::node_attrs(
                s.index,
                b,
                idx,
                Some(p),
                match l {
                    Ok(l) => Some(l),
                    Err(_) => None,
                },
            ),
{
    let o = choose|o: Outcome<ParsedView>| #[trigger]
        s.may_parse(b, o) && version == listing::version_attrs(s.index, b, super::parsed_as(o));
    setup::law_steady_blobs(s, b, o, Ok(p));
    let q = choose|o: Outcome<ParsedView>| #[trigger]
        s.may_parse(b, o) && super::may_node_attrs(s, b, idx, super::parsed_as(o), node);
    setup::law_steady_blobs(s, b, q, Ok(p));
    let n = p.manifest.nodes[idx as int];
    if n.file_id != 0xffff_ffff {
        let l = choose|l: Outcome<LocView>| #[trigger]
            super::may_find(s, b, n.file_id, l) && node == listing::node_attrs(
                s.index,
                b,
                idx,
                Some(p),
                super::found(l),
            );
        assert(super::may_find(s, b, n.file_id, l));
    }
}

/// A depot tells its number, and nothing else of what is outside the versions' trees
/// tells anything.
pub proof fn law_attributes_outside_the_versions<B: Backend>(
    s: Setup<B>,
    d: u32,
    b: BlobId,
    r: Seq<Attr>,
)
    ensures
        super::may_xattrs(s, Key::Depot(d), r) <==> r == seq![
            ("user.steam2.depot"@, text::dec(d as nat)),
        ],
        super::may_xattrs(s, Key::Root, r) <==> r.len() == 0,
        super::may_xattrs(s, Key::Latest(d), r) <==> r.len() == 0,
        super::may_xattrs(s, Key::ByDate(d), r) <==> r.len() == 0,
        super::may_xattrs(s, Key::DateLink(b), r) <==> r.len() == 0,
{
    if r.len() == 0 {
        assert(r =~= Seq::<Attr>::empty());
    }
}

} // verus!
