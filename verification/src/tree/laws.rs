//! What holds of the tree as a whole.

use vstd::prelude::*;

use super::listing;
use super::{EntryView, Key, Kind, TreeFault};
use crate::backend::Backend;
use crate::format::manifest;
use crate::format::manifest::ManifestView;
use crate::index;
use crate::index::names;
use crate::index::{BlobId, Index, IndexView};
use crate::store::contents::ParsedView;
use crate::store::error::Outcome;
use crate::store::setup;
use crate::store::setup::Setup;
use crate::store::table::LocView;
use crate::text;

verus! {

/// What is found by name is in the index.
pub proof fn lemma_lookup_known(ix: &Index, parent: Key, name: Seq<char>)
    requires
        ix.wf(),
    ensures
        listing::index_lookup(ix@, parent, name) matches Some(k) ==> listing::known(ix@, k),
{
    let v = ix@;
    match parent {
        Key::Depot(d) => if v.has_depot(d) {
            ix.lemma_listings(d);
            let blobs = v.depot(d).blobs;
            index::lemma_last_index(v.depot(d).names, name);
            match index::last_index(v.depot(d).names, name) {
                Some(k) => {
                    assert(blobs.contains(blobs[k]));
                    assert(v.in_depot(d, blobs[k]));
                },
                None => {},
            }
        },
        Key::ByDate(d) => if v.has_depot(d) {
            ix.lemma_listings(d);
            let blobs = v.depot(d).blobs;
            index::lemma_last_index(v.depot(d).links, name);
            match index::last_index(v.depot(d).links, name) {
                Some(k) => {
                    assert(blobs.contains(blobs[k]));
                    assert(v.in_depot(d, blobs[k]));
                },
                None => {},
            }
        },
        _ => {},
    }
}

/// What is found by name, outside the versions' trees, has an ASCII name.
pub proof fn lemma_lookup_is_ascii(ix: &Index, parent: Key, name: Seq<char>, c: char)
    requires
        ix.wf(),
        c as u32 >= 0x80,
        listing::index_lookup(ix@, parent, name) is Some,
    ensures
        !name.contains(c),
{
    let v = ix@;
    match parent {
        Key::Root => {
            let body = if name.len() > 0 && name[0] == '+' {
                name.skip(1)
            } else {
                name
            };
            assert forall|i: int| 0 <= i < name.len() implies name[i] != c by {
                if i > 0 || name[0] != '+' {
                    let j = if body == name {
                        i
                    } else {
                        i - 1
                    };
                    assert(body[j] == name[i]);
                    assert(text::digit_value(body[j], 10) is Some);
                }
            }
        },
        Key::Depot(d) => {
            reveal_strlit("latest");
            reveal_strlit("by-date");
            if name != "latest"@ && name != "by-date"@ {
                let dep = v.depot(d);
                ix.lemma_listings(d);
                index::lemma_last_index(dep.names, name);
                let k = index::last_index(dep.names, name)->0;
                names::lemma_names_are_ascii(v, dep.blobs[k], c);
            }
        },
        Key::ByDate(d) => {
            let dep = v.depot(d);
            ix.lemma_listings(d);
            index::lemma_last_index(dep.links, name);
            let k = index::last_index(dep.links, name)->0;
            names::lemma_names_are_ascii(v, dep.blobs[k], c);
        },
        _ => {},
    }
}

/// What is listed is in the index.
pub proof fn lemma_entry_known(ix: &Index, dir: Key, k: int)
    requires
        ix.wf(),
        listing::index_entries(ix@, dir) matches Ok(list) && 0 <= k < list.len(),
    ensures
        listing::known(ix@, listing::index_entries(ix@, dir)->Ok_0[k].key),
{
    let v = ix@;
    let list = listing::index_entries(v, dir)->Ok_0;
    match dir {
        Key::Depot(d) => {
            let blobs = v.depot(d).blobs;
            ix.lemma_listings(d);
            if k < blobs.len() {
                assert(list[k] == listing::version_entry(v, d, k));
                assert(blobs.contains(blobs[k]));
                assert(v.in_depot(d, blobs[k]));
            } else if v.latest(d) is Some && k == blobs.len() {
                assert(list[k] == listing::latest_entry(d));
            } else {
                assert(list[k] == listing::by_date_entry(d));
            }
        },
        Key::ByDate(d) => {
            let order = v.depot(d).date_order;
            ix.lemma_listings(d);
            assert(list[k] == listing::date_entry(v, d, k));
            assert(order.contains(order[k]));
            assert(v.in_depot(d, order[k]));
        },
        _ => {},
    }
}

/// What a version's tree lists is of that version.
pub proof fn lemma_child_known(v: IndexView, blob: BlobId, m: ManifestView, dir: u32, k: int)
    requires
        v.has_blob(blob),
        listing::child_entries(blob, m, dir) matches Ok(list) && 0 <= k < list.len(),
    ensures
        listing::known(v, listing::child_entries(blob, m, dir)->Ok_0[k].key),
{
    let list = listing::child_entries(blob, m, dir)->Ok_0;
    assert(list[k] == listing::child_entry(blob, m, m.children(dir)[k]));
}

// ---- listings and lookups -------------------------------------------------

/// A listed entry is found by its name, is what it is listed as, and leads
/// somewhere if it is a link.
pub open spec fn agrees(v: IndexView, dir: Key, e: EntryView) -> bool {
    &&& listing::known(v, e.key)
    &&& listing::bytes_lookup(v, dir, e.name) == Some(e.key)
    &&& listing::index_meta(v, e.key) matches Some(m) && m.kind == e.kind
    &&& e.kind == Kind::Symlink ==> listing::link_target(v, e.key) is Some
}

proof fn lemma_depot_agrees(v: IndexView, d: u32)
    requires
        v.has_depot(d),
    ensures
        agrees(v, Key::Root, listing::depot_entry(d)),
{
    text::law_text_round_trip(text::dec(d as nat));
    text::law_decimal_round_trip(d as nat, u32::MAX as nat);
}

pub proof fn lemma_version_agrees(ix: &Index, d: u32, k: int)
    requires
        ix.wf(),
        names::distinct(ix@, d),
        ix@.has_depot(d),
        0 <= k < ix@.depot(d).blobs.len(),
    ensures
        agrees(ix@, Key::Depot(d), listing::version_entry(ix@, d, k)),
{
    let v = ix@;
    let dep = v.depot(d);
    let name = dep.names[k];
    ix.lemma_listings(d);
    assert(dep.blobs.contains(dep.blobs[k]));
    assert(v.in_depot(d, dep.blobs[k]));
    text::law_text_round_trip(name);
    names::lemma_version_name(v, dep.blobs[k]);
    reveal_strlit("latest");
    reveal_strlit("by-date");
    assert(name != "latest"@) by {
        assert(("latest"@)[0] == 'l');
    }
    assert(name != "by-date"@) by {
        assert(("by-date"@)[0] == 'b');
    }
    index::lemma_last_index(dep.names, name);
    let q = index::last_index(dep.names, name)->0;
    assert(dep.names[k] == name);
    assert(dep.blobs.contains(dep.blobs[q]));
    assert(v.in_depot(d, dep.blobs[q]));
    names::law_version_names_are_distinct(v, d, dep.blobs[q], dep.blobs[k]);
}

/// A blob of a depot has a name in it.
proof fn lemma_named(ix: &Index, d: u32, b: u32)
    requires
        ix.wf(),
        ix@.in_depot(d, b),
    ensures
        ix@.has_depot(d),
        ix@.depot(d).name_of(b) is Some,
        ix@.depot(d).link_of(b) == Some(ix@.link_name(b)),
        listing::link_target(ix@, Key::DateLink(BlobId(b))) is Some,
{
    let v = ix@;
    assert(v.has_depot(d));
    ix.lemma_listings(d);
    let blobs = v.depot(d).blobs;
    assert(v.in_depot(d, b));
    assert(blobs.contains(b));
    index::lemma_last_index(blobs, b);
    let k = choose|k: int| 0 <= k < blobs.len() && blobs[k] == b;
    assert(blobs[k] == b);
}

proof fn lemma_latest_agrees(ix: &Index, d: u32)
    requires
        ix.wf(),
        ix@.latest(d) is Some,
    ensures
        agrees(ix@, Key::Depot(d), listing::latest_entry(d)),
{
    let v = ix@;
    let b = v.latest(d)->0;
    assert(v.is_latest(d, b.0));
    lemma_named(ix, d, b.0);
    text::law_text_round_trip("latest"@);
}

proof fn lemma_by_date_agrees(v: IndexView, d: u32)
    ensures
        agrees(v, Key::Depot(d), listing::by_date_entry(d)),
{
    text::law_text_round_trip("by-date"@);
    reveal_strlit("latest");
    reveal_strlit("by-date");
    assert(("by-date"@)[0] == 'b');
    assert(("latest"@)[0] == 'l');
}

proof fn lemma_date_agrees(ix: &Index, d: u32, k: int)
    requires
        ix.wf(),
        names::distinct(ix@, d),
        ix@.has_depot(d),
        0 <= k < ix@.depot(d).date_order.len(),
    ensures
        agrees(ix@, Key::ByDate(d), listing::date_entry(ix@, d, k)),
{
    let v = ix@;
    let dep = v.depot(d);
    let b = dep.date_order[k];
    ix.lemma_listings(d);
    assert(dep.date_order.contains(b));
    assert(v.in_depot(d, b));
    lemma_named(ix, d, b);
    let link = v.link_name(b);
    text::law_text_round_trip(link);
    index::lemma_last_index(dep.links, link);
    index::lemma_last_index(dep.blobs, b);
    let p = index::last_index(dep.blobs, b)->0;
    assert(dep.links[p] == link);
    let q = index::last_index(dep.links, link)->0;
    assert(dep.blobs.contains(dep.blobs[q]));
    assert(v.in_depot(d, dep.blobs[q]));
    assert(dep.links[q] == v.link_name(dep.blobs[q]));
    names::law_link_names_are_distinct(v, d, dep.blobs[q], b);
}

/// No two versions that a directory outside the versions' trees holds, or
/// links to, have the same number and crc.
pub open spec fn told_apart(v: IndexView, dir: Key) -> bool {
    match dir {
        Key::Depot(d) => names::distinct(v, d),
        Key::ByDate(d) => names::distinct(v, d),
        _ => true,
    }
}

/// Every name that a directory outside the versions' trees lists is found by
/// that name, lands on the same key, and is what it is listed as; every link
/// leads somewhere.
pub proof fn law_listings_and_lookups_agree(ix: &Index, dir: Key, k: int)
    requires
        ix.wf(),
        told_apart(ix@, dir),
        listing::index_entries(ix@, dir) matches Ok(list) && 0 <= k < list.len(),
    ensures
        agrees(ix@, dir, listing::index_entries(ix@, dir)->Ok_0[k]),
{
    let v = ix@;
    let list = listing::index_entries(v, dir)->Ok_0;
    match dir {
        Key::Root => {
            let nums = v.depot_list();
            ix.lemma_depot_numbers();
            assert(nums.contains(nums[k]));
            assert(v.has_depot(nums[k]));
            lemma_depot_agrees(v, nums[k]);
        },
        Key::Depot(d) => {
            let n = v.depot(d).blobs.len();
            if k < n {
                assert(list[k] == listing::version_entry(v, d, k));
                lemma_version_agrees(ix, d, k);
            } else if v.latest(d) is Some && k == n {
                assert(list[k] == listing::latest_entry(d));
                lemma_latest_agrees(ix, d);
            } else {
                assert(list[k] == listing::by_date_entry(d));
                lemma_by_date_agrees(v, d);
            }
        },
        Key::ByDate(d) => {
            assert(list[k] == listing::date_entry(v, d, k));
            lemma_date_agrees(ix, d, k);
        },
        _ => {},
    }
}

/// Node `c` has the parent that lists it, is not its own parent, and shares
/// its name with no other child.
pub open spec fn tidy(m: ManifestView, dir: u32, c: u32) -> bool {
    &&& m.has(c)
    &&& c != dir
    &&& m.nodes[c as int].parent == dir
    &&& forall|j: u32| #[trigger] m.is_child(j, dir, m.name(c)) ==> j == c
}

/// Every name that a directory of a version's tree lists is found by that
/// name, lands on the same key, and is what it is listed as.
pub proof fn law_children_and_lookups_agree(
    v: IndexView,
    blob: BlobId,
    m: ManifestView,
    dir: u32,
    k: int,
    loc: Option<LocView>,
)
    requires
        m.sound(),
        listing::child_entries(blob, m, dir) matches Ok(list) && 0 <= k < list.len(),
        tidy(m, dir, m.children(dir)[k]),
    ensures
        ({
            let e = listing::child_entries(blob, m, dir)->Ok_0[k];
            let c = m.children(dir)[k];
            &&& listing::child_lookup(blob, m, dir, e.name) == Some(e.key)
            &&& listing::node_meta(v, blob, listing::node_or_blank(m, c), loc).kind == e.kind
            &&& listing::node_parent(blob, m, c) != e.key
            &&& listing::node_parent(blob, m, c) == listing::node_key(blob, m, dir)
        }),
{
    let c = m.children(dir)[k];
    assert(dir != manifest::NO_NODE);
    manifest::law_finds_every_child_by_name(m, c);
}

/// Over a steady backend, what a directory lists is found by its name, and
/// lands on the same key.
pub proof fn law_listed_is_found<B: Backend>(
    s: Setup<B>,
    ix: &Index,
    dir: Key,
    list: Seq<EntryView>,
    k: int,
    found: super::TreeOutcome<Option<Key>>,
)
    requires
        setup::steady(s.backend),
        ix.wf(),
        ix@ == s.index,
        told_apart(s.index, dir),
        super::may_list(s, dir, Ok(list)),
        0 <= k < list.len(),
        super::may_lookup(s, dir, list[k].name, found),
        forall|b: BlobId, p: ParsedView|
            #![trigger s.may_parse(b, Ok(p))]
            (dir == Key::Version(b) || (dir matches Key::Node(x, _) && x == b)) && s.may_parse(
                b,
                Ok(p),
            ) ==> p.manifest.sound() && tidy(
                p.manifest,
                listing::node_index(dir, p.manifest)->0,
                p.manifest.children(listing::node_index(dir, p.manifest)->0)[k],
            ),
    ensures
        found == Ok::<Option<Key>, TreeFault>(Some(list[k].key)),
{
    match dir {
        Key::Version(b) => lemma_node_is_found(s, b, dir, list, k, found),
        Key::Node(b, _) => lemma_node_is_found(s, b, dir, list, k, found),
        _ => law_listings_and_lookups_agree(ix, dir, k),
    }
}

proof fn lemma_node_is_found<B: Backend>(
    s: Setup<B>,
    b: BlobId,
    dir: Key,
    list: Seq<EntryView>,
    k: int,
    found: super::TreeOutcome<Option<Key>>,
)
    requires
        setup::steady(s.backend),
        super::may_list_nodes(s, b, dir, Ok(list)),
        0 <= k < list.len(),
        super::may_lookup_node(s, b, dir, list[k].name, found),
        dir == Key::Version(b) || (dir matches Key::Node(x, _) && x == b),
        forall|p: ParsedView|
            #![trigger s.may_parse(b, Ok(p))]
            s.may_parse(b, Ok(p)) ==> p.manifest.sound() && tidy(
                p.manifest,
                listing::node_index(dir, p.manifest)->0,
                p.manifest.children(listing::node_index(dir, p.manifest)->0)[k],
            ),
    ensures
        found == Ok::<Option<Key>, TreeFault>(Some(list[k].key)),
{
    let x = choose|o: Outcome<ParsedView>| #[trigger]
        s.may_parse(b, o) && Ok::<Seq<EntryView>, TreeFault>(list) == match o {
            Err(f) => Err(TreeFault::Read(f)),
            Ok(p) => listing::child_entries(
                b,
                p.manifest,
                listing::node_index(dir, p.manifest)->0,
            ),
        };
    let y = choose|o: Outcome<ParsedView>| #[trigger]
        s.may_parse(b, o) && found == match o {
            Err(f) => Err(TreeFault::Read(f)),
            Ok(p) => Ok(
                listing::child_lookup(
                    b,
                    p.manifest,
                    listing::node_index(dir, p.manifest)->0,
                    list[k].name,
                ),
            ),
        };
    setup::law_steady_blobs(s, b, x, y);
    let m = x->Ok_0.manifest;
    law_children_and_lookups_agree(
        s.index,
        b,
        m,
        listing::node_index(dir, m)->0,
        k,
        None,
    );
}

/// `list` holds an entry with that name and that key.
pub open spec fn lists(list: Seq<EntryView>, name: Seq<u8>, key: Key) -> bool {
    exists|k: int| 0 <= k < list.len() && (#[trigger] list[k]).name == name && list[k].key == key
}

/// A name has one spelling only in a directory. At the root, a depot may also be
/// asked for with a sign or with leading zeros, and is listed without.
pub open spec fn one_spelling(dir: Key, name: Seq<u8>) -> bool {
    dir == Key::Root && vstd::utf8::valid_utf8(name) ==> (text::unsigned(
        vstd::utf8::decode_utf8(name),
        10,
        u32::MAX as nat,
    ) matches Some(n) ==> name == text::utf8(text::dec(n)))
}

/// A directory outside the versions' trees that is there.
pub open spec fn is_there(v: IndexView, dir: Key) -> bool {
    match dir {
        Key::Root => true,
        Key::Depot(d) => v.has_depot(d),
        Key::ByDate(d) => v.has_depot(d),
        _ => false,
    }
}

/// A directory outside the versions' trees finds by a name, whatever its bytes,
/// what it lists under that name, and nothing else.
pub proof fn law_lookups_find_what_is_listed(ix: &Index, dir: Key, name: Seq<u8>, key: Key)
    requires
        ix.wf(),
        told_apart(ix@, dir),
        is_there(ix@, dir),
        one_spelling(dir, name),
    ensures
        listing::index_entries(ix@, dir) is Ok,
        listing::bytes_lookup(ix@, dir, name) == Some(key) <==> lists(
            listing::index_entries(ix@, dir)->Ok_0,
            name,
            key,
        ),
{
    let v = ix@;
    let list = listing::index_entries(v, dir)->Ok_0;
    if lists(list, name, key) {
        let k = choose|k: int|
            0 <= k < list.len() && (#[trigger] list[k]).name == name && list[k].key == key;
        law_listings_and_lookups_agree(ix, dir, k);
    }
    if listing::bytes_lookup(v, dir, name) == Some(key) {
        let bytes = name;
        let name = vstd::utf8::decode_utf8(bytes);
        vstd::utf8::decode_utf8_encode_utf8(bytes);
        text::law_text_round_trip(text::dec(text::unsigned(name, 10, u32::MAX as nat)->0));
        match dir {
            Key::Root => {
                let n = text::unsigned(name, 10, u32::MAX as nat)->0;
                let nums = v.depot_list();
                ix.lemma_depot_numbers();
                assert(nums.contains(n as u32));
                let k = choose|k: int| 0 <= k < nums.len() && nums[k] == n as u32;
                assert(list[k] == listing::depot_entry(n as u32));
            },
            Key::Depot(d) => {
                let dep = v.depot(d);
                let n = dep.blobs.len() as int;
                ix.lemma_listings(d);
                if name == "latest"@ {
                    assert(list[n] == listing::latest_entry(d));
                } else if name == "by-date"@ {
                    let k = if v.latest(d) is Some {
                        n + 1
                    } else {
                        n
                    };
                    assert(list[k] == listing::by_date_entry(d));
                } else {
                    index::lemma_last_index(dep.names, name);
                    let k = index::last_index(dep.names, name)->0;
                    assert(list[k] == listing::version_entry(v, d, k));
                }
            },
            Key::ByDate(d) => lemma_link_is_listed(ix, d, name, key),
            _ => {},
        }
    }
}

proof fn lemma_link_is_listed(ix: &Index, d: u32, name: Seq<char>, key: Key)
    requires
        ix.wf(),
        ix@.has_depot(d),
        listing::index_lookup(ix@, Key::ByDate(d), name) == Some(key),
    ensures
        lists(listing::index_entries(ix@, Key::ByDate(d))->Ok_0, text::utf8(name), key),
{
    let v = ix@;
    let dep = v.depot(d);
    let list = listing::index_entries(v, Key::ByDate(d))->Ok_0;
    ix.lemma_listings(d);
    index::lemma_last_index(dep.links, name);
    let q = index::last_index(dep.links, name)->0;
    let b = dep.blobs[q];
    assert(dep.blobs.contains(b));
    assert(v.in_depot(d, b));
    lemma_named(ix, d, b);
    assert(dep.links[q] == v.link_name(b));
    assert(dep.date_order.contains(b));
    let k = choose|k: int| 0 <= k < dep.date_order.len() && dep.date_order[k] == b;
    assert(list[k] == listing::date_entry(v, d, k));
}

/// The nodes that have `dir` for their parent are those that it lists, each
/// with a name of its own.
pub open spec fn complete(m: ManifestView, dir: u32) -> bool {
    &&& forall|k: int|
        0 <= k < m.children(dir).len() ==> tidy(m, dir, #[trigger] m.children(dir)[k])
    &&& forall|c: u32, name: Seq<u8>| #[trigger]
        m.is_child(c, dir, name) ==> m.children(dir).contains(c)
}

/// A directory of a version's tree finds by a name what it lists under that
/// name, and nothing else.
pub proof fn law_child_lookups_find_what_is_listed(
    blob: BlobId,
    m: ManifestView,
    dir: u32,
    name: Seq<u8>,
    key: Key,
)
    requires
        m.sound(),
        complete(m, dir),
        listing::child_entries(blob, m, dir) is Ok,
    ensures
        listing::child_lookup(blob, m, dir, name) == Some(key) <==> lists(
            listing::child_entries(blob, m, dir)->Ok_0,
            name,
            key,
        ),
{
    let list = listing::child_entries(blob, m, dir)->Ok_0;
    let nodes = m.children(dir);
    if lists(list, name, key) {
        let k = choose|k: int|
            0 <= k < list.len() && (#[trigger] list[k]).name == name && list[k].key == key;
        let c = nodes[k];
        assert(tidy(m, dir, nodes[k]));
        assert(list[k] == listing::child_entry(blob, m, c));
        manifest::law_finds_every_child_by_name(m, c);
    }
    if listing::child_lookup(blob, m, dir, name) == Some(key) {
        let c = m.child_named(dir, name)->0;
        assert(m.is_first_child(c, dir, name));
        assert(m.is_child(c, dir, name));
        let k = choose|k: int| 0 <= k < nodes.len() && nodes[k] == c;
        assert(list[k] == listing::child_entry(blob, m, c));
    }
}

/// Every manifest that a key's version may have is sound, and the directory
/// that the key names in it is complete and goes by that key.
pub open spec fn in_order<B: Backend>(s: Setup<B>, dir: Key) -> bool {
    forall|b: BlobId, p: ParsedView|
        #![trigger s.may_parse(b, Ok(p))]
        (dir == Key::Version(b) || (dir matches Key::Node(x, _) && x == b)) && s.may_parse(
            b,
            Ok(p),
        ) ==> {
            let i = listing::node_index(dir, p.manifest)->0;
            &&& p.manifest.sound()
            &&& complete(p.manifest, i)
            &&& listing::node_key(b, p.manifest, i) == dir
        }
}

/// Over a steady backend, a directory that lists `list` finds by a name what
/// stands in that list under the name, and nothing where there is no such
/// entry.
pub proof fn law_found_is_listed<B: Backend>(
    s: Setup<B>,
    ix: &Index,
    dir: Key,
    list: Seq<EntryView>,
    name: Seq<u8>,
    found: super::TreeOutcome<Option<Key>>,
    key: Key,
)
    requires
        setup::steady(s.backend),
        ix.wf(),
        ix@ == s.index,
        told_apart(s.index, dir),
        one_spelling(dir, name),
        dir !is Version && dir !is Node ==> is_there(s.index, dir),
        in_order(s, dir),
        super::may_list(s, dir, Ok(list)),
        super::may_lookup(s, dir, name, found),
    ensures
        found is Ok,
        found->Ok_0 == Some(key) <==> lists(list, name, key),
        found->Ok_0 is None <==> !exists|k: int|
            0 <= k < list.len() && (#[trigger] list[k]).name == name,
{
    lemma_found_as_listed(s, ix, dir, list, name, found, key);
    assert forall|x: Key| found->Ok_0 == Some(x) <==> #[trigger] lists(list, name, x) by {
        lemma_found_as_listed(s, ix, dir, list, name, found, x);
    }
    match found->Ok_0 {
        Some(x) => {
            assert(lists(list, name, x));
        },
        None => {
            assert forall|k: int| 0 <= k < list.len() implies (#[trigger] list[k]).name != name by {
                if list[k].name == name {
                    assert(lists(list, name, list[k].key));
                }
            }
        },
    }
}

proof fn lemma_found_as_listed<B: Backend>(
    s: Setup<B>,
    ix: &Index,
    dir: Key,
    list: Seq<EntryView>,
    name: Seq<u8>,
    found: super::TreeOutcome<Option<Key>>,
    key: Key,
)
    requires
        setup::steady(s.backend),
        ix.wf(),
        ix@ == s.index,
        told_apart(s.index, dir),
        one_spelling(dir, name),
        dir !is Version && dir !is Node ==> is_there(s.index, dir),
        in_order(s, dir),
        super::may_list(s, dir, Ok(list)),
        super::may_lookup(s, dir, name, found),
    ensures
        found is Ok,
        found->Ok_0 == Some(key) <==> lists(list, name, key),
{
    match dir {
        Key::Version(b) => lemma_node_is_listed(s, b, dir, list, name, found, key),
        Key::Node(b, _) => lemma_node_is_listed(s, b, dir, list, name, found, key),
        _ => law_lookups_find_what_is_listed(ix, dir, name, key),
    }
}

proof fn lemma_node_is_listed<B: Backend>(
    s: Setup<B>,
    b: BlobId,
    dir: Key,
    list: Seq<EntryView>,
    name: Seq<u8>,
    found: super::TreeOutcome<Option<Key>>,
    key: Key,
)
    requires
        setup::steady(s.backend),
        dir == Key::Version(b) || (dir matches Key::Node(x, _) && x == b),
        in_order(s, dir),
        super::may_list_nodes(s, b, dir, Ok(list)),
        super::may_lookup_node(s, b, dir, name, found),
    ensures
        found is Ok,
        found->Ok_0 == Some(key) <==> lists(list, name, key),
{
    let x = choose|o: Outcome<ParsedView>| #[trigger]
        s.may_parse(b, o) && Ok::<Seq<EntryView>, TreeFault>(list) == match o {
            Err(f) => Err(TreeFault::Read(f)),
            Ok(p) => listing::child_entries(
                b,
                p.manifest,
                listing::node_index(dir, p.manifest)->0,
            ),
        };
    let y = choose|o: Outcome<ParsedView>| #[trigger]
        s.may_parse(b, o) && found == match o {
            Err(f) => Err(TreeFault::Read(f)),
            Ok(p) => Ok(
                listing::child_lookup(
                    b,
                    p.manifest,
                    listing::node_index(dir, p.manifest)->0,
                    name,
                ),
            ),
        };
    setup::law_steady_blobs(s, b, x, y);
    let p = x->Ok_0;
    assert(s.may_parse(b, Ok(p)));
    law_child_lookups_find_what_is_listed(
        b,
        p.manifest,
        listing::node_index(dir, p.manifest)->0,
        name,
        key,
    );
}

/// Nothing is found by a name that is not UTF-8 outside the versions' trees.
pub proof fn law_other_bytes_find_nothing<B: Backend>(
    s: Setup<B>,
    dir: Key,
    name: Seq<u8>,
    found: super::TreeOutcome<Option<Key>>,
)
    requires
        dir !is Version,
        dir !is Node,
        !vstd::utf8::valid_utf8(name),
        super::may_lookup(s, dir, name, found),
    ensures
        found == Ok::<Option<Key>, TreeFault>(None),
{
}

/// Over a steady backend, the metadata of what a directory lists can be had,
/// and tells of the kind that it is listed as.
pub proof fn law_listed_kind_is_told<B: Backend>(
    s: Setup<B>,
    ix: &Index,
    dir: Key,
    list: Seq<EntryView>,
    k: int,
    meta: super::TreeOutcome<super::Meta>,
)
    requires
        setup::steady(s.backend),
        ix.wf(),
        ix@ == s.index,
        told_apart(s.index, dir),
        in_order(s, dir),
        super::may_list(s, dir, Ok(list)),
        0 <= k < list.len(),
        super::may_meta(s, list[k].key, meta),
    ensures
        meta is Ok,
        meta->Ok_0.kind == list[k].kind,
{
    match dir {
        Key::Version(b) => lemma_node_kind_is_told(s, b, dir, list, k, meta),
        Key::Node(b, _) => lemma_node_kind_is_told(s, b, dir, list, k, meta),
        _ => {
            law_listings_and_lookups_agree(ix, dir, k);
            lemma_index_entry_is_no_node(s.index, dir, k);
        },
    }
}

proof fn lemma_node_kind_is_told<B: Backend>(
    s: Setup<B>,
    b: BlobId,
    dir: Key,
    list: Seq<EntryView>,
    k: int,
    meta: super::TreeOutcome<super::Meta>,
)
    requires
        setup::steady(s.backend),
        dir == Key::Version(b) || (dir matches Key::Node(x, _) && x == b),
        in_order(s, dir),
        super::may_list_nodes(s, b, dir, Ok(list)),
        0 <= k < list.len(),
        super::may_meta(s, list[k].key, meta),
    ensures
        meta is Ok,
        meta->Ok_0.kind == list[k].kind,
{
    let x = choose|o: Outcome<ParsedView>| #[trigger]
        s.may_parse(b, o) && Ok::<Seq<EntryView>, TreeFault>(list) == match o {
            Err(f) => Err(TreeFault::Read(f)),
            Ok(p) => listing::child_entries(
                b,
                p.manifest,
                listing::node_index(dir, p.manifest)->0,
            ),
        };
    let p = x->Ok_0;
    let m = p.manifest;
    let i = listing::node_index(dir, m)->0;
    let c = m.children(i)[k];
    assert(s.may_parse(b, Ok(p)));
    assert(list[k] == listing::child_entry(b, m, c));
    assert(tidy(m, i, m.children(i)[k]));
    manifest::law_children_are_nodes(m, i);
    if c == m.root() && exists|j: u32| m.is_root(j) {
        assert(m.is_root(m.root()));
    }
    let y = choose|o: Outcome<ParsedView>| #[trigger]
        s.may_parse(b, o) && match o {
            Err(f) => meta == Err::<super::Meta, TreeFault>(TreeFault::Read(f)),
            Ok(p) => meta matches Ok(meta) && super::may_node_meta(
                s,
                b,
                listing::node_or_blank(p.manifest, c),
                meta,
            ),
        };
    setup::law_steady_blobs(s, b, x, y);
}

// ---- parents --------------------------------------------------------------

/// Every entry that a directory outside the versions' trees lists has that
/// directory for its parent.
pub proof fn law_index_entries_live_there(ix: &Index, dir: Key, k: int)
    requires
        ix.wf(),
        listing::index_entries(ix@, dir) matches Ok(list) && 0 <= k < list.len(),
    ensures
        listing::index_parent(ix@, listing::index_entries(ix@, dir)->Ok_0[k].key) == dir,
{
    let v = ix@;
    let list = listing::index_entries(v, dir)->Ok_0;
    match dir {
        Key::Depot(d) => {
            let blobs = v.depot(d).blobs;
            ix.lemma_listings(d);
            if k < blobs.len() {
                assert(list[k] == listing::version_entry(v, d, k));
                assert(blobs.contains(blobs[k]));
                assert(v.in_depot(d, blobs[k]));
            } else if v.latest(d) is Some && k == blobs.len() {
                assert(list[k] == listing::latest_entry(d));
            } else {
                assert(list[k] == listing::by_date_entry(d));
            }
        },
        Key::ByDate(d) => {
            let order = v.depot(d).date_order;
            ix.lemma_listings(d);
            assert(list[k] == listing::date_entry(v, d, k));
            assert(order.contains(order[k]));
            assert(v.in_depot(d, order[k]));
        },
        _ => {},
    }
}

/// Over a steady backend, every entry that a directory lists has that
/// directory for its parent.
pub proof fn law_entries_live_there<B: Backend>(
    s: Setup<B>,
    ix: &Index,
    dir: Key,
    list: Seq<EntryView>,
    k: int,
    parent: Key,
)
    requires
        setup::steady(s.backend),
        ix.wf(),
        ix@ == s.index,
        in_order(s, dir),
        super::may_list(s, dir, Ok(list)),
        0 <= k < list.len(),
        super::may_parent(s, list[k].key, parent),
    ensures
        parent == dir,
{
    match dir {
        Key::Version(b) => lemma_node_lives_there(s, b, dir, list, k, parent),
        Key::Node(b, _) => lemma_node_lives_there(s, b, dir, list, k, parent),
        _ => {
            law_index_entries_live_there(ix, dir, k);
            lemma_index_entry_is_no_node(s.index, dir, k);
        },
    }
}

proof fn lemma_index_entry_is_no_node(v: IndexView, dir: Key, k: int)
    requires
        listing::index_entries(v, dir) matches Ok(list) && 0 <= k < list.len(),
    ensures
        listing::index_entries(v, dir)->Ok_0[k].key !is Node,
{
}

proof fn lemma_node_lives_there<B: Backend>(
    s: Setup<B>,
    b: BlobId,
    dir: Key,
    list: Seq<EntryView>,
    k: int,
    parent: Key,
)
    requires
        setup::steady(s.backend),
        dir == Key::Version(b) || (dir matches Key::Node(x, _) && x == b),
        in_order(s, dir),
        super::may_list_nodes(s, b, dir, Ok(list)),
        0 <= k < list.len(),
        super::may_parent(s, list[k].key, parent),
    ensures
        parent == dir,
{
    let x = choose|o: Outcome<ParsedView>| #[trigger]
        s.may_parse(b, o) && Ok::<Seq<EntryView>, TreeFault>(list) == match o {
            Err(f) => Err(TreeFault::Read(f)),
            Ok(p) => listing::child_entries(
                b,
                p.manifest,
                listing::node_index(dir, p.manifest)->0,
            ),
        };
    let p = x->Ok_0;
    let m = p.manifest;
    let i = listing::node_index(dir, m)->0;
    let c = m.children(i)[k];
    assert(s.may_parse(b, Ok(p)));
    assert(list[k] == listing::child_entry(b, m, c));
    assert(tidy(m, i, m.children(i)[k]));
    manifest::law_children_are_nodes(m, i);
    if c == m.root() && exists|j: u32| m.is_root(j) {
        assert(m.is_root(m.root()));
    }
    let y = choose|o: Outcome<ParsedView>| #[trigger]
        s.may_parse(b, o) && parent == match o {
            Ok(p) => listing::node_parent(b, p.manifest, c),
            Err(_) => Key::Version(b),
        };
    setup::law_steady_blobs(s, b, x, y);
}

/// Only the root is its own directory.
pub proof fn law_parents_are_elsewhere<B: Backend>(s: Setup<B>, key: Key, parent: Key)
    requires
        super::may_parent(s, key, parent),
        key != Key::Root,
        forall|b: BlobId, i: u32, p: ParsedView|
            #![trigger s.may_parse(b, Ok(p)), p.manifest.nodes[i as int]]
            key == Key::Node(b, i) && s.may_parse(b, Ok(p)) && p.manifest.has(i)
                ==> p.manifest.nodes[i as int].parent != i,
    ensures
        parent != key,
{
    match key {
        Key::Node(b, i) => {
            let o = choose|o: Outcome<ParsedView>| #[trigger]
                s.may_parse(b, o) && parent == match o {
                    Ok(p) => listing::node_parent(b, p.manifest, i),
                    Err(_) => Key::Version(b),
                };
            match o {
                Ok(p) => {
                    assert(s.may_parse(b, Ok(p)));
                    if p.manifest.has(i) {
                        assert(p.manifest.nodes[i as int].parent != i);
                    }
                },
                Err(_) => {},
            }
        },
        _ => {},
    }
}

} // verus!
