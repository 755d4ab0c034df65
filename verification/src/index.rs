//! Inventory of a dump: which blob and dat files exist, parsed from their
//! names alone. Nothing here reads blob contents.
//!
//! File names look like `<depot>_<version>_<crc32 hex>_<sha256 hex>.blob`
//! and `<depot>_<version>_<crc32 hex>_<sha256 hex>.dat`; a qBittorrent
//! download in progress carries a trailing `.!qB`.

use std::collections::HashMap;
use vstd::hash_map::StringHashMap;
use vstd::prelude::*;

use crate::backend;
use crate::backend::{Backend, DirEntry, DirView, Reply, ReplyView, Trouble, TroubleView};
use crate::calendar;
use crate::calendar::Date;
use crate::sort;
use crate::sort::{Keyed, Rank};
use crate::text;

pub mod laws;
pub mod names;

pub use crate::calendar::{civil_from_days, days_from_civil, format_stamp, parse_date};

verus! {

broadcast use vstd::std_specs::hash::group_hash_axioms;

/// The number of a blob in its index.
#[derive(Debug, Clone, Copy, PartialEq, Eq, Hash, PartialOrd, Ord, Structural)]
pub struct BlobId(pub u32);

/// The number of a dat in its index.
#[derive(Debug, Clone, Copy, PartialEq, Eq, Hash, PartialOrd, Ord, Structural)]
pub struct DatId(pub u32);

#[derive(Debug)]
pub struct BlobEntry {
    /// Path relative to the dump root.
    pub path: String,
    pub file_name: String,
    pub depot: u32,
    pub version: u32,
    pub crc: u32,
    pub size: u64,
    /// From `blobs_dates.txt`, when present.
    pub date: Option<Date>,
    /// Hex sha256 of the file contents, from the fourth name component.
    pub sha256: Option<String>,
}

/// A `BlobEntry`, as the contracts see it.
#[verifier::ext_equal]
pub struct BlobView {
    pub path: Seq<char>,
    pub file_name: Seq<char>,
    pub depot: u32,
    pub version: u32,
    pub crc: u32,
    pub size: u64,
    pub date: Option<Date>,
    pub sha256: Option<Seq<char>>,
}

impl View for BlobEntry {
    type V = BlobView;

    open spec fn view(&self) -> BlobView {
        BlobView {
            path: self.path@,
            file_name: self.file_name@,
            depot: self.depot,
            version: self.version,
            crc: self.crc,
            size: self.size,
            date: self.date,
            sha256: match self.sha256 {
                Some(s) => Some(s@),
                None => None,
            },
        }
    }
}

#[derive(Debug)]
pub struct DatEntry {
    pub path: String,
    pub depot: u32,
    pub version: u32,
    pub crc: u32,
    pub size: u64,
    pub incomplete: bool,
}

/// A `DatEntry`, as the contracts see it.
#[verifier::ext_equal]
pub struct DatView {
    pub path: Seq<char>,
    pub depot: u32,
    pub version: u32,
    pub crc: u32,
    pub size: u64,
    pub incomplete: bool,
}

impl View for DatEntry {
    type V = DatView;

    open spec fn view(&self) -> DatView {
        DatView {
            path: self.path@,
            depot: self.depot,
            version: self.version,
            crc: self.crc,
            size: self.size,
            incomplete: self.incomplete,
        }
    }
}

// ---- file names -----------------------------------------------------------

/// What the name of a blob or dat says.
#[derive(Debug, Clone, Copy, PartialEq, Eq, Structural)]
pub struct ParsedName {
    pub depot: u32,
    pub version: u32,
    pub crc: u32,
}

/// What `name` says, when it ends in `ext` and has four parts: the numbers,
/// and the text of the fourth.
pub open spec fn name_of(name: Seq<char>, ext: Seq<char>) -> Option<(ParsedName, Seq<char>)> {
    match text::strip_end(name, ext) {
        None => None,
        Some(stem) => match text::split_once(stem, '_') {
            None => None,
            Some((depot, rest)) => match text::split_once(rest, '_') {
                None => None,
                Some((version, rest)) => match text::split_once(rest, '_') {
                    None => None,
                    Some((crc, sha)) => match (
                        text::unsigned(depot, 10, u32::MAX as nat),
                        text::unsigned(version, 10, u32::MAX as nat),
                        text::unsigned(crc, 16, u32::MAX as nat),
                    ) {
                        (Some(depot), Some(version), Some(crc)) => Some(
                            (
                                ParsedName {
                                    depot: depot as u32,
                                    version: version as u32,
                                    crc: crc as u32,
                                },
                                sha,
                            ),
                        ),
                        _ => None,
                    },
                },
            },
        },
    }
}

fn parse_name_chars(name: &[char], ext: &str) -> (r: Option<(ParsedName, String)>)
    ensures
        match r {
            Some(p) => name_of(name@, ext@) == Some((p.0, p.1@)),
            None => name_of(name@, ext@) is None,
        },
{
    let ext = text::chars_of(ext);
    let stem = match text::strip_ending(name, ext.as_slice()) {
        Some(s) => s,
        None => {
            return None;
        },
    };
    let (depot, rest) = match text::split_once_at(stem, '_') {
        Some(p) => p,
        None => {
            return None;
        },
    };
    let (version, rest) = match text::split_once_at(rest, '_') {
        Some(p) => p,
        None => {
            return None;
        },
    };
    let (crc, sha) = match text::split_once_at(rest, '_') {
        Some(p) => p,
        None => {
            return None;
        },
    };
    match (text::parse_u32(depot, 10), text::parse_u32(version, 10), text::parse_u32(crc, 16)) {
        (Some(depot), Some(version), Some(crc)) => Some(
            (ParsedName { depot, version, crc }, text::string_of(sha)),
        ),
        _ => None,
    }
}

/// What the name of a blob or dat says: its numbers, and the text of its
/// fourth component.
pub fn parse_name(name: &str, ext: &str) -> (r: Option<(ParsedName, String)>)
    ensures
        match r {
            Some(p) => name_of(name@, ext@) == Some((p.0, p.1@)),
            None => name_of(name@, ext@) is None,
        },
{
    let v = text::chars_of(name);
    parse_name_chars(v.as_slice(), ext)
}

// ---- the date list --------------------------------------------------------

/// The dates that some lines give: a name and a date, with a tab between
/// them. Where a name occurs twice, its last date counts.
pub open spec fn dates_in(lines: Seq<Seq<char>>) -> Map<Seq<char>, Date>
    decreases lines.len(),
{
    if lines.len() == 0 {
        Map::empty()
    } else {
        let before = dates_in(lines.drop_last());
        match text::split_once(lines.last(), '\t') {
            None => before,
            Some((name, date)) => match calendar::date_of(text::trim(date)) {
                None => before,
                Some(d) => before.insert(text::trim(name), d),
            },
        }
    }
}

/// The dates that the bytes of a date list give.
pub open spec fn dates_of(bytes: Seq<u8>) -> Map<Seq<char>, Date> {
    dates_in(text::lines(text::utf8_lossy(bytes)))
}

/// Read the lines of a date list.
pub fn read_dates(content: &str) -> (r: StringHashMap<Date>)
    ensures
        r@ == dates_in(text::lines(content@)),
{
    let v = text::chars_of(content);
    let lines = text::lines_of(v.as_slice());
    let ghost all = text::views(lines@);
    let mut m: StringHashMap<Date> = StringHashMap::new();
    let mut i: usize = 0;
    assert(all.take(0) =~= Seq::<Seq<char>>::empty());
    while i < lines.len()
        invariant
            i <= lines@.len(),
            all == text::views(lines@),
            m@ == dates_in(all.take(i as int)),
        decreases lines@.len() - i,
    {
        proof {
            assert(all.take(i + 1).drop_last() =~= all.take(i as int));
            assert(all.take(i + 1).last() == lines@[i as int]@);
        }
        match text::split_once_at(lines[i].as_slice(), '\t') {
            None => {},
            Some((name, date)) => {
                let when = text::string_of(text::trimmed(date));
                match parse_date(when.as_str()) {
                    None => {},
                    Some(d) => {
                        m.insert(text::string_of(text::trimmed(name)), d);
                    },
                }
            },
        }
        i += 1;
    }
    assert(all.take(all.len() as int) =~= all);
    m
}

// ---- the inventory --------------------------------------------------------

/// How many bytes a text takes.
pub open spec fn byte_len(s: Seq<char>) -> nat {
    vstd::utf8::encode_utf8(s).len()
}

/// The blob that a directory entry is, if it is one.
pub open spec fn blob_of(e: DirView, dates: Map<Seq<char>, Date>) -> Option<BlobView> {
    match name_of(e.name, ".blob"@) {
        None => None,
        Some((p, sha)) => Some(
            BlobView {
                path: "blobs/"@ + e.name,
                file_name: e.name,
                depot: p.depot,
                version: p.version,
                crc: p.crc,
                size: e.size,
                date: if dates.contains_key(e.name) {
                    Some(dates[e.name])
                } else {
                    None
                },
                sha256: if byte_len(sha) == 64 {
                    Some(sha)
                } else {
                    None
                },
            },
        ),
    }
}

/// The blobs among some directory entries.
pub open spec fn blobs_of(entries: Seq<DirView>, dates: Map<Seq<char>, Date>) -> Seq<BlobView>
    decreases entries.len(),
{
    if entries.len() == 0 {
        Seq::empty()
    } else {
        let before = blobs_of(entries.drop_last(), dates);
        match blob_of(entries.last(), dates) {
            None => before,
            Some(b) => before.push(b),
        }
    }
}

/// The name of a dat without the mark of a download in progress, and whether
/// it carries the mark.
pub open spec fn unmarked(name: Seq<char>) -> (Seq<char>, bool) {
    match text::strip_end(name, ".!qB"@) {
        Some(n) => (n, true),
        None => (name, false),
    }
}

/// The dat that a directory entry is, if it is one.
pub open spec fn dat_of(e: DirView) -> Option<DatView> {
    match name_of(unmarked(e.name).0, ".dat"@) {
        None => None,
        Some((p, _)) => Some(
            DatView {
                path: "dats/"@ + e.name,
                depot: p.depot,
                version: p.version,
                crc: p.crc,
                size: e.size,
                incomplete: unmarked(e.name).1,
            },
        ),
    }
}

/// The dats among some directory entries.
pub open spec fn dats_of(entries: Seq<DirView>) -> Seq<DatView>
    decreases entries.len(),
{
    if entries.len() == 0 {
        Seq::empty()
    } else {
        let before = dats_of(entries.drop_last());
        match dat_of(entries.last()) {
            None => before,
            Some(d) => before.push(d),
        }
    }
}

pub open spec fn blob_views(v: Seq<BlobEntry>) -> Seq<BlobView> {
    v.map_values(|b: BlobEntry| b@)
}

pub open spec fn dat_views(v: Seq<DatEntry>) -> Seq<DatView> {
    v.map_values(|d: DatEntry| d@)
}

fn read_blob(e: &DirEntry, dates: &StringHashMap<Date>) -> (r: Option<BlobEntry>)
    ensures
        match r {
            Some(b) => blob_of(e@, dates@) == Some(b@),
            None => blob_of(e@, dates@) is None,
        },
{
    match parse_name(e.name.as_str(), ".blob") {
        None => None,
        Some((p, sha)) => {
            let mut path = text::owned("blobs/");
            text::push_text(&mut path, e.name.as_str());
            let date = match dates.get(e.name.as_str()) {
                Some(d) => Some(*d),
                None => None,
            };
            let long = sha.as_str().as_bytes().len() == 64;
            let sha256 = if long {
                Some(sha)
            } else {
                None
            };
            Some(
                BlobEntry {
                    path,
                    file_name: text::owned(e.name.as_str()),
                    depot: p.depot,
                    version: p.version,
                    crc: p.crc,
                    size: e.size,
                    date,
                    sha256,
                },
            )
        },
    }
}

fn read_blobs(entries: &Vec<DirEntry>, dates: &StringHashMap<Date>) -> (r: Vec<BlobEntry>)
    ensures
        blob_views(r@) == blobs_of(backend::dir_views(entries@), dates@),
{
    let ghost all = backend::dir_views(entries@);
    let mut out: Vec<BlobEntry> = Vec::new();
    let mut i: usize = 0;
    assert(all.take(0) =~= Seq::<DirView>::empty());
    assert(blob_views(out@) =~= Seq::<BlobView>::empty());
    while i < entries.len()
        invariant
            i <= entries@.len(),
            all == backend::dir_views(entries@),
            blob_views(out@) == blobs_of(all.take(i as int), dates@),
        decreases entries@.len() - i,
    {
        proof {
            assert(all.take(i + 1).drop_last() =~= all.take(i as int));
            assert(all.take(i + 1).last() == entries@[i as int]@);
        }
        match read_blob(&entries[i], dates) {
            None => {},
            Some(b) => {
                let ghost before = blob_views(out@);
                out.push(b);
                assert(blob_views(out@) =~= before.push(b@));
            },
        }
        i += 1;
    }
    assert(all.take(all.len() as int) =~= all);
    out
}

fn read_dat(e: &DirEntry) -> (r: Option<DatEntry>)
    ensures
        match r {
            Some(d) => dat_of(e@) == Some(d@),
            None => dat_of(e@) is None,
        },
{
    let name = text::chars_of(e.name.as_str());
    let mark = text::chars_of(".!qB");
    let (name, incomplete) = match text::strip_ending(name.as_slice(), mark.as_slice()) {
        Some(n) => (n, true),
        None => (name.as_slice(), false),
    };
    match parse_name_chars(name, ".dat") {
        None => None,
        Some((p, _)) => {
            let mut path = text::owned("dats/");
            text::push_text(&mut path, e.name.as_str());
            Some(
                DatEntry {
                    path,
                    depot: p.depot,
                    version: p.version,
                    crc: p.crc,
                    size: e.size,
                    incomplete,
                },
            )
        },
    }
}

fn read_dats(entries: &Vec<DirEntry>) -> (r: Vec<DatEntry>)
    ensures
        dat_views(r@) == dats_of(backend::dir_views(entries@)),
{
    let ghost all = backend::dir_views(entries@);
    let mut out: Vec<DatEntry> = Vec::new();
    let mut i: usize = 0;
    assert(all.take(0) =~= Seq::<DirView>::empty());
    assert(dat_views(out@) =~= Seq::<DatView>::empty());
    while i < entries.len()
        invariant
            i <= entries@.len(),
            all == backend::dir_views(entries@),
            dat_views(out@) == dats_of(all.take(i as int)),
        decreases entries@.len() - i,
    {
        proof {
            assert(all.take(i + 1).drop_last() =~= all.take(i as int));
            assert(all.take(i + 1).last() == entries@[i as int]@);
        }
        match read_dat(&entries[i]) {
            None => {},
            Some(d) => {
                let ghost before = dat_views(out@);
                out.push(d);
                assert(dat_views(out@) =~= before.push(d@));
            },
        }
        i += 1;
    }
    assert(all.take(all.len() as int) =~= all);
    out
}

// ---- first and last -------------------------------------------------------

/// The last place of `x` in `s`, if it occurs.
pub open spec fn last_index<A>(s: Seq<A>, x: A) -> Option<int>
    decreases s.len(),
{
    if s.len() == 0 {
        None
    } else if s.last() == x {
        Some(s.len() - 1)
    } else {
        last_index(s.drop_last(), x)
    }
}

pub proof fn lemma_last_index<A>(s: Seq<A>, x: A)
    ensures
        match last_index(s, x) {
            Some(i) => 0 <= i < s.len() && s[i] == x && forall|j: int| i < j < s.len() ==> s[j] != x,
            None => forall|j: int| 0 <= j < s.len() ==> s[j] != x,
        },
    decreases s.len(),
{
    if s.len() > 0 {
        lemma_last_index(s.drop_last(), x);
        assert forall|j: int| 0 <= j < s.len() - 1 implies s[j] == s.drop_last()[j] by {}
    }
}

/// Where one more element is looked at, the last place is there or as before.
proof fn lemma_last_index_step<A>(s: Seq<A>, i: int, x: A)
    requires
        0 <= i < s.len(),
    ensures
        last_index(s.take(i + 1), x) == if s[i] == x {
            Some(i)
        } else {
            last_index(s.take(i), x)
        },
{
    assert(s.take(i + 1).drop_last() =~= s.take(i));
}

/// The depot, version and crc of a dat.
pub open spec fn dat_key(d: DatView) -> (u32, u32, u32) {
    (d.depot, d.version, d.crc)
}

pub open spec fn dat_keys(dats: Seq<DatView>) -> Seq<(u32, u32, u32)> {
    dats.map_values(|d: DatView| dat_key(d))
}

/// The first complete dat with a depot, version and crc.
pub open spec fn first_whole(dats: Seq<DatView>, key: (u32, u32, u32)) -> Option<int>
    decreases dats.len(),
{
    if dats.len() == 0 {
        None
    } else {
        match first_whole(dats.drop_last(), key) {
            Some(i) => Some(i),
            None => if dat_key(dats.last()) == key && !dats.last().incomplete {
                Some(dats.len() - 1)
            } else {
                None
            },
        }
    }
}

pub proof fn lemma_first_whole(dats: Seq<DatView>, key: (u32, u32, u32))
    ensures
        match first_whole(dats, key) {
            Some(i) => 0 <= i < dats.len() && dat_key(dats[i]) == key && !dats[i].incomplete
                && forall|j: int|
                0 <= j < i ==> dat_key(#[trigger] dats[j]) != key || dats[j].incomplete,
            None => forall|j: int|
                0 <= j < dats.len() ==> dat_key(#[trigger] dats[j]) != key || dats[j].incomplete,
        },
    decreases dats.len(),
{
    if dats.len() > 0 {
        lemma_first_whole(dats.drop_last(), key);
        assert forall|j: int| 0 <= j < dats.len() - 1 implies dats[j] == dats.drop_last()[j] by {}
    }
}

/// The first complete dat with a depot, version and crc; where none is
/// complete, the last.
pub open spec fn dat_with(dats: Seq<DatView>, key: (u32, u32, u32)) -> Option<int> {
    match first_whole(dats, key) {
        Some(i) => Some(i),
        None => last_index(dat_keys(dats), key),
    }
}

/// Two sequences with the same elements that are both in an order are the
/// same.
pub proof fn lemma_order_decides(lt: spec_fn(u32, u32) -> bool, s: Seq<u32>, t: Seq<u32>)
    requires
        forall|a: u32, b: u32| #[trigger] lt(a, b) ==> !lt(b, a),
        forall|i: int, j: int| 0 <= i < j < s.len() ==> lt(#[trigger] s[i], #[trigger] s[j]),
        forall|i: int, j: int| 0 <= i < j < t.len() ==> lt(#[trigger] t[i], #[trigger] t[j]),
        forall|x: u32| s.contains(x) <==> t.contains(x),
    ensures
        s == t,
    decreases s.len(),
{
    if s.len() == 0 {
        if t.len() > 0 {
            assert(t.contains(t[0]));
        }
        assert(s =~= t);
    } else {
        assert(s.contains(s.last()));
        assert(t.len() > 0);
        assert(t.contains(t.last()));
        let p = choose|p: int| 0 <= p < t.len() && t[p] == s.last();
        let q = choose|q: int| 0 <= q < s.len() && s[q] == t.last();
        if p < t.len() - 1 && q < s.len() - 1 {
            assert(lt(t[p], t[t.len() - 1]));
            assert(lt(s[q], s[s.len() - 1]));
        }
        assert(s.last() == t.last());
        let a = s.drop_last();
        let b = t.drop_last();
        assert forall|x: u32| a.contains(x) <==> b.contains(x) by {
            if a.contains(x) {
                let i = choose|i: int| 0 <= i < a.len() && a[i] == x;
                assert(s[i] == x);
                assert(lt(s[i], s[s.len() - 1]));
                assert(s.contains(x));
                let j = choose|j: int| 0 <= j < t.len() && t[j] == x;
                assert(j < t.len() - 1);
                assert(b[j] == x);
            }
            if b.contains(x) {
                let i = choose|i: int| 0 <= i < b.len() && b[i] == x;
                assert(t[i] == x);
                assert(lt(t[i], t[t.len() - 1]));
                assert(t.contains(x));
                let j = choose|j: int| 0 <= j < s.len() && s[j] == x;
                assert(j < s.len() - 1);
                assert(a[j] == x);
            }
        }
        lemma_order_decides(lt, a, b);
        assert(s =~= a.push(s.last()));
        assert(t =~= b.push(t.last()));
    }
}

// ---- what an index says ---------------------------------------------------

/// An index, as the contracts see it: everything else follows from the blobs
/// and the dats.
#[verifier::ext_equal]
pub struct IndexView {
    pub blobs: Seq<BlobView>,
    pub dats: Seq<DatView>,
}

/// A depot, as the contracts see it.
#[verifier::ext_equal]
pub struct DepotView {
    /// The blobs by (version, crc).
    pub blobs: Seq<u32>,
    /// The version directory name of each.
    pub names: Seq<Seq<char>>,
    /// The `by-date/` link name of each.
    pub links: Seq<Seq<char>>,
    /// The blobs in `by-date/` listing order.
    pub date_order: Seq<u32>,
}

impl DepotView {
    /// The place of a blob.
    pub open spec fn place(self, id: u32) -> Option<int> {
        last_index(self.blobs, id)
    }

    /// The last blob with a version directory name.
    pub open spec fn named(self, name: Seq<char>) -> Option<BlobId> {
        match last_index(self.names, name) {
            Some(k) => Some(BlobId(self.blobs[k])),
            None => None,
        }
    }

    /// The last blob with a link name.
    pub open spec fn linked(self, link: Seq<char>) -> Option<BlobId> {
        match last_index(self.links, link) {
            Some(k) => Some(BlobId(self.blobs[k])),
            None => None,
        }
    }

    /// The version directory name of a blob.
    pub open spec fn name_of(self, id: u32) -> Option<Seq<char>> {
        match self.place(id) {
            Some(k) => Some(self.names[k]),
            None => None,
        }
    }

    /// The link name of a blob.
    pub open spec fn link_of(self, id: u32) -> Option<Seq<char>> {
        match self.place(id) {
            Some(k) => Some(self.links[k]),
            None => None,
        }
    }
}

impl IndexView {
    pub open spec fn has_blob(self, id: BlobId) -> bool {
        id.0 < self.blobs.len()
    }

    pub open spec fn has_dat(self, id: DatId) -> bool {
        id.0 < self.dats.len()
    }

    pub open spec fn blob(self, id: BlobId) -> BlobView {
        self.blobs[id.0 as int]
    }

    pub open spec fn dat(self, id: DatId) -> DatView {
        self.dats[id.0 as int]
    }

    /// Blob `i` is one of depot `d`.
    pub open spec fn in_depot(self, d: u32, i: u32) -> bool {
        i < self.blobs.len() && self.blobs[i as int].depot == d
    }

    pub open spec fn has_depot(self, d: u32) -> bool {
        exists|i: u32| self.in_depot(d, i)
    }

    /// `s` lists the depots, each once, by number.
    pub open spec fn is_depot_list(self, s: Seq<u32>) -> bool {
        &&& forall|i: int, j: int| 0 <= i < j < s.len() ==> (#[trigger] s[i]) < (#[trigger] s[j])
        &&& forall|d: u32| s.contains(d) <==> #[trigger] self.has_depot(d)
    }

    /// The depots by number.
    pub open spec fn depot_list(self) -> Seq<u32> {
        choose|s: Seq<u32>| self.is_depot_list(s)
    }

    /// The order of the blobs of a depot: by version, crc, and number.
    pub open spec fn before(self, a: u32, b: u32) -> bool {
        let x = self.blobs[a as int];
        let y = self.blobs[b as int];
        x.version < y.version || (x.version == y.version && (x.crc < y.crc || (x.crc == y.crc && a
            < b)))
    }

    /// `s` lists the blobs of depot `d`, each once, in order.
    pub open spec fn is_listing(self, d: u32, s: Seq<u32>) -> bool {
        &&& forall|i: int, j: int|
            0 <= i < j < s.len() ==> self.before(#[trigger] s[i], #[trigger] s[j])
        &&& forall|i: u32| s.contains(i) <==> #[trigger] self.in_depot(d, i)
    }

    /// The blobs of a depot, in order.
    pub open spec fn listing(self, d: u32) -> Seq<u32> {
        choose|s: Seq<u32>| self.is_listing(d, s)
    }

    /// Another blob of the same depot has the same version number.
    pub open spec fn shares_version(self, i: u32) -> bool {
        exists|j: u32|
            j != i && #[trigger] self.in_depot(self.blobs[i as int].depot, j)
                && self.blobs[j as int].version == self.blobs[i as int].version
    }

    /// The version directory name: `12`, or `12-0050a99e` when several blobs
    /// share a version number.
    pub open spec fn version_name(self, i: u32) -> Seq<char> {
        let b = self.blobs[i as int];
        if self.shares_version(i) {
            text::dec(b.version as nat) + "-"@ + text::hex8(b.crc as nat)
        } else {
            text::dec(b.version as nat)
        }
    }

    /// The `by-date/` link name.
    pub open spec fn link_name(self, i: u32) -> Seq<char> {
        let when = match self.blobs[i as int].date {
            Some(d) => calendar::stamp(d.secs as nat),
            None => "unknown"@,
        };
        when + "_v"@ + self.version_name(i)
    }

    /// The order of the links of a depot: by link name, then as the blobs.
    pub open spec fn dated_before(self, a: u32, b: u32) -> bool {
        match sort::rank(
            sort::char_key(self.link_name(a)),
            sort::char_key(self.link_name(b)),
        ) {
            Rank::Less => true,
            Rank::Same => self.before(a, b),
            Rank::Greater => false,
        }
    }

    /// `s` lists the blobs of depot `d`, each once, by link name.
    pub open spec fn is_date_listing(self, d: u32, s: Seq<u32>) -> bool {
        &&& forall|i: int, j: int|
            0 <= i < j < s.len() ==> self.dated_before(#[trigger] s[i], #[trigger] s[j])
        &&& forall|i: u32| s.contains(i) <==> #[trigger] self.in_depot(d, i)
    }

    /// The blobs of a depot, by link name.
    pub open spec fn date_listing(self, d: u32) -> Seq<u32> {
        choose|s: Seq<u32>| self.is_date_listing(d, s)
    }

    pub open spec fn depot(self, d: u32) -> DepotView {
        let ids = self.listing(d);
        DepotView {
            blobs: ids,
            names: Seq::new(ids.len(), |k: int| self.version_name(ids[k])),
            links: Seq::new(ids.len(), |k: int| self.link_name(ids[k])),
            date_order: self.date_listing(d),
        }
    }

    pub open spec fn blob_keys(self) -> Seq<(u32, u32, u32)> {
        self.blobs.map_values(|b: BlobView| (b.depot, b.version, b.crc))
    }

    /// The last blob with a depot, version and crc.
    pub open spec fn find_blob(self, depot: u32, version: u32, crc: u32) -> Option<BlobId> {
        match last_index(self.blob_keys(), (depot, version, crc)) {
            Some(i) => Some(BlobId(i as u32)),
            None => None,
        }
    }

    /// The first complete dat with a depot, version and crc; where none is
    /// complete, the last.
    pub open spec fn find_dat(self, depot: u32, version: u32, crc: u32) -> Option<DatId> {
        match dat_with(self.dats, (depot, version, crc)) {
            Some(i) => Some(DatId(i as u32)),
            None => None,
        }
    }

    /// Those of some blobs that have a version number.
    pub open spec fn of_version(self, s: Seq<u32>, version: u32) -> Seq<u32>
        decreases s.len(),
    {
        if s.len() == 0 {
            Seq::empty()
        } else if self.blobs[s.last() as int].version == version {
            self.of_version(s.drop_last(), version).push(s.last())
        } else {
            self.of_version(s.drop_last(), version)
        }
    }

    /// The blobs of a depot with a version number, in order.
    pub open spec fn with_version(self, depot: u32, version: u32) -> Seq<u32> {
        if self.has_depot(depot) {
            self.of_version(self.listing(depot), version)
        } else {
            Seq::empty()
        }
    }

    /// Which of two blobs is older: by version, date (none before any), and
    /// then as the blobs are listed.
    pub open spec fn older(self, a: u32, b: u32) -> bool {
        let x = self.blobs[a as int];
        let y = self.blobs[b as int];
        x.version < y.version || (x.version == y.version && (date_earlier(x.date, y.date) || (x.date
            == y.date && self.before(a, b))))
    }

    /// Every other blob of depot `d` is older than `i`.
    pub open spec fn is_latest(self, d: u32, i: u32) -> bool {
        &&& self.in_depot(d, i)
        &&& forall|j: u32| #[trigger] self.in_depot(d, j) && j != i ==> self.older(j, i)
    }

    /// The newest blob of a depot.
    pub open spec fn latest(self, d: u32) -> Option<BlobId> {
        if exists|i: u32| self.is_latest(d, i) {
            Some(BlobId(choose|i: u32| self.is_latest(d, i)))
        } else {
            None
        }
    }
}

/// `None` is before every date.
pub open spec fn date_earlier(a: Option<Date>, b: Option<Date>) -> bool {
    match (a, b) {
        (None, Some(_)) => true,
        (Some(x), Some(y)) => x.earlier(y),
        _ => false,
    }
}

/// What is listed for a depot is what `listing` names.
pub proof fn lemma_listing(v: IndexView, d: u32, s: Seq<u32>)
    requires
        v.is_listing(d, s),
    ensures
        v.listing(d) == s,
{
    let t = v.listing(d);
    assert(v.is_listing(d, t));
    let lt = |a: u32, b: u32| v.before(a, b);
    assert forall|x: u32| s.contains(x) <==> t.contains(x) by {
        assert(s.contains(x) <==> v.in_depot(d, x));
        assert(t.contains(x) <==> v.in_depot(d, x));
    }
    assert forall|i: int, j: int| 0 <= i < j < s.len() implies lt(
        #[trigger] s[i],
        #[trigger] s[j],
    ) by {
        assert(v.before(s[i], s[j]));
    }
    assert forall|i: int, j: int| 0 <= i < j < t.len() implies lt(
        #[trigger] t[i],
        #[trigger] t[j],
    ) by {
        assert(v.before(t[i], t[j]));
    }
    lemma_order_decides(lt, s, t);
}

/// What lists the depots is what `depot_list` names.
pub proof fn lemma_depot_list(v: IndexView, s: Seq<u32>)
    requires
        v.is_depot_list(s),
    ensures
        v.depot_list() == s,
{
    let t = v.depot_list();
    assert(v.is_depot_list(t));
    let lt = |a: u32, b: u32| a < b;
    assert forall|x: u32| s.contains(x) <==> t.contains(x) by {
        assert(s.contains(x) <==> v.has_depot(x));
        assert(t.contains(x) <==> v.has_depot(x));
    }
    lemma_order_decides(lt, s, t);
}

pub proof fn lemma_date_listing(v: IndexView, d: u32, s: Seq<u32>)
    requires
        v.is_date_listing(d, s),
    ensures
        v.date_listing(d) == s,
{
    let t = v.date_listing(d);
    assert(v.is_date_listing(d, t));
    let lt = |a: u32, b: u32| v.dated_before(a, b);
    assert forall|a: u32, b: u32| #[trigger] lt(a, b) implies !lt(b, a) by {
        sort::lemma_rank_swaps(
            sort::char_key(v.link_name(a)),
            sort::char_key(v.link_name(b)),
        );
    }
    assert forall|x: u32| s.contains(x) <==> t.contains(x) by {
        assert(s.contains(x) <==> v.in_depot(d, x));
        assert(t.contains(x) <==> v.in_depot(d, x));
    }
    assert forall|i: int, j: int| 0 <= i < j < s.len() implies lt(
        #[trigger] s[i],
        #[trigger] s[j],
    ) by {
        assert(v.dated_before(s[i], s[j]));
    }
    assert forall|i: int, j: int| 0 <= i < j < t.len() implies lt(
        #[trigger] t[i],
        #[trigger] t[j],
    ) by {
        assert(v.dated_before(t[i], t[j]));
    }
    lemma_order_decides(lt, s, t);
}

// ---- depots ---------------------------------------------------------------

pub open spec fn ids(v: Seq<BlobId>) -> Seq<u32> {
    v.map_values(|b: BlobId| b.0)
}

/// The blobs of one depot.
pub struct Depot {
    /// Sorted by (version, crc).
    pub blobs: Vec<BlobId>,
    pub naming: DepotNames,
}

/// What the blobs of a depot go by.
pub struct DepotNames {
    /// Parallel to the blobs: the version directory name (`12`, or
    /// `12-0050a99e` when several blobs share a version number) and the
    /// `by-date/` link name. Both are built once, at index time.
    names: Vec<(String, String)>,
    by_name: StringHashMap<BlobId>,
    by_date_link: StringHashMap<BlobId>,
    /// The blobs in `by-date/` listing order.
    date_order: Vec<BlobId>,
    index_of: HashMap<u32, usize>,
}

impl DepotNames {
    /// The version directory names.
    pub closed spec fn versions(&self) -> Seq<Seq<char>> {
        Seq::new(self.names@.len(), |k: int| self.names@[k].0@)
    }

    /// The link names.
    pub closed spec fn links(&self) -> Seq<Seq<char>> {
        Seq::new(self.names@.len(), |k: int| self.names@[k].1@)
    }

    /// The order that the links are listed in.
    pub closed spec fn by_date(&self) -> Seq<u32> {
        ids(self.date_order@)
    }
}

impl View for Depot {
    type V = DepotView;

    open spec fn view(&self) -> DepotView {
        DepotView {
            blobs: ids(self.blobs@),
            names: self.naming.versions(),
            links: self.naming.links(),
            date_order: self.naming.by_date(),
        }
    }
}

impl Depot {
    /// `by_name` holds what a search for `n` gives.
    spec fn name_kept(&self, n: Seq<char>) -> bool {
        match self@.named(n) {
            Some(b) => self.naming.by_name@.contains_key(n) && self.naming.by_name@[n] == b,
            None => !self.naming.by_name@.contains_key(n),
        }
    }

    /// `by_date_link` holds what a search for `n` gives.
    spec fn link_kept(&self, n: Seq<char>) -> bool {
        match self@.linked(n) {
            Some(b) => self.naming.by_date_link@.contains_key(n) && self.naming.by_date_link@[n] == b,
            None => !self.naming.by_date_link@.contains_key(n),
        }
    }

    /// `index_of` holds the place of `id`.
    spec fn place_kept(&self, id: u32) -> bool {
        match self@.place(id) {
            Some(k) => self.naming.index_of@.contains_key(id) && self.naming.index_of@[id] == k,
            None => !self.naming.index_of@.contains_key(id),
        }
    }

    /// The names are those of the blobs, and the maps hold what is listed.
    pub closed spec fn wf(&self) -> bool {
        &&& self.naming.names@.len() == self.blobs@.len()
        &&& forall|n: Seq<char>| #[trigger] self.name_kept(n)
        &&& forall|n: Seq<char>| #[trigger] self.link_kept(n)
        &&& forall|id: u32| #[trigger] self.place_kept(id)
    }

    /// Version directory names, oldest first.
    pub fn versions(&self) -> (r: Vec<(&str, BlobId)>)
        requires
            self.wf(),
        ensures
            r@.len() == self@.blobs.len(),
            forall|k: int|
                0 <= k < r@.len() ==> (#[trigger] r@[k]).0@ == self@.names[k] && r@[k].1 == BlobId(
                    self@.blobs[k],
                ),
    {
        let mut out: Vec<(&str, BlobId)> = Vec::new();
        let mut i: usize = 0;
        while i < self.naming.names.len()
            invariant
                i <= self.naming.names@.len(),
                self.naming.names@.len() == self.blobs@.len(),
                out@.len() == i,
                forall|k: int|
                    0 <= k < i ==> (#[trigger] out@[k]).0@ == self@.names[k] && out@[k].1 == BlobId(
                        self@.blobs[k],
                    ),
            decreases self.naming.names@.len() - i,
        {
            out.push((self.naming.names[i].0.as_str(), self.blobs[i]));
            i += 1;
        }
        out
    }

    /// `by-date/` link names, in listing order.
    pub fn date_links(&self) -> (r: Vec<(&str, BlobId)>)
        requires
            self.wf(),
        ensures
            r@.len() == self@.date_order.len(),
            forall|k: int|
                0 <= k < r@.len() ==> (#[trigger] r@[k]).1 == BlobId(self@.date_order[k])
                    && r@[k].0@ == (match self@.link_of(self@.date_order[k]) {
                    Some(link) => link,
                    None => ""@,
                }),
    {
        let mut out: Vec<(&str, BlobId)> = Vec::new();
        let mut i: usize = 0;
        while i < self.naming.date_order.len()
            invariant
                self.wf(),
                i <= self.naming.date_order@.len(),
                out@.len() == i,
                forall|k: int|
                    0 <= k < i ==> (#[trigger] out@[k]).1 == BlobId(self@.date_order[k])
                        && out@[k].0@ == (match self@.link_of(self@.date_order[k]) {
                        Some(link) => link,
                        None => ""@,
                    }),
            decreases self.naming.date_order@.len() - i,
        {
            let id = self.naming.date_order[i];
            let link = match self.date_link_of(id) {
                Some(link) => link,
                None => "",
            };
            out.push((link, id));
            i += 1;
        }
        out
    }

    pub fn lookup_name(&self, name: &str) -> (r: Option<BlobId>)
        requires
            self.wf(),
        ensures
            r == self@.named(name@),
    {
        assert(self.name_kept(name@));
        match self.naming.by_name.get(name) {
            Some(b) => Some(*b),
            None => None,
        }
    }

    pub fn lookup_date_link(&self, name: &str) -> (r: Option<BlobId>)
        requires
            self.wf(),
        ensures
            r == self@.linked(name@),
    {
        assert(self.link_kept(name@));
        match self.naming.by_date_link.get(name) {
            Some(b) => Some(*b),
            None => None,
        }
    }

    fn place(&self, id: BlobId) -> (r: Option<usize>)
        requires
            self.wf(),
        ensures
            match r {
                Some(k) => self@.place(id.0) == Some(k as int) && k < self.naming.names@.len(),
                None => self@.place(id.0) is None,
            },
    {
        proof {
            lemma_last_index(self@.blobs, id.0);
            assert(self.place_kept(id.0));
        }
        match self.naming.index_of.get(&id.0) {
            Some(k) => Some(*k),
            None => None,
        }
    }

    pub fn name_of(&self, id: BlobId) -> (r: Option<&str>)
        requires
            self.wf(),
        ensures
            match r {
                Some(n) => self@.name_of(id.0) == Some(n@),
                None => self@.name_of(id.0) is None,
            },
    {
        match self.place(id) {
            Some(k) => Some(self.naming.names[k].0.as_str()),
            None => None,
        }
    }

    pub fn date_link_of(&self, id: BlobId) -> (r: Option<&str>)
        requires
            self.wf(),
        ensures
            match r {
                Some(n) => self@.link_of(id.0) == Some(n@),
                None => self@.link_of(id.0) is None,
            },
    {
        match self.place(id) {
            Some(k) => Some(self.naming.names[k].1.as_str()),
            None => None,
        }
    }

    /// Index a depot's blobs, given in order.
    fn build(blobs: &Vec<BlobEntry>, list: Vec<u32>, Ghost(v): Ghost<IndexView>, d: u32) -> (r:
        Depot)
        requires
            blob_views(blobs@) == v.blobs,
            v.blobs.len() <= u32::MAX,
            v.is_listing(d, list@),
        ensures
            r.wf(),
            r@ == v.depot(d),
            v.is_listing(d, v.listing(d)),
            v.is_date_listing(d, v.date_listing(d)),
    {
        proof {
            lemma_listing(v, d, list@);
        }
        let names = build_names(blobs, &list, Ghost(v), d);
        let date_order = build_date_order(&list, &names, Ghost(v), d);
        let mut by_name: StringHashMap<BlobId> = StringHashMap::new();
        let mut by_date_link: StringHashMap<BlobId> = StringHashMap::new();
        let mut index_of: HashMap<u32, usize> = HashMap::new();
        let mut ids_out: Vec<BlobId> = Vec::new();
        let mut i: usize = 0;
        let ghost dv = v.depot(d);
        while i < list.len()
            invariant
                i <= list@.len(),
                dv == v.depot(d),
                list@ == v.listing(d),
                names@.len() == list@.len(),
                forall|k: int|
                    0 <= k < list@.len() ==> (#[trigger] names@[k]).0@ == v.version_name(list@[k])
                        && names@[k].1@ == v.link_name(list@[k]),
                v.is_listing(d, list@),
                ids_out@.len() == i,
                forall|k: int| 0 <= k < i ==> (#[trigger] ids_out@[k]).0 == list@[k],
                forall|n: Seq<char>|
                    #![trigger by_name@.contains_key(n)]
                    match last_index(dv.names.take(i as int), n) {
                        Some(k) => by_name@.contains_key(n) && by_name@[n] == BlobId(dv.blobs[k]),
                        None => !by_name@.contains_key(n),
                    },
                forall|n: Seq<char>|
                    #![trigger by_date_link@.contains_key(n)]
                    match last_index(dv.links.take(i as int), n) {
                        Some(k) => by_date_link@.contains_key(n) && by_date_link@[n] == BlobId(
                            dv.blobs[k],
                        ),
                        None => !by_date_link@.contains_key(n),
                    },
                forall|id: u32|
                    #![trigger index_of@.contains_key(id)]
                    match last_index(dv.blobs.take(i as int), id) {
                        Some(k) => index_of@.contains_key(id) && index_of@[id] == k,
                        None => !index_of@.contains_key(id),
                    },
            decreases list@.len() - i,
        {
            let id: u32 = list[i];
            proof {
                assert forall|n: Seq<char>| #[trigger] last_index(dv.names.take(i + 1), n) == if dv.names[i as int]
                    == n {
                    Some(i as int)
                } else {
                    last_index(dv.names.take(i as int), n)
                } by {
                    lemma_last_index_step(dv.names, i as int, n);
                }
                assert forall|n: Seq<char>| #[trigger] last_index(dv.links.take(i + 1), n) == if dv.links[i as int]
                    == n {
                    Some(i as int)
                } else {
                    last_index(dv.links.take(i as int), n)
                } by {
                    lemma_last_index_step(dv.links, i as int, n);
                }
                assert forall|n: u32| #[trigger] last_index(dv.blobs.take(i + 1), n) == if dv.blobs[i as int]
                    == n {
                    Some(i as int)
                } else {
                    last_index(dv.blobs.take(i as int), n)
                } by {
                    lemma_last_index_step(dv.blobs, i as int, n);
                }
            }
            by_name.insert(text::owned(names[i].0.as_str()), BlobId(id));
            by_date_link.insert(text::owned(names[i].1.as_str()), BlobId(id));
            index_of.insert(id, i);
            ids_out.push(BlobId(id));
            i += 1;
        }
        let naming = DepotNames { names, by_name, by_date_link, date_order, index_of };
        let r = Depot { blobs: ids_out, naming };
        proof {
            assert(r@.blobs =~= dv.blobs);
            assert(r@.names =~= dv.names);
            assert(r@.links =~= dv.links);
            assert(r@ == dv);
            assert(dv.names.take(i as int) =~= dv.names);
            assert(dv.links.take(i as int) =~= dv.links);
            assert(dv.blobs.take(i as int) =~= dv.blobs);
            assert forall|n: Seq<char>| #[trigger] r.name_kept(n) by {
                assert(by_name@.contains_key(n) == by_name@.contains_key(n));
            }
            assert forall|n: Seq<char>| #[trigger] r.link_kept(n) by {
                assert(by_date_link@.contains_key(n) == by_date_link@.contains_key(n));
            }
            assert forall|id: u32| #[trigger] r.place_kept(id) by {
                assert(index_of@.contains_key(id) == index_of@.contains_key(id));
            }
        }
        r
    }
}

/// Whether a neighbour in the listing has the same version.
fn shares(blobs: &Vec<BlobEntry>, list: &Vec<u32>, i: usize, Ghost(v): Ghost<IndexView>, d: u32)
    -> (r: bool)
    requires
        blob_views(blobs@) == v.blobs,
        v.is_listing(d, list@),
        i < list@.len(),
    ensures
        r == v.shares_version(list@[i as int]),
{
    let ghost s = list@;
    proof {
        assert forall|k: int| 0 <= k < s.len() implies v.in_depot(d, #[trigger] s[k]) by {
            assert(s.contains(s[k]));
        }
        assert forall|k: int| 0 <= k < s.len() implies (#[trigger] s[k]) < blobs@.len()
            && v.blobs[s[k] as int].version == blobs@[s[k] as int].version by {
            assert(v.in_depot(d, s[k]));
            assert(v.blobs[s[k] as int] == blobs@[s[k] as int]@);
        }
    }
    let own: u32 = blobs[list[i] as usize].version;
    let left = i > 0 && blobs[list[i - 1] as usize].version == own;
    let right = i < list.len() - 1 && blobs[list[i + 1] as usize].version == own;
    proof {
        if left {
            assert(v.before(s[i - 1], s[i as int]));
            assert(v.in_depot(d, s[i - 1]));
        }
        if right {
            assert(v.before(s[i as int], s[i + 1]));
            assert(v.in_depot(d, s[i + 1]));
        }
        if v.shares_version(s[i as int]) {
            let j = choose|j: u32|
                j != s[i as int] && #[trigger] v.in_depot(v.blobs[s[i as int] as int].depot, j)
                    && v.blobs[j as int].version == v.blobs[s[i as int] as int].version;
            assert(v.in_depot(d, s[i as int]));
            assert(v.in_depot(d, j));
            assert(s.contains(j));
            let p = choose|p: int| 0 <= p < s.len() && s[p] == j;
            if p < i {
                if p < i - 1 {
                    assert(v.before(s[p], s[i - 1]));
                }
                assert(v.before(s[i - 1], s[i as int]));
            } else {
                if p > i + 1 {
                    assert(v.before(s[i + 1], s[p]));
                }
                assert(v.before(s[i as int], s[i + 1]));
            }
        }
    }
    left || right
}

/// The version directory name and the link name of each blob of a listing.
fn build_names(blobs: &Vec<BlobEntry>, list: &Vec<u32>, Ghost(v): Ghost<IndexView>, d: u32) -> (r:
    Vec<(String, String)>)
    requires
        blob_views(blobs@) == v.blobs,
        v.is_listing(d, list@),
    ensures
        r@.len() == list@.len(),
        forall|k: int|
            0 <= k < list@.len() ==> (#[trigger] r@[k]).0@ == v.version_name(list@[k]) && r@[k].1@
                == v.link_name(list@[k]),
{
    let mut out: Vec<(String, String)> = Vec::new();
    let mut i: usize = 0;
    while i < list.len()
        invariant
            i <= list@.len(),
            blob_views(blobs@) == v.blobs,
            v.is_listing(d, list@),
            out@.len() == i,
            forall|k: int|
                0 <= k < i ==> (#[trigger] out@[k]).0@ == v.version_name(list@[k]) && out@[k].1@
                    == v.link_name(list@[k]),
        decreases list@.len() - i,
    {
        proof {
            assert(list@.contains(list@[i as int]));
            assert(v.in_depot(d, list@[i as int]));
            assert(v.blobs[list@[i as int] as int] == blobs@[list@[i as int] as int]@);
        }
        let e = &blobs[list[i] as usize];
        let mut name = String::new();
        text::push_dec(&mut name, e.version as u64);
        assert(name@ =~= text::dec(e.version as nat));
        if shares(blobs, list, i, Ghost(v), d) {
            text::push_text(&mut name, "-");
            text::push_hex8(&mut name, e.crc);
        }
        let mut link = match e.date {
            Some(d) => format_stamp(d.secs),
            None => text::owned("unknown"),
        };
        text::push_text(&mut link, "_v");
        text::push_text(&mut link, name.as_str());
        out.push((name, link));
        i += 1;
    }
    out
}

/// Places in a listing, keyed by link name.
struct ByLink {
    links: Vec<Vec<char>>,
}

impl Keyed for ByLink {
    closed spec fn has(&self, i: u32) -> bool {
        i < self.links@.len()
    }

    closed spec fn key(&self, i: u32) -> Seq<int> {
        sort::char_key(self.links@[i as int]@)
    }

    fn compare(&self, a: u32, b: u32) -> (r: Rank) {
        sort::compare_chars(
            self.links[a as usize].as_slice(),
            self.links[b as usize].as_slice(),
        )
    }
}

/// The blobs of a listing, by link name.
fn build_date_order(
    list: &Vec<u32>,
    names: &Vec<(String, String)>,
    Ghost(v): Ghost<IndexView>,
    d: u32,
) -> (r: Vec<BlobId>)
    requires
        v.is_listing(d, list@),
        list@.len() <= u32::MAX || v.blobs.len() <= u32::MAX,
        v.blobs.len() <= u32::MAX,
        names@.len() == list@.len(),
        forall|k: int|
            0 <= k < list@.len() ==> (#[trigger] names@[k]).1@ == v.link_name(list@[k]),
    ensures
        ids(r@) == v.date_listing(d),
        v.is_date_listing(d, v.date_listing(d)),
{
    proof {
        lemma_listing_short(v, d, list@);
    }
    let mut keys = ByLink { links: Vec::new() };
    let mut places: Vec<u32> = Vec::new();
    let mut i: usize = 0;
    while i < names.len()
        invariant
            i <= names@.len(),
            names@.len() == list@.len(),
            list@.len() <= u32::MAX,
            forall|k: int|
                0 <= k < list@.len() ==> (#[trigger] names@[k]).1@ == v.link_name(list@[k]),
            keys.links@.len() == i,
            places@.len() == i,
            forall|k: int| 0 <= k < i ==> places@[k] == k as u32,
            forall|k: int| 0 <= k < i ==> (#[trigger] keys.links@[k])@ == v.link_name(list@[k]),
        decreases names@.len() - i,
    {
        keys.links.push(text::chars_of(names[i].1.as_str()));
        places.push(i as u32);
        i += 1;
    }
    let order = sort::sorted(&keys, &places);
    let mut out: Vec<BlobId> = Vec::new();
    let mut j: usize = 0;
    proof {
        assert forall|k: int| 0 <= k < order@.len() implies (#[trigger] order@[k]) < list@.len() by {
            assert(order@.contains(order@[k]));
            let q = choose|q: int| 0 <= q < places@.len() && places@[q] == order@[k];
            assert(places@[q] == q as u32);
        }
    }
    while j < order.len()
        invariant
            j <= order@.len(),
            out@.len() == j,
            forall|k: int| 0 <= k < order@.len() ==> (#[trigger] order@[k]) < list@.len(),
            forall|k: int| 0 <= k < j ==> (#[trigger] out@[k]).0 == list@[order@[k] as int],
        decreases order@.len() - j,
    {
        out.push(BlobId(list[order[j] as usize]));
        j += 1;
    }
    proof {
        let s = ids(out@);
        assert forall|a: int, b: int| 0 <= a < b < s.len() implies v.dated_before(
            #[trigger] s[a],
            #[trigger] s[b],
        ) by {
            let p = order@[a];
            let q = order@[b];
            assert(sort::precedes(&keys, p, q));
            assert(keys.links@[p as int]@ == v.link_name(list@[p as int]));
            assert(keys.links@[q as int]@ == v.link_name(list@[q as int]));
            if p < q {
                assert(v.before(list@[p as int], list@[q as int]));
            }
        }
        assert forall|x: u32| s.contains(x) <==> #[trigger] v.in_depot(d, x) by {
            assert(list@.contains(x) <==> v.in_depot(d, x));
            if s.contains(x) {
                let a = choose|a: int| 0 <= a < s.len() && s[a] == x;
                assert(out@[a].0 == list@[order@[a] as int]);
                assert(list@.contains(x));
            }
            if list@.contains(x) {
                let p = choose|p: int| 0 <= p < list@.len() && list@[p] == x;
                assert(places@[p] == p as u32);
                assert(places@.contains(p as u32));
                assert(order@.contains(p as u32));
                let a = choose|a: int| 0 <= a < order@.len() && order@[a] == p as u32;
                assert(out@[a].0 == list@[order@[a] as int]);
                assert(s[a] == x);
            }
        }
        lemma_date_listing(v, d, s);
    }
    out
}

/// A listing is no longer than the list of blobs.
proof fn lemma_listing_short(v: IndexView, d: u32, s: Seq<u32>)
    requires
        v.is_listing(d, s),
    ensures
        s.len() <= v.blobs.len(),
{
    assert forall|i: int, j: int| 0 <= i < s.len() && 0 <= j < s.len() && i != j implies s[i]
        != s[j] by {
        if i < j {
            assert(v.before(s[i], s[j]));
        } else {
            assert(v.before(s[j], s[i]));
        }
    }
    assert(s.no_duplicates());
    s.unique_seq_to_set();
    let all = vstd::set_lib::set_int_range(0, v.blobs.len() as int);
    let t = s.map_values(|x: u32| x as int);
    assert(t.no_duplicates());
    t.unique_seq_to_set();
    assert(t.to_set().subset_of(all)) by {
        assert forall|x: int| t.to_set().contains(x) implies all.contains(x) by {
            let i = choose|i: int| 0 <= i < t.len() && t[i] == x;
            assert(s.contains(s[i]));
            assert(v.in_depot(d, s[i]));
        }
    }
    vstd::set_lib::lemma_int_range(0, v.blobs.len() as int);
    vstd::set_lib::lemma_len_subset(t.to_set(), all);
}

/// Blobs, keyed by depot, version and crc.
struct ByVersion<'a> {
    blobs: &'a Vec<BlobEntry>,
}

impl<'a> Keyed for ByVersion<'a> {
    closed spec fn has(&self, i: u32) -> bool {
        i < self.blobs@.len()
    }

    closed spec fn key(&self, i: u32) -> Seq<int> {
        let b = self.blobs@[i as int];
        seq![b.depot as int, b.version as int, b.crc as int]
    }

    fn compare(&self, a: u32, b: u32) -> (r: Rank) {
        let x = &self.blobs[a as usize];
        let y = &self.blobs[b as usize];
        proof {
            lemma_rank_three(self.key(a), self.key(b));
        }
        if x.depot != y.depot {
            if x.depot < y.depot {
                Rank::Less
            } else {
                Rank::Greater
            }
        } else if x.version != y.version {
            if x.version < y.version {
                Rank::Less
            } else {
                Rank::Greater
            }
        } else if x.crc != y.crc {
            if x.crc < y.crc {
                Rank::Less
            } else {
                Rank::Greater
            }
        } else {
            Rank::Same
        }
    }
}

proof fn lemma_rank_three(a: Seq<int>, b: Seq<int>)
    requires
        a.len() == 3,
        b.len() == 3,
    ensures
        sort::rank(a, b) == if a[0] != b[0] {
            if a[0] < b[0] {
                Rank::Less
            } else {
                Rank::Greater
            }
        } else if a[1] != b[1] {
            if a[1] < b[1] {
                Rank::Less
            } else {
                Rank::Greater
            }
        } else if a[2] != b[2] {
            if a[2] < b[2] {
                Rank::Less
            } else {
                Rank::Greater
            }
        } else {
            Rank::Same
        },
{
    reveal_with_fuel(sort::rank, 4);
}

/// `depots` holds a depot's blobs, under its number.
spec fn depot_kept(depots: Seq<(u32, Depot)>, d: u32) -> bool {
    exists|k: int| 0 <= k < depots.len() && (#[trigger] depots[k]).0 == d
}

/// `depots` holds the depots of `v`, by number.
spec fn depots_kept(depots: Seq<(u32, Depot)>, v: IndexView) -> bool {
    &&& forall|i: int, j: int|
        0 <= i < j < depots.len() ==> (#[trigger] depots[i]).0 < (#[trigger] depots[j]).0
    &&& forall|k: int|
        0 <= k < depots.len() ==> (#[trigger] depots[k]).1.wf() && depots[k].1@ == v.depot(
            depots[k].0,
        ) && v.has_depot(depots[k].0) && v.is_listing(depots[k].0, v.listing(depots[k].0))
            && v.is_date_listing(depots[k].0, v.date_listing(depots[k].0))
    &&& forall|d: u32| #[trigger] v.has_depot(d) ==> depot_kept(depots, d)
}

/// All blob numbers, by depot, version and crc.
fn order_blobs(blobs: &Vec<BlobEntry>, Ghost(v): Ghost<IndexView>) -> (order: Vec<u32>)
    requires
        blob_views(blobs@) == v.blobs,
        v.blobs.len() <= u32::MAX,
    ensures
        forall|i: u32| order@.contains(i) <==> i < v.blobs.len(),
        forall|i: int, j: int|
            0 <= i < j < order@.len() ==> in_depot_order(v, #[trigger] order@[i], #[trigger] order@[j]),
{
    let mut all: Vec<u32> = Vec::new();
    let mut i: usize = 0;
    while i < blobs.len()
        invariant
            i <= blobs@.len() <= u32::MAX,
            all@.len() == i,
            forall|k: int| 0 <= k < i ==> all@[k] == k as u32,
        decreases blobs@.len() - i,
    {
        all.push(i as u32);
        i += 1;
    }
    let keys = ByVersion { blobs };
    let order = sort::sorted(&keys, &all);
    proof {
        assert forall|x: u32| order@.contains(x) <==> x < v.blobs.len() by {
            if x < v.blobs.len() {
                assert(all@[x as int] == x);
                assert(all@.contains(x));
            }
        }
        assert forall|a: int, b: int| 0 <= a < b < order@.len() implies in_depot_order(
            v,
            #[trigger] order@[a],
            #[trigger] order@[b],
        ) by {
            let x = order@[a];
            let y = order@[b];
            assert(sort::precedes(&keys, x, y));
            assert(order@.contains(x));
            assert(order@.contains(y));
            assert(v.blobs[x as int] == blobs@[x as int]@);
            assert(v.blobs[y as int] == blobs@[y as int]@);
            lemma_rank_three(keys.key(x), keys.key(y));
        }
    }
    order
}

/// By depot, and within one as the blobs are listed.
spec fn in_depot_order(v: IndexView, a: u32, b: u32) -> bool {
    let x = v.blobs[a as int].depot;
    let y = v.blobs[b as int].depot;
    x < y || (x == y && v.before(a, b))
}

/// The blobs of the same depot as the one at `lo`.
fn take_group(blobs: &Vec<BlobEntry>, order: &Vec<u32>, lo: usize, Ghost(v): Ghost<IndexView>) -> (r:
    Vec<u32>)
    requires
        blob_views(blobs@) == v.blobs,
        lo < order@.len(),
        forall|k: int| 0 <= k < order@.len() ==> (#[trigger] order@[k]) < v.blobs.len(),
    ensures
        0 < r@.len() <= order@.len() - lo,
        r@ == order@.subrange(lo as int, lo + r@.len()),
        forall|k: int|
            lo <= k < lo + r@.len() ==> v.blobs[#[trigger] order@[k] as int].depot
                == v.blobs[order@[lo as int] as int].depot,
        lo + r@.len() < order@.len() ==> v.blobs[order@[lo + r@.len()] as int].depot
            != v.blobs[order@[lo as int] as int].depot,
{
    let first = order[lo];
    assert(v.blobs[first as int] == blobs@[first as int]@);
    let d: u32 = blobs[first as usize].depot;
    let mut out: Vec<u32> = Vec::new();
    let mut hi: usize = lo;
    assert(out@ =~= order@.subrange(lo as int, lo as int));
    while hi < order.len() && blobs[order[hi] as usize].depot == d
        invariant
            blob_views(blobs@) == v.blobs,
            lo <= hi <= order@.len(),
            forall|k: int| 0 <= k < order@.len() ==> (#[trigger] order@[k]) < v.blobs.len(),
            out@.len() == hi - lo,
            out@ == order@.subrange(lo as int, hi as int),
            forall|k: int| lo <= k < hi ==> v.blobs[#[trigger] order@[k] as int].depot == d,
        decreases order@.len() - hi,
    {
        assert(v.blobs[order@[hi as int] as int] == blobs@[order@[hi as int] as int]@);
        out.push(order[hi]);
        assert(out@ =~= order@.subrange(lo as int, hi + 1));
        hi += 1;
    }
    proof {
        if hi < order@.len() {
            assert(v.blobs[order@[hi as int] as int] == blobs@[order@[hi as int] as int]@);
        }
        if out@.len() == 0 {
            assert(hi == lo);
        }
    }
    out
}

proof fn lemma_group_is_listing(v: IndexView, order: Seq<u32>, lo: int, hi: int)
    requires
        0 <= lo < hi <= order.len(),
        forall|i: u32| order.contains(i) <==> i < v.blobs.len(),
        forall|i: int, j: int|
            0 <= i < j < order.len() ==> in_depot_order(v, #[trigger] order[i], #[trigger] order[j]),
        forall|k: int|
            lo <= k < hi ==> v.blobs[#[trigger] order[k] as int].depot
                == v.blobs[order[lo] as int].depot,
        hi < order.len() ==> v.blobs[order[hi] as int].depot != v.blobs[order[lo] as int].depot,
        lo > 0 ==> v.blobs[order[lo - 1] as int].depot != v.blobs[order[lo] as int].depot,
    ensures
        v.is_listing(v.blobs[order[lo] as int].depot, order.subrange(lo, hi)),
{
    let d = v.blobs[order[lo] as int].depot;
    let s = order.subrange(lo, hi);
    assert forall|i: int, j: int| 0 <= i < j < s.len() implies v.before(
        #[trigger] s[i],
        #[trigger] s[j],
    ) by {
        assert(in_depot_order(v, order[lo + i], order[lo + j]));
    }
    assert forall|x: u32| s.contains(x) <==> #[trigger] v.in_depot(d, x) by {
        if s.contains(x) {
            let i = choose|i: int| 0 <= i < s.len() && s[i] == x;
            assert(order[lo + i] == x);
            assert(order.contains(x));
        }
        if v.in_depot(d, x) {
            assert(order.contains(x));
            let p = choose|p: int| 0 <= p < order.len() && order[p] == x;
            if p < lo {
                assert(in_depot_order(v, order[lo - 1], order[lo]));
                if p < lo - 1 {
                    assert(in_depot_order(v, order[p], order[lo - 1]));
                }
            } else if p >= hi {
                assert(in_depot_order(v, order[lo], order[hi]));
                if p > hi {
                    assert(in_depot_order(v, order[hi], order[p]));
                }
            } else {
                assert(s[p - lo] == x);
            }
        }
    }
}

/// The depots, by number.
fn build_depots(blobs: &Vec<BlobEntry>, Ghost(v): Ghost<IndexView>) -> (r: Vec<(u32, Depot)>)
    requires
        blob_views(blobs@) == v.blobs,
        v.blobs.len() <= u32::MAX,
    ensures
        depots_kept(r@, v),
{
    let order = order_blobs(blobs, Ghost(v));
    let mut out: Vec<(u32, Depot)> = Vec::new();
    let mut lo: usize = 0;
    proof {
        assert forall|k: int| 0 <= k < order@.len() implies (#[trigger] order@[k])
            < v.blobs.len() by {
            assert(order@.contains(order@[k]));
        }
    }
    while lo < order.len()
        invariant
            lo <= order@.len(),
            blob_views(blobs@) == v.blobs,
            v.blobs.len() <= u32::MAX,
            forall|k: int| 0 <= k < order@.len() ==> (#[trigger] order@[k]) < v.blobs.len(),
            forall|i: u32| order@.contains(i) <==> i < v.blobs.len(),
            forall|i: int, j: int|
                0 <= i < j < order@.len() ==> in_depot_order(
                    v,
                    #[trigger] order@[i],
                    #[trigger] order@[j],
                ),
            0 < lo < order@.len() ==> v.blobs[order@[lo - 1] as int].depot
                != v.blobs[order@[lo as int] as int].depot,
            forall|i: int, j: int|
                0 <= i < j < out@.len() ==> (#[trigger] out@[i]).0 < (#[trigger] out@[j]).0,
            forall|k: int|
                0 <= k < out@.len() ==> (#[trigger] out@[k]).1.wf() && out@[k].1@ == v.depot(
                    out@[k].0,
                ) && v.has_depot(out@[k].0) && v.is_listing(out@[k].0, v.listing(out@[k].0))
                    && v.is_date_listing(out@[k].0, v.date_listing(out@[k].0)),
            lo > 0 ==> out@.len() > 0,
            forall|k: int|
                0 <= k < out@.len() ==> lo > 0 && (#[trigger] out@[k]).0
                    <= v.blobs[order@[lo - 1] as int].depot,
            forall|p: int|
                0 <= p < lo ==> depot_kept(out@, v.blobs[#[trigger] order@[p] as int].depot),
        decreases order@.len() - lo,
    {
        let group = take_group(blobs, &order, lo, Ghost(v));
        let ghost hi = lo + group@.len();
        let first = order[lo];
        assert(v.blobs[first as int] == blobs@[first as int]@);
        let d: u32 = blobs[first as usize].depot;
        proof {
            lemma_group_is_listing(v, order@, lo as int, hi);
            assert(v.in_depot(d, first));
            if lo > 0 {
                assert(in_depot_order(v, order@[lo - 1], order@[lo as int]));
            }
        }
        let n: usize = group.len();
        let depot = Depot::build(blobs, group, Ghost(v), d);
        let ghost before = out@;
        out.push((d, depot));
        proof {
            assert forall|p: int| 0 <= p < hi implies depot_kept(
                out@,
                v.blobs[#[trigger] order@[p] as int].depot,
            ) by {
                if p < lo {
                    let k = choose|k: int|
                        0 <= k < before.len() && (#[trigger] before[k]).0
                            == v.blobs[order@[p] as int].depot;
                    assert(out@[k].0 == v.blobs[order@[p] as int].depot);
                } else {
                    assert(out@[before.len() as int].0 == d);
                }
            }
        }
        lo = lo + n;
    }
    proof {
        assert forall|d: u32| #[trigger] v.has_depot(d) implies depot_kept(out@, d) by {
            let i = choose|i: u32| v.in_depot(d, i);
            assert(order@.contains(i));
            let p = choose|p: int| 0 <= p < order@.len() && order@[p] == i;
            assert(depot_kept(out@, v.blobs[order@[p] as int].depot));
        }
    }
    out
}

// ---- keys -----------------------------------------------------------------

/// A depot, version and crc in one number.
pub open spec fn packed(key: (u32, u32, u32)) -> int {
    key.0 * 0x1_0000_0000_0000_0000 + key.1 * 0x1_0000_0000 + key.2
}

proof fn lemma_packed_apart(a: (u32, u32, u32), b: (u32, u32, u32))
    ensures
        packed(a) == packed(b) ==> a == b,
        0 <= packed(a) <= u128::MAX,
{
}

fn pack(depot: u32, version: u32, crc: u32) -> (r: u128)
    ensures
        r == packed((depot, version, crc)),
{
    depot as u128 * 0x1_0000_0000_0000_0000 + version as u128 * 0x1_0000_0000 + crc as u128
}

/// `m` holds `found` under a key.
spec fn key_kept(m: Map<u128, u32>, key: (u32, u32, u32), found: Option<int>) -> bool {
    let k = packed(key) as u128;
    match found {
        Some(i) => m.contains_key(k) && m[k] == i,
        None => !m.contains_key(k),
    }
}

fn build_blob_keys(blobs: &Vec<BlobEntry>, Ghost(v): Ghost<IndexView>) -> (m: HashMap<u128, u32>)
    requires
        blob_views(blobs@) == v.blobs,
        v.blobs.len() <= u32::MAX,
    ensures
        forall|key: (u32, u32, u32)|
            #[trigger] key_kept(m@, key, last_index(v.blob_keys(), key)),
{
    let mut m: HashMap<u128, u32> = HashMap::new();
    let mut i: usize = 0;
    let ghost keys = v.blob_keys();
    assert(keys.take(0) =~= Seq::<(u32, u32, u32)>::empty());
    while i < blobs.len()
        invariant
            i <= blobs@.len() <= u32::MAX,
            blob_views(blobs@) == v.blobs,
            keys == v.blob_keys(),
            forall|key: (u32, u32, u32)|
                #[trigger] key_kept(m@, key, last_index(keys.take(i as int), key)),
        decreases blobs@.len() - i,
    {
        let b = &blobs[i];
        let ghost own = (b.depot, b.version, b.crc);
        let ghost before = m@;
        proof {
            assert(v.blobs[i as int] == blobs@[i as int]@);
            assert(keys[i as int] == own);
        }
        m.insert(pack(b.depot, b.version, b.crc), i as u32);
        proof {
            assert forall|key: (u32, u32, u32)| #[trigger]
                key_kept(m@, key, last_index(keys.take(i + 1), key)) by {
                lemma_last_index_step(keys, i as int, key);
                lemma_packed_apart(key, own);
                lemma_packed_apart(own, key);
                assert(key_kept(before, key, last_index(keys.take(i as int), key)));
            }
        }
        i += 1;
    }
    assert(keys.take(i as int) =~= keys);
    m
}

/// One dat more replaces what was found unless that is complete.
proof fn lemma_dat_step(dats: Seq<DatView>, i: int, key: (u32, u32, u32))
    requires
        0 <= i < dats.len(),
    ensures
        dat_with(dats.take(i + 1), key) == if dat_key(dats[i]) == key {
            match dat_with(dats.take(i), key) {
                Some(p) => if dats[p].incomplete {
                    Some(i)
                } else {
                    Some(p)
                },
                None => Some(i),
            }
        } else {
            dat_with(dats.take(i), key)
        },
        dat_with(dats.take(i), key) matches Some(p) ==> 0 <= p < i,
{
    let a = dats.take(i);
    let b = dats.take(i + 1);
    assert(b.drop_last() =~= a);
    assert(dat_keys(b).drop_last() =~= dat_keys(a));
    assert(dat_keys(b).last() == dat_key(dats[i]));
    lemma_first_whole(a, key);
    lemma_last_index(dat_keys(a), key);
    match dat_with(a, key) {
        Some(p) => {
            assert(a[p] == dats[p]);
            assert(dat_key(a[p]) == key);
        },
        None => {},
    }
}

fn build_dat_keys(dats: &Vec<DatEntry>, Ghost(v): Ghost<IndexView>) -> (m: HashMap<u128, u32>)
    requires
        dat_views(dats@) == v.dats,
        v.dats.len() <= u32::MAX,
    ensures
        forall|key: (u32, u32, u32)| #[trigger] key_kept(m@, key, dat_with(v.dats, key)),
{
    let mut m: HashMap<u128, u32> = HashMap::new();
    let mut i: usize = 0;
    let ghost all = v.dats;
    assert(all.take(0) =~= Seq::<DatView>::empty());
    assert(dat_keys(all.take(0)) =~= Seq::<(u32, u32, u32)>::empty());
    while i < dats.len()
        invariant
            i <= dats@.len() <= u32::MAX,
            dat_views(dats@) == v.dats,
            all == v.dats,
            forall|key: (u32, u32, u32)|
                #[trigger] key_kept(m@, key, dat_with(all.take(i as int), key)),
        decreases dats@.len() - i,
    {
        let d = &dats[i];
        let key = pack(d.depot, d.version, d.crc);
        let ghost own = (d.depot, d.version, d.crc);
        let ghost before = m@;
        proof {
            assert(all[i as int] == dats@[i as int]@);
            lemma_dat_step(all, i as int, own);
            lemma_packed_apart(own, own);
            assert(key_kept(before, own, dat_with(all.take(i as int), own)));
        }
        // Prefer a complete file over an in-progress one with the same
        // identity.
        let keep = match m.get(&key) {
            Some(prev) => {
                assert(all[*prev as int] == dats@[*prev as int]@);
                !dats[*prev as usize].incomplete
            },
            None => false,
        };
        if !keep {
            m.insert(key, i as u32);
        }
        proof {
            assert forall|k: (u32, u32, u32)| #[trigger]
                key_kept(m@, k, dat_with(all.take(i + 1), k)) by {
                lemma_dat_step(all, i as int, k);
                lemma_packed_apart(k, own);
                lemma_packed_apart(own, k);
                assert(key_kept(before, k, dat_with(all.take(i as int), k)));
            }
        }
        i += 1;
    }
    assert(all.take(i as int) =~= all);
    m
}

// ---- the index ------------------------------------------------------------

/// Everything that the names of a dump's files say.
pub struct Index {
    pub blobs: Vec<BlobEntry>,
    pub dats: Vec<DatEntry>,
    pub tables: Tables,
}

/// What the blobs and dats of an index are found by.
pub struct Tables {
    /// By depot number.
    depots: Vec<(u32, Depot)>,
    blob_by_key: HashMap<u128, u32>,
    dat_by_key: HashMap<u128, u32>,
}

impl View for Index {
    type V = IndexView;

    open spec fn view(&self) -> IndexView {
        IndexView { blobs: blob_views(self.blobs@), dats: dat_views(self.dats@) }
    }
}

/// The index of a dump, from its date list and its listings.
pub open spec fn index_of(
    date_list: Option<Seq<u8>>,
    blobs: Seq<DirView>,
    dats: Seq<DirView>,
) -> IndexView {
    let dates = match date_list {
        Some(bytes) => dates_of(bytes),
        None => Map::empty(),
    };
    IndexView { blobs: blobs_of(blobs, dates), dats: dats_of(dats) }
}

/// Why blobs and dats that were read cannot be indexed, if they cannot: there
/// are more than can be numbered.
pub open spec fn overflow_of(v: IndexView) -> Option<TroubleView> {
    if v.blobs.len() > u32::MAX {
        Some(TroubleView::plain("too many blobs in blobs/"@))
    } else if v.dats.len() > u32::MAX {
        Some(TroubleView::plain("too many dats in dats/"@))
    } else {
        None
    }
}

/// What a backend answered for the date list, as far as it counts.
pub open spec fn date_reply(r: ReplyView<Seq<u8>>) -> Option<Seq<u8>> {
    match r {
        Ok(bytes) => Some(bytes),
        Err(_) => None,
    }
}

impl Index {
    /// The tables say what the entries say.
    pub closed spec fn wf(&self) -> bool {
        &&& self.blobs@.len() <= u32::MAX
        &&& self.dats@.len() <= u32::MAX
        &&& depots_kept(self.tables.depots@, self@)
        &&& forall|key: (u32, u32, u32)|
            #[trigger] key_kept(self.tables.blob_by_key@, key, last_index(self@.blob_keys(), key))
        &&& forall|key: (u32, u32, u32)|
            #[trigger] key_kept(self.tables.dat_by_key@, key, dat_with(self@.dats, key))
    }

    /// The listings of a depot list its blobs.
    pub proof fn lemma_listings(&self, d: u32)
        requires
            self.wf(),
            self@.has_depot(d),
        ensures
            self@.is_listing(d, self@.listing(d)),
            self@.is_date_listing(d, self@.date_listing(d)),
    {
        assert(depot_kept(self.tables.depots@, d));
    }

    /// The numbers of the depots can be listed in order.
    pub proof fn lemma_depot_numbers(&self)
        requires
            self.wf(),
        ensures
            self@.is_depot_list(self@.depot_list()),
    {
        let s = self.tables.depots@.map_values(|d: (u32, Depot)| d.0);
        assert forall|d: u32| s.contains(d) <==> #[trigger] self@.has_depot(d) by {
            if s.contains(d) {
                let k = choose|k: int| 0 <= k < s.len() && s[k] == d;
                assert(self.tables.depots@[k].0 == d);
            }
            if self@.has_depot(d) {
                assert(depot_kept(self.tables.depots@, d));
                let k = choose|k: int|
                    0 <= k < self.tables.depots@.len() && (#[trigger] self.tables.depots@[k]).0 == d;
                assert(s[k] == d);
            }
        }
        assert(self@.is_depot_list(s));
    }

    /// Blobs and dats can be numbered.
    pub proof fn lemma_sizes(&self)
        requires
            self.wf(),
        ensures
            self@.blobs.len() <= u32::MAX,
            self@.dats.len() <= u32::MAX,
    {
    }

    /// The blobs of a depot with a version are blobs of the depot.
    pub proof fn lemma_with_version(&self, depot: u32, version: u32)
        requires
            self.wf(),
        ensures
            forall|k: int|
                0 <= k < self@.with_version(depot, version).len() ==> self@.in_depot(
                    depot,
                    #[trigger] self@.with_version(depot, version)[k],
                ),
    {
        if self@.has_depot(depot) {
            self.lemma_listings(depot);
            let s = self@.listing(depot);
            assert forall|k: int| 0 <= k < s.len() implies self@.in_depot(
                depot,
                #[trigger] s[k],
            ) by {
                assert(s.contains(s[k]));
            }
            lemma_of_version(self@, s, depot, version);
        }
    }

    /// Index some blobs and dats.
    pub fn from_entries(blobs: Vec<BlobEntry>, dats: Vec<DatEntry>) -> (r: Index)
        requires
            blobs@.len() <= u32::MAX,
            dats@.len() <= u32::MAX,
        ensures
            r.wf(),
            r@ == (IndexView { blobs: blob_views(blobs@), dats: dat_views(dats@) }),
    {
        let ghost v = IndexView { blobs: blob_views(blobs@), dats: dat_views(dats@) };
        let depots = build_depots(&blobs, Ghost(v));
        let blob_by_key = build_blob_keys(&blobs, Ghost(v));
        let dat_by_key = build_dat_keys(&dats, Ghost(v));
        Index { blobs, dats, tables: Tables { depots, blob_by_key, dat_by_key } }
    }

    /// Index a dump, given its date list and the listings of `blobs/` and
    /// `dats/`. Entries that are neither blobs nor dats do not count.
    pub fn build(
        date_list: Option<Vec<u8>>,
        blob_entries: &Vec<DirEntry>,
        dat_entries: &Vec<DirEntry>,
    ) -> (r: Reply<Index>)
        ensures
            ({
                let v = index_of(
                    match date_list {
                        Some(bytes) => Some(bytes@),
                        None => None,
                    },
                    backend::dir_views(blob_entries@),
                    backend::dir_views(dat_entries@),
                );
                match r {
                    Ok(idx) => overflow_of(v) is None && idx.wf() && idx@ == v,
                    Err(e) => overflow_of(v) == Some(e@),
                }
            }),
    {
        let dates = match date_list {
            Some(bytes) => {
                let content = text::from_utf8_lossy(bytes.as_slice());
                read_dates(content.as_str())
            },
            None => StringHashMap::new(),
        };
        let blobs = read_blobs(blob_entries, &dates);
        let dats = read_dats(dat_entries);
        assert(blob_views(blobs@).len() == blobs@.len());
        assert(dat_views(dats@).len() == dats@.len());
        if blobs.len() as u64 > u32::MAX as u64 {
            return Err(Trouble::plain("too many blobs in blobs/"));
        }
        if dats.len() as u64 > u32::MAX as u64 {
            return Err(Trouble::plain("too many dats in dats/"));
        }
        Ok(Index::from_entries(blobs, dats))
    }

    /// Index the dump that a backend serves. Without a date list the versions
    /// have no dates; without a listing of `blobs/` or `dats/` there is no
    /// index, nor where there are more blobs or dats than can be numbered.
    pub fn load<B: Backend>(backend: &B) -> (r: Reply<Index>)
        ensures
            match r {
                Ok(idx) => idx.wf() && exists|
                    dates: ReplyView<Seq<u8>>,
                    blobs: Seq<DirView>,
                    dats: Seq<DirView>,
                |
                    {
                        &&& backend.may_read_all("blobs_dates.txt"@, dates)
                        &&& #[trigger] backend.may_list("blobs"@, Ok(blobs))
                        &&& #[trigger] backend.may_list("dats"@, Ok(dats))
                        &&& idx@ == #[trigger] index_of(date_reply(dates), blobs, dats)
                    },
                Err(e) => {
                    ||| exists|m: TroubleView| #[trigger]
                        backend.may_list("blobs"@, Err(m)) && e@ == TroubleView::from_cause(
                            "listing blobs/"@,
                            m.whole,
                        )
                    ||| exists|m: TroubleView| #[trigger]
                        backend.may_list("dats"@, Err(m)) && e@ == TroubleView::from_cause(
                            "listing dats/"@,
                            m.whole,
                        )
                    ||| exists|
                        dates: ReplyView<Seq<u8>>,
                        blobs: Seq<DirView>,
                        dats: Seq<DirView>,
                    |
                        {
                            &&& backend.may_read_all("blobs_dates.txt"@, dates)
                            &&& #[trigger] backend.may_list("blobs"@, Ok(blobs))
                            &&& #[trigger] backend.may_list("dats"@, Ok(dats))
                            &&& overflow_of(#[trigger] index_of(date_reply(dates), blobs, dats))
                                == Some(e@)
                        }
                },
            },
    {
        let listed = backend.read_all("blobs_dates.txt");
        let ghost dates = backend::bytes_view(listed);
        let date_list = match listed {
            Ok(bytes) => Some(bytes),
            Err(_) => None,
        };
        let blob_entries = match backend.list_dir("blobs") {
            Ok(v) => v,
            Err(m) => {
                assert(backend.may_list("blobs"@, Err(m@)));
                return Err(Trouble::from_cause("listing blobs/", m.whole.as_str()));
            },
        };
        let ghost blobs = backend::dir_views(blob_entries@);
        assert(backend.may_list("blobs"@, Ok(blobs)));
        let dat_entries = match backend.list_dir("dats") {
            Ok(v) => v,
            Err(m) => {
                assert(backend.may_list("dats"@, Err(m@)));
                return Err(Trouble::from_cause("listing dats/", m.whole.as_str()));
            },
        };
        let ghost dats = backend::dir_views(dat_entries@);
        assert(backend.may_list("dats"@, Ok(dats)));
        let ghost v = index_of(date_reply(dates), blobs, dats);
        let r = Index::build(date_list, &blob_entries, &dat_entries);
        assert(match r {
            Ok(idx) => idx@ == v,
            Err(e) => overflow_of(v) == Some(e@),
        });
        r
    }

    /// How many blobs there are.
    pub fn blob_count(&self) -> (r: u64)
        ensures
            r == self@.blobs.len(),
    {
        self.blobs.len() as u64
    }

    pub fn blob(&self, id: BlobId) -> (r: &BlobEntry)
        requires
            self@.has_blob(id),
        ensures
            r@ == self@.blob(id),
    {
        &self.blobs[id.0 as usize]
    }

    pub fn dat(&self, id: DatId) -> (r: &DatEntry)
        requires
            self@.has_dat(id),
        ensures
            r@ == self@.dat(id),
    {
        &self.dats[id.0 as usize]
    }

    /// The depots, by number.
    pub fn depots(&self) -> (r: &Vec<(u32, Depot)>)
        requires
            self.wf(),
        ensures
            forall|i: int, j: int|
                0 <= i < j < r@.len() ==> (#[trigger] r@[i]).0 < (#[trigger] r@[j]).0,
            forall|k: int|
                0 <= k < r@.len() ==> (#[trigger] r@[k]).1.wf() && r@[k].1@ == self@.depot(r@[k].0)
                    && self@.has_depot(r@[k].0),
            forall|d: u32| #[trigger]
                self@.has_depot(d) ==> exists|k: int|
                    0 <= k < r@.len() && (#[trigger] r@[k]).0 == d,
    {
        proof {
            assert forall|d: u32| #[trigger] self@.has_depot(d) implies exists|k: int|
                0 <= k < self.tables.depots@.len() && (#[trigger] self.tables.depots@[k]).0 == d by {
                assert(depot_kept(self.tables.depots@, d));
            }
        }
        &self.tables.depots
    }

    pub fn depot(&self, depot: u32) -> (r: Option<&Depot>)
        requires
            self.wf(),
        ensures
            match r {
                Some(d) => self@.has_depot(depot) && d.wf() && d@ == self@.depot(depot),
                None => !self@.has_depot(depot),
            },
    {
        let mut lo: usize = 0;
        let mut hi: usize = self.tables.depots.len();
        while lo < hi
            invariant
                self.wf(),
                lo <= hi <= self.tables.depots@.len(),
                forall|k: int| 0 <= k < lo ==> (#[trigger] self.tables.depots@[k]).0 < depot,
                forall|k: int|
                    hi <= k < self.tables.depots@.len() ==> (#[trigger] self.tables.depots@[k]).0 > depot,
            decreases hi - lo,
        {
            let mid: usize = lo + (hi - lo) / 2;
            let at: u32 = self.tables.depots[mid].0;
            if at == depot {
                return Some(&self.tables.depots[mid].1);
            }
            if at < depot {
                lo = mid + 1;
            } else {
                hi = mid;
            }
        }
        proof {
            if self@.has_depot(depot) {
                assert(depot_kept(self.tables.depots@, depot));
            }
        }
        None
    }

    pub fn find_blob(&self, depot: u32, version: u32, crc: u32) -> (r: Option<BlobId>)
        requires
            self.wf(),
        ensures
            r == self@.find_blob(depot, version, crc),
            r matches Some(id) ==> self@.has_blob(id),
    {
        proof {
            let key = (depot, version, crc);
            assert(key_kept(self.tables.blob_by_key@, key, last_index(self@.blob_keys(), key)));
            lemma_packed_apart(key, key);
            lemma_last_index(self@.blob_keys(), key);
        }
        match self.tables.blob_by_key.get(&pack(depot, version, crc)) {
            Some(i) => Some(BlobId(*i)),
            None => None,
        }
    }

    pub fn find_dat(&self, depot: u32, version: u32, crc: u32) -> (r: Option<DatId>)
        requires
            self.wf(),
        ensures
            r == self@.find_dat(depot, version, crc),
            r matches Some(id) ==> self@.has_dat(id),
    {
        proof {
            let key = (depot, version, crc);
            assert(key_kept(self.tables.dat_by_key@, key, dat_with(self@.dats, key)));
            lemma_packed_apart(key, key);
            lemma_first_whole(self@.dats, key);
            lemma_last_index(dat_keys(self@.dats), key);
        }
        match self.tables.dat_by_key.get(&pack(depot, version, crc)) {
            Some(i) => Some(DatId(*i)),
            None => None,
        }
    }

    /// All blobs of a depot with the given version number.
    pub fn blobs_with_version(&self, depot: u32, version: u32) -> (r: Vec<BlobId>)
        requires
            self.wf(),
        ensures
            ids(r@) == self@.with_version(depot, version),
    {
        let mut out: Vec<BlobId> = Vec::new();
        let ghost v = self@;
        match self.depot(depot) {
            None => {
                assert(ids(out@) =~= Seq::<u32>::empty());
            },
            Some(d) => {
                let ghost s = v.listing(depot);
                proof {
                    self.lemma_listings(depot);
                    assert(s.take(0) =~= Seq::<u32>::empty());
                    assert(ids(out@) =~= Seq::<u32>::empty());
                }
                let mut i: usize = 0;
                while i < d.blobs.len()
                    invariant
                        v == self@,
                        s == v.listing(depot),
                        ids(d.blobs@) == s,
                        v.is_listing(depot, s),
                        i <= d.blobs@.len(),
                        ids(out@) == v.of_version(s.take(i as int), version),
                    decreases d.blobs@.len() - i,
                {
                    let b = d.blobs[i];
                    proof {
                        assert(s[i as int] == b.0);
                        assert(s.contains(s[i as int]));
                        assert(v.in_depot(depot, b.0));
                        assert(s.take(i + 1).drop_last() =~= s.take(i as int));
                        assert(s.take(i + 1).last() == b.0);
                    }
                    if self.blob(b).version == version {
                        let ghost before = ids(out@);
                        out.push(b);
                        assert(ids(out@) =~= before.push(b.0));
                    }
                    i += 1;
                }
                assert(s.take(i as int) =~= s);
            },
        }
        out
    }

    /// The most plausible "current" blob of a depot: highest version, and
    /// among forks the most recently dated one.
    pub fn latest(&self, depot: u32) -> (r: Option<BlobId>)
        requires
            self.wf(),
        ensures
            r == self@.latest(depot),
            r is Some <==> self@.has_depot(depot),
            r matches Some(id) ==> self@.in_depot(depot, id.0),
    {
        let ghost v = self@;
        let d = match self.depot(depot) {
            None => {
                proof {
                    if exists|i: u32| v.is_latest(depot, i) {
                        let i = choose|i: u32| v.is_latest(depot, i);
                        assert(v.in_depot(depot, i));
                    }
                }
                return None;
            },
            Some(d) => d,
        };
        let ghost s = v.listing(depot);
        proof {
            self.lemma_listings(depot);
            let i = choose|i: u32| v.in_depot(depot, i);
            assert(s.contains(i));
            assert(d.blobs@.len() == s.len());
        }
        let mut best: usize = 0;
        let mut i: usize = 1;
        while i < d.blobs.len()
            invariant
                v == self@,
                s == v.listing(depot),
                ids(d.blobs@) == s,
                v.is_listing(depot, s),
                best < i <= d.blobs@.len(),
                forall|k: int|
                    0 <= k < i && k != best ==> v.older(#[trigger] s[k], s[best as int]),
            decreases d.blobs@.len() - i,
        {
            proof {
                assert(s[i as int] == d.blobs@[i as int].0);
                assert(s[best as int] == d.blobs@[best as int].0);
                assert(s.contains(s[i as int]));
                assert(s.contains(s[best as int]));
                assert(v.in_depot(depot, s[i as int]));
                assert(v.in_depot(depot, s[best as int]));
                assert(v.before(s[best as int], s[i as int]));
            }
            let x = self.blob(d.blobs[best]);
            let y = self.blob(d.blobs[i]);
            let newer = x.version < y.version || (x.version == y.version && not_later(
                &x.date,
                &y.date,
            ));
            if newer {
                proof {
                    assert(v.older(s[best as int], s[i as int]));
                    assert forall|k: int| 0 <= k < i + 1 && k != i implies v.older(
                        #[trigger] s[k],
                        s[i as int],
                    ) by {
                        if k != best {
                            lemma_older_chains(v, s[k], s[best as int], s[i as int]);
                        }
                    }
                }
                best = i;
            }
            i += 1;
        }
        proof {
            let id = s[best as int];
            assert(s.contains(id));
            assert(v.in_depot(depot, id));
            assert forall|j: u32| #[trigger] v.in_depot(depot, j) && j != id implies v.older(
                j,
                id,
            ) by {
                assert(s.contains(j));
                let k = choose|k: int| 0 <= k < s.len() && s[k] == j;
                assert(v.older(s[k], s[best as int]));
            }
            assert(v.is_latest(depot, id));
            let other = choose|k: u32| v.is_latest(depot, k);
            assert(v.is_latest(depot, other));
            assert(v.in_depot(depot, other));
            if other != id {
                assert(v.older(other, id));
                assert(v.older(id, other));
            }
            assert(d.blobs@[best as int].0 == id);
        }
        Some(d.blobs[best])
    }
}

proof fn lemma_of_version(v: IndexView, s: Seq<u32>, depot: u32, version: u32)
    requires
        forall|k: int| 0 <= k < s.len() ==> v.in_depot(depot, #[trigger] s[k]),
    ensures
        forall|k: int|
            0 <= k < v.of_version(s, version).len() ==> v.in_depot(
                depot,
                #[trigger] v.of_version(s, version)[k],
            ),
    decreases s.len(),
{
    if s.len() > 0 {
        let t = s.drop_last();
        assert forall|k: int| 0 <= k < t.len() implies v.in_depot(depot, #[trigger] t[k]) by {
            assert(t[k] == s[k]);
        }
        lemma_of_version(v, t, depot, version);
        assert(v.in_depot(depot, s[s.len() - 1]));
        let before = v.of_version(t, version);
        assert forall|k: int| 0 <= k < v.of_version(s, version).len() implies v.in_depot(
            depot,
            #[trigger] v.of_version(s, version)[k],
        ) by {
            if k < before.len() {
                assert(v.of_version(s, version)[k] == before[k]);
            }
        }
    }
}

/// A dat that is found is there.
pub proof fn lemma_find_dat(v: IndexView, depot: u32, version: u32, crc: u32)
    requires
        v.dats.len() <= u32::MAX,
    ensures
        v.find_dat(depot, version, crc) matches Some(d) ==> v.has_dat(d) && v.dat(d).depot == depot
            && v.dat(d).version == version && v.dat(d).crc == crc,
{
    let key = (depot, version, crc);
    lemma_first_whole(v.dats, key);
    lemma_last_index(dat_keys(v.dats), key);
    match dat_with(v.dats, key) {
        Some(i) => {
            assert(dat_keys(v.dats)[i] == dat_key(v.dats[i]));
        },
        None => {},
    }
}

fn not_later(a: &Option<Date>, b: &Option<Date>) -> (r: bool)
    ensures
        r == (date_earlier(*a, *b) || *a == *b),
{
    match (a, b) {
        (None, _) => true,
        (Some(_), None) => false,
        (Some(x), Some(y)) => !y.is_earlier(x),
    }
}

pub proof fn lemma_older_chains(v: IndexView, a: u32, b: u32, c: u32)
    requires
        v.older(a, b),
        v.older(b, c),
    ensures
        v.older(a, c),
{
}

} // verus!
