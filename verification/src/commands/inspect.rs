//! What is known of a depot, or of one version of it.

use std::sync::Arc;
use vstd::prelude::*;

use super::{
    line_views, push_left, put_line, resolve_version, shown, CommandError, CommandFault,
    CommandOutcome,
};
use crate::backend::Backend;
use crate::calendar;
use crate::calendar::format_stamp;
use crate::format::manifest::{Manifest, ManifestView, Node};
use crate::index::{BlobId, Index, IndexView};
use crate::store::contents::{ParsedBlob, ParsedView};
use crate::store::error::{Outcome, ReadError};
use crate::store::setup::Setup;
use crate::store::table::{FileLoc, FileTable, LocView};
use crate::store::Store;
use crate::text;
use crate::tree;
use crate::tree::listing;

verus! {

// ---- lines ----------------------------------------------------------------

pub open spec fn depot_line(depot: u32, blobs: nat, key_known: bool) -> Seq<char> {
    "depot "@ + text::dec(depot as nat) + ": "@ + text::dec(blobs) + " blobs, key "@ + if key_known {
        "known"@
    } else {
        "UNKNOWN"@
    }
}

fn show_depot(depot: u32, blobs: usize, key_known: bool) -> (s: String)
    ensures
        s@ == depot_line(depot, blobs as nat, key_known),
{
    let mut s = text::owned("depot ");
    text::push_dec(&mut s, depot as u64);
    text::push_text(&mut s, ": ");
    text::push_dec(&mut s, blobs as u64);
    text::push_text(&mut s, " blobs, key ");
    text::push_text(
        &mut s,
        if key_known {
            "known"
        } else {
            "UNKNOWN"
        },
    );
    s
}

/// What is said of a version's dat.
pub open spec fn dat_text(v: IndexView, depot: u32, version: u32, p: Option<ParsedView>) -> Seq<
    char,
> {
    match p {
        None => "(blob unreadable)"@,
        Some(p) => match v.find_dat(depot, version, p.meta.dat_crc) {
            Some(d) => "dat "@ + text::dec(v.dat(d).size as nat) + " bytes"@ + if v.dat(
                d,
            ).incomplete {
                " (incomplete)"@
            } else {
                ""@
            },
            None => "dat "@ + text::hex8(p.meta.dat_crc as nat) + " MISSING"@,
        },
    }
}

/// The line of a version, with what its blob was parsed as.
pub open spec fn version_line(
    v: IndexView,
    depot: u32,
    name: Seq<char>,
    b: BlobId,
    p: Option<ParsedView>,
) -> Seq<char> {
    let e = v.blob(b);
    let date = match e.date {
        Some(d) => calendar::stamp(d.secs as nat),
        None => "-"@,
    };
    "  "@ + super::left(name, 14) + " "@ + date + "  "@ + dat_text(v, depot, e.version, p)
}

fn show_dat(ix: &Index, depot: u32, version: u32, p: Option<&ParsedBlob>) -> (s: String)
    requires
        ix.wf(),
    ensures
        s@ == dat_text(
            ix@,
            depot,
            version,
            match p {
                Some(p) => Some(p@),
                None => None,
            },
        ),
{
    match p {
        None => text::owned("(blob unreadable)"),
        Some(p) => match ix.find_dat(depot, version, p.meta.dat_crc) {
            Some(d) => {
                let dat = ix.dat(d);
                let mut s = text::owned("dat ");
                text::push_dec(&mut s, dat.size);
                text::push_text(&mut s, " bytes");
                text::push_text(
                    &mut s,
                    if dat.incomplete {
                        " (incomplete)"
                    } else {
                        ""
                    },
                );
                s
            },
            None => {
                let mut s = text::owned("dat ");
                text::push_hex8(&mut s, p.meta.dat_crc);
                text::push_text(&mut s, " MISSING");
                s
            },
        },
    }
}

/// The line of a version, with what its blob was parsed as.
pub fn show_version(ix: &Index, depot: u32, name: &str, b: BlobId, p: Option<&ParsedBlob>) -> (s:
    String)
    requires
        ix.wf(),
        ix@.has_blob(b),
    ensures
        s@ == version_line(
            ix@,
            depot,
            name@,
            b,
            match p {
                Some(p) => Some(p@),
                None => None,
            },
        ),
{
    let e = ix.blob(b);
    let date = match e.date {
        Some(d) => format_stamp(d.secs),
        None => text::owned("-"),
    };
    let dat = show_dat(ix, depot, e.version, p);
    let mut s = text::owned("  ");
    push_left(&mut s, name, 14);
    text::push_text(&mut s, " ");
    text::push_text(&mut s, date.as_str());
    text::push_text(&mut s, "  ");
    text::push_text(&mut s, dat.as_str());
    s
}

pub open spec fn chain_header(n: nat) -> Seq<char> {
    "chain ("@ + text::dec(n) + " versions, root first):"@
}

fn show_chain_header(n: usize) -> (s: String)
    ensures
        s@ == chain_header(n as nat),
{
    let mut s = text::owned("chain (");
    text::push_dec(&mut s, n as u64);
    text::push_text(&mut s, " versions, root first):");
    s
}

/// The line of one version of a chain, with what its blob holds.
pub open spec fn chain_line(v: IndexView, depot: u32, b: BlobId, p: ParsedView) -> Seq<char> {
    let e = v.blob(b);
    let prev = match p.meta.prev {
        Some((version, crc)) => listing::version_crc(version, crc),
        None => "-"@,
    };
    let state = match v.find_dat(depot, e.version, p.meta.dat_crc) {
        Some(d) => if v.dat(d).incomplete {
            "incomplete"@
        } else {
            "ok"@
        },
        None => "MISSING"@,
    };
    "  v"@ + super::left(text::dec(e.version as nat), 5) + " blob "@ + text::hex8(e.crc as nat)
        + " prev "@ + super::left(prev, 16) + " dat "@ + text::hex8(p.meta.dat_crc as nat) + " "@
        + super::left(state, 10) + " manifest app "@ + text::dec(p.manifest.app_id as nat)
        + " ver "@ + text::dec(p.manifest.version_id as nat) + " nodes "@ + text::dec(
        p.manifest.nodes.len(),
    ) + " records "@ + text::dec(p.records.len())
}

/// The line of one version of a chain, with what its blob holds.
pub fn show_chained(ix: &Index, depot: u32, b: BlobId, p: &ParsedBlob) -> (s: String)
    requires
        ix.wf(),
        ix@.has_blob(b),
    ensures
        s@ == chain_line(ix@, depot, b, p@),
{
    let e = ix.blob(b);
    let prev = match p.meta.prev {
        Some((version, crc)) => tree::version_crc(version, crc),
        None => text::owned("-"),
    };
    let state = match ix.find_dat(depot, e.version, p.meta.dat_crc) {
        Some(d) => if ix.dat(d).incomplete {
            "incomplete"
        } else {
            "ok"
        },
        None => "MISSING",
    };
    let number = text::decimal(e.version as u64);
    let mut s = text::owned("  v");
    push_left(&mut s, number.as_str(), 5);
    text::push_text(&mut s, " blob ");
    text::push_hex8(&mut s, e.crc);
    text::push_text(&mut s, " prev ");
    push_left(&mut s, prev.as_str(), 16);
    text::push_text(&mut s, " dat ");
    text::push_hex8(&mut s, p.meta.dat_crc);
    text::push_text(&mut s, " ");
    push_left(&mut s, state, 10);
    text::push_text(&mut s, " manifest app ");
    text::push_dec(&mut s, p.manifest.app_id() as u64);
    text::push_text(&mut s, " ver ");
    text::push_dec(&mut s, p.manifest.version_id() as u64);
    text::push_text(&mut s, " nodes ");
    text::push_dec(&mut s, p.manifest.nodes().len() as u64);
    text::push_text(&mut s, " records ");
    text::push_dec(&mut s, p.records.len() as u64);
    s
}

// ---- one version ----------------------------------------------------------

/// How many of some nodes are files.
pub open spec fn file_count(nodes: Seq<Node>) -> nat
    decreases nodes.len(),
{
    if nodes.len() == 0 {
        0
    } else if nodes.last().dir() {
        file_count(nodes.drop_last())
    } else {
        file_count(nodes.drop_last()) + 1
    }
}

/// How many of some nodes are files that have a record.
pub open spec fn located_count(nodes: Seq<Node>, t: &FileTable) -> nat
    decreases nodes.len(),
{
    if nodes.len() == 0 {
        0
    } else {
        let n = nodes.last();
        let before = located_count(nodes.drop_last(), t);
        if !n.dir() && t.find(n.file_id) is Some {
            before + 1
        } else {
            before
        }
    }
}

/// How many of some nodes are files whose dat is in the dump.
pub open spec fn readable_count(nodes: Seq<Node>, t: &FileTable) -> nat
    decreases nodes.len(),
{
    if nodes.len() == 0 {
        0
    } else {
        let n = nodes.last();
        let before = readable_count(nodes.drop_last(), t);
        if !n.dir() && (t.find(n.file_id) matches Some(l) && l@.dat is Some) {
            before + 1
        } else {
            before
        }
    }
}

pub open spec fn summary_line(version: Seq<char>, nodes: Seq<Node>, t: &FileTable) -> Seq<char> {
    "version "@ + version + ": "@ + text::dec(file_count(nodes)) + " files, "@ + text::dec(
        located_count(nodes, t),
    ) + " with records, "@ + text::dec(readable_count(nodes, t)) + " with a dat present"@
}

/// A version has at least as many files as it has located, and at least as
/// many of those as it can read.
pub proof fn law_counts_are_ordered(nodes: Seq<Node>, t: &FileTable)
    ensures
        readable_count(nodes, t) <= located_count(nodes, t) <= file_count(nodes) <= nodes.len(),
    decreases nodes.len(),
{
    if nodes.len() > 0 {
        law_counts_are_ordered(nodes.drop_last(), t);
    }
}

/// The line of a file, with where it is.
pub open spec fn file_line(v: IndexView, path: Seq<u8>, file_id: u32, loc: Option<LocView>) -> Seq<
    char,
> {
    let head = "  "@ + text::lossy(path) + "  id "@ + text::dec(file_id as nat);
    match loc {
        Some(l) => head + " "@ + listing::mode_name(l.record.mode) + " "@ + text::dec(
            l.record.size as nat,
        ) + " bytes, "@ + text::dec(l.record.blocks.len()) + " blocks, from v"@ + text::dec(
            v.blob(l.source).version as nat,
        ) + " "@ + if l.dat is Some {
            ""@
        } else {
            "(dat missing)"@
        },
        None => head + " NO RECORD"@,
    }
}

/// The line of a file, with where it is.
pub fn show_file(ix: &Index, path: &[u8], file_id: u32, loc: Option<&FileLoc>) -> (s: String)
    requires
        loc matches Some(l) ==> ix@.has_blob(l@.source),
    ensures
        s@ == file_line(
            ix@,
            path@,
            file_id,
            match loc {
                Some(l) => Some(l@),
                None => None,
            },
        ),
{
    let name = text::from_utf8_lossy(path);
    let mut s = text::owned("  ");
    text::push_text(&mut s, name.as_str());
    text::push_text(&mut s, "  id ");
    text::push_dec(&mut s, file_id as u64);
    match loc {
        Some(l) => {
            text::push_text(&mut s, " ");
            text::push_text(&mut s, tree::mode_name(l.record.mode));
            text::push_text(&mut s, " ");
            text::push_dec(&mut s, l.record.size);
            text::push_text(&mut s, " bytes, ");
            text::push_dec(&mut s, l.record.num_blocks() as u64);
            text::push_text(&mut s, " blocks, from v");
            text::push_dec(&mut s, ix.blob(l.source).version as u64);
            text::push_text(&mut s, " ");
            text::push_text(
                &mut s,
                if l.dat.is_some() {
                    ""
                } else {
                    "(dat missing)"
                },
            );
            s
        },
        None => {
            text::push_text(&mut s, " NO RECORD");
            s
        },
    }
}

pub open spec fn loc_view(l: Option<Arc<FileLoc>>) -> Option<LocView> {
    match l {
        Some(l) => Some(l@),
        None => None,
    }
}

/// The lines of the first `n` nodes of a manifest: one for each file.
pub open spec fn file_lines(v: IndexView, m: ManifestView, t: &FileTable, n: nat) -> Seq<Seq<char>>
    decreases n,
{
    if n == 0 {
        Seq::empty()
    } else {
        let before = file_lines(v, m, t, (n - 1) as nat);
        let node = m.nodes[n - 1];
        if node.dir() {
            before
        } else {
            before.push(
                file_line(v, m.path((n - 1) as u32), node.file_id, loc_view(t.find(node.file_id))),
            )
        }
    }
}

/// What is put out of a version: a summary, and its files where they are
/// wanted.
pub open spec fn version_lines(
    v: IndexView,
    version: Seq<char>,
    m: ManifestView,
    t: &FileTable,
    files: bool,
) -> Seq<Seq<char>> {
    seq![summary_line(version, m.nodes, t)] + if files {
        file_lines(v, m, t, m.nodes.len())
    } else {
        Seq::empty()
    }
}

/// Every file that a table finds is in the index.
pub open spec fn table_fits(v: IndexView, t: &FileTable) -> bool {
    forall|f: u32| #[trigger] t.find(f) matches Some(l) ==> l@.fits(v)
}

/// What is put out of a version: a summary, and its files where they are
/// wanted.
pub fn report_version(
    ix: &Index,
    version: &str,
    m: &Manifest,
    t: &FileTable,
    files: bool,
    out: &mut Vec<String>,
)
    requires
        m.wf(),
        table_fits(ix@, t),
    ensures
        line_views(final(out)@) == line_views(old(out)@) + version_lines(
            ix@,
            version@,
            m@,
            t,
            files,
        ),
{
    proof {
        m.lemma_sound();
    }
    let ghost begun = line_views(out@);
    let nodes = m.nodes();
    let (mut file_nodes, mut located, mut readable): (usize, usize, usize) = (0, 0, 0);
    let mut i: usize = 0;
    assert(nodes@.take(0) =~= Seq::<Node>::empty());
    while i < nodes.len()
        invariant
            i <= nodes@.len(),
            file_nodes <= i,
            located <= i,
            readable <= i,
            file_nodes == file_count(nodes@.take(i as int)),
            located == located_count(nodes@.take(i as int), t),
            readable == readable_count(nodes@.take(i as int), t),
        decreases nodes@.len() - i,
    {
        proof {
            assert(nodes@.take(i + 1).drop_last() =~= nodes@.take(i as int));
            assert(nodes@.take(i + 1).last() == nodes@[i as int]);
        }
        let n = &nodes[i];
        if !n.is_dir() {
            file_nodes += 1;
            match t.get(n.file_id) {
                Some(l) => {
                    located += 1;
                    if l.dat.is_some() {
                        readable += 1;
                    }
                },
                None => {},
            }
        }
        i += 1;
    }
    assert(nodes@.take(i as int) =~= nodes@);
    let mut s = text::owned("version ");
    text::push_text(&mut s, version);
    text::push_text(&mut s, ": ");
    text::push_dec(&mut s, file_nodes as u64);
    text::push_text(&mut s, " files, ");
    text::push_dec(&mut s, located as u64);
    text::push_text(&mut s, " with records, ");
    text::push_dec(&mut s, readable as u64);
    text::push_text(&mut s, " with a dat present");
    put_line(out, s);
    let ghost summed = line_views(out@);
    if files {
        let mut k: usize = 0;
        assert(summed + file_lines(ix@, m@, t, 0) =~= summed);
        while k < nodes.len()
            invariant
                k <= nodes@.len(),
                nodes@ == m@.nodes,
                m@.nodes.len() <= u32::MAX,
                m.wf(),
                table_fits(ix@, t),
                line_views(out@) == summed + file_lines(ix@, m@, t, k as nat),
            decreases nodes@.len() - k,
        {
            let n = &nodes[k];
            if !n.is_dir() {
                let path = m.path(k as u32);
                let loc: Option<&FileLoc> = match t.get(n.file_id) {
                    Some(l) => Some(&**l),
                    None => None,
                };
                let line = show_file(ix, path.as_slice(), n.file_id, loc);
                let ghost seen = line@;
                put_line(out, line);
                assert(summed + file_lines(ix@, m@, t, (k + 1) as nat) =~= (summed + file_lines(
                    ix@,
                    m@,
                    t,
                    k as nat,
                )).push(seen));
            }
            k += 1;
        }
    }
    assert(line_views(out@) =~= begun + version_lines(ix@, version@, m@, t, files));
}

// ---- what the command may put out -----------------------------------------

pub open spec fn may_version_line<B: Backend>(s: Setup<B>, depot: u32, k: int, line: Seq<char>)
    -> bool {
    let d = s.index.depot(depot);
    let b = BlobId(d.blobs[k]);
    exists|o: Outcome<ParsedView>| #[trigger]
        s.may_parse(b, o) && line == version_line(
            s.index,
            depot,
            d.names[k],
            b,
            tree::parsed_as(o),
        )
}

pub open spec fn may_chain_line<B: Backend>(s: Setup<B>, depot: u32, b: BlobId, line: Seq<char>)
    -> bool {
    exists|p: ParsedView| #[trigger]
        s.may_parse(b, Ok(p)) && line == chain_line(s.index, depot, b, p)
}

/// What is put out of a chain, which may break off where a blob will not
/// parse.
pub open spec fn may_chain_part<B: Backend>(
    s: Setup<B>,
    depot: u32,
    c: Seq<BlobId>,
    lines: Seq<Seq<char>>,
    r: Outcome<()>,
) -> bool {
    &&& 1 <= lines.len() <= c.len() + 1
    &&& lines[0] == chain_header(c.len())
    &&& forall|k: int|
        0 <= k < lines.len() - 1 ==> may_chain_line(s, depot, c[k], #[trigger] lines[k + 1])
    &&& match r {
        Ok(_) => lines.len() == c.len() + 1,
        Err(f) => lines.len() <= c.len() && s.may_parse(c[lines.len() - 1], Err(f)),
    }
}

/// What is put out of the chain of a version.
pub open spec fn may_chain_lines<B: Backend>(
    s: Setup<B>,
    depot: u32,
    id: BlobId,
    lines: Seq<Seq<char>>,
    r: Outcome<()>,
) -> bool {
    ||| lines.len() == 0 && (r matches Err(f) && exists|x: BlobId| #[trigger]
        s.reaches(id, x) && s.may_parse(x, Err(f)))
    ||| exists|c: Seq<BlobId>| #[trigger]
        s.may_chain(id, c) && may_chain_part(s, depot, c, lines, r)
}

/// A table and a manifest may be those of a version.
pub open spec fn may_hold<B: Backend>(s: Setup<B>, id: BlobId, t: FileTable, p: ParsedView) -> bool {
    s.may_table(&t) && t.blob == id && s.may_parse(id, Ok(p))
}

/// What is put out of a version, behind its chain.
pub open spec fn may_report<B: Backend>(
    s: Setup<B>,
    id: BlobId,
    version: Seq<char>,
    files: bool,
    lines: Seq<Seq<char>>,
    r: Outcome<()>,
) -> bool {
    match r {
        Ok(_) => exists|t: FileTable, p: ParsedView| #[trigger]
            may_hold(s, id, t, p) && lines == version_lines(
                s.index,
                version,
                p.manifest,
                &t,
                files,
            ),
        Err(f) => lines.len() == 0 && (s.may_parse(id, Err(f)) || exists|x: BlobId| #[trigger]
            s.reaches(id, x) && s.may_parse(x, Err(f))),
    }
}

/// What is put out of a version.
pub open spec fn may_inspect_version<B: Backend>(
    s: Setup<B>,
    depot: u32,
    id: BlobId,
    version: Seq<char>,
    files: bool,
    lines: Seq<Seq<char>>,
    r: Outcome<()>,
) -> bool {
    exists|n: int, first: Outcome<()>|
        #![trigger may_chain_lines(s, depot, id, lines.take(n), first)]
        0 <= n <= lines.len() && may_chain_lines(s, depot, id, lines.take(n), first) && match first {
            Ok(_) => may_report(s, id, version, files, lines.skip(n), r),
            Err(_) => n == lines.len() && r == first,
        }
}

/// What the command puts out may be `lines`, and it may end as `r`.
pub open spec fn may_inspect<B: Backend>(
    s: Setup<B>,
    depot: u32,
    version: Option<Seq<char>>,
    files: bool,
    lines: Seq<Seq<char>>,
    r: CommandOutcome<()>,
) -> bool {
    let d = s.index.depot(depot);
    if !s.index.has_depot(depot) {
        lines.len() == 0 && r == Err::<(), CommandFault>(CommandFault::NoDepot(depot))
    } else {
        &&& lines.len() > 0
        &&& lines[0] == depot_line(depot, d.blobs.len(), s.keys.get(depot) is Some)
        &&& match version {
            None => {
                &&& r == Ok::<(), CommandFault>(())
                &&& lines.len() == d.blobs.len() + 1
                &&& forall|k: int|
                    0 <= k < d.blobs.len() ==> may_version_line(
                        s,
                        depot,
                        k,
                        #[trigger] lines[k + 1],
                    )
            },
            Some(name) => match super::version_of(s.index, depot, name) {
                Err(f) => lines.len() == 1 && r == Err::<(), CommandFault>(f),
                Ok(id) => match r {
                    Ok(_) => may_inspect_version(
                        s,
                        depot,
                        id,
                        name,
                        files,
                        lines.skip(1),
                        Ok(()),
                    ),
                    Err(CommandFault::Read(f)) => may_inspect_version(
                        s,
                        depot,
                        id,
                        name,
                        files,
                        lines.skip(1),
                        Err(f),
                    ),
                    Err(_) => false,
                },
            },
        }
    }
}

// ---- the command ----------------------------------------------------------

fn list_versions<B: Backend>(store: &mut Store<B>, depot: u32, out: &mut Vec<String>)
    requires
        old(store).wf(),
        old(store).setup().index.has_depot(depot),
    ensures
        final(store).wf(),
        final(store).setup() == old(store).setup(),
        ({
            let s = old(store).setup();
            let n = s.index.depot(depot).blobs.len();
            let before = line_views(old(out)@);
            let lines = line_views(final(out)@);
            &&& lines.len() == before.len() + n
            &&& lines.take(before.len() as int) == before
            &&& forall|k: int|
                0 <= k < n ==> may_version_line(s, depot, k, #[trigger] lines[before.len() + k])
        }),
{
    let ghost s = store.setup();
    let ghost begun = line_views(out@);
    let ghost d = s.index.depot(depot);
    let mut i: usize = 0;
    let count: usize = match store.index().depot(depot) {
        Some(dep) => dep.versions().len(),
        None => 0,
    };
    assert(begun.take(begun.len() as int) =~= begun);
    while i < count
        invariant
            i <= count,
            count == d.blobs.len(),
            d == s.index.depot(depot),
            s.index.has_depot(depot),
            store.wf(),
            store.setup() == s,
            line_views(out@).len() == begun.len() + i,
            line_views(out@).take(begun.len() as int) == begun,
            forall|k: int|
                0 <= k < i ==> may_version_line(
                    s,
                    depot,
                    k,
                    #[trigger] line_views(out@)[begun.len() + k],
                ),
        decreases count - i,
    {
        let (name, b) = version_at(store, depot, i);
        let parsed = store.parsed(b);
        let line = match parsed {
            Ok(p) => {
                let line = show_version(store.index(), depot, name.as_str(), b, Some(&*p));
                let ghost o: Outcome<ParsedView> = Ok(p@);
                assert(s.may_parse(b, o) && tree::parsed_as(o) == Some(p@));
                line
            },
            Err(e) => {
                let line = show_version(store.index(), depot, name.as_str(), b, None);
                let ghost o: Outcome<ParsedView> = Err(e@);
                assert(s.may_parse(b, o) && tree::parsed_as(o) is None);
                line
            },
        };
        assert(may_version_line(s, depot, i as int, line@));
        let ghost seen = line@;
        let ghost before = line_views(out@);
        put_line(out, line);
        proof {
            assert(line_views(out@).take(begun.len() as int) =~= before.take(begun.len() as int));
            assert forall|k: int| 0 <= k < i + 1 implies may_version_line(
                s,
                depot,
                k,
                #[trigger] line_views(out@)[begun.len() + k],
            ) by {
                if k < i {
                    assert(may_version_line(s, depot, k, before[begun.len() + k]));
                }
            }
        }
        i += 1;
    }
}

/// Version `i` of a depot: its name and its blob.
fn version_at<B: Backend>(store: &Store<B>, depot: u32, i: usize) -> (r: (String, BlobId))
    requires
        store.wf(),
        store.setup().index.has_depot(depot),
        i < store.setup().index.depot(depot).blobs.len(),
    ensures
        r.0@ == store.setup().index.depot(depot).names[i as int],
        r.1 == BlobId(store.setup().index.depot(depot).blobs[i as int]),
        store.setup().index.has_blob(r.1),
{
    let ix = store.index();
    let ghost blobs = ix@.depot(depot).blobs;
    proof {
        ix.lemma_listings(depot);
        assert(blobs.contains(blobs[i as int]));
        assert(ix@.in_depot(depot, blobs[i as int]));
    }
    match ix.depot(depot) {
        Some(d) => {
            let versions = d.versions();
            (text::owned(versions[i].0), versions[i].1)
        },
        None => (String::new(), BlobId(0)),
    }
}

fn report_chain<B: Backend>(store: &mut Store<B>, depot: u32, id: BlobId, out: &mut Vec<String>)
    -> (r: core::result::Result<(), ReadError>)
    requires
        old(store).wf(),
        old(store).setup().index.has_blob(id),
    ensures
        final(store).wf(),
        final(store).setup() == old(store).setup(),
        ({
            let before = line_views(old(out)@);
            let lines = line_views(final(out)@);
            &&& lines.len() >= before.len()
            &&& lines.take(before.len() as int) == before
            &&& may_chain_lines(
                old(store).setup(),
                depot,
                id,
                lines.skip(before.len() as int),
                match r {
                    Ok(_) => Ok(()),
                    Err(e) => Err(e@),
                },
            )
        }),
{
    let ghost s = store.setup();
    let ghost begun = line_views(out@);
    assert(begun.take(begun.len() as int) =~= begun);
    let chain = match store.chain(id) {
        Ok(c) => c,
        Err(e) => {
            assert(begun.skip(begun.len() as int).len() == 0);
            return Err(e);
        },
    };
    let ghost c = chain@;
    put_line(out, show_chain_header(chain.len()));
    let ghost headed = line_views(out@);
    let mut i: usize = 0;
    assert(headed.take(begun.len() as int) =~= begun);
    while i < chain.len()
        invariant
            i <= chain@.len(),
            c == chain@,
            s.may_chain(id, c),
            forall|k: int| 0 <= k < c.len() ==> s.index.has_blob(#[trigger] c[k]),
            store.wf(),
            store.setup() == s,
            s == old(store).setup(),
            begun == line_views(old(out)@),
            line_views(out@).len() == begun.len() + 1 + i,
            line_views(out@).take(begun.len() as int) == begun,
            line_views(out@)[begun.len() as int] == chain_header(c.len()),
            forall|k: int|
                0 <= k < i ==> may_chain_line(
                    s,
                    depot,
                    c[k],
                    #[trigger] line_views(out@)[begun.len() + 1 + k],
                ),
        decreases chain@.len() - i,
    {
        let b = chain[i];
        assert(s.index.has_blob(c[i as int]));
        match store.parsed(b) {
            Err(e) => {
                proof {
                    lemma_chain_so_far(s, depot, c, begun, line_views(out@), i as int);
                    let lines = line_views(out@).skip(begun.len() as int);
                    assert(may_chain_part(s, depot, c, lines, Err(e@)));
                }
                return Err(e);
            },
            Ok(p) => {
                let line = show_chained(store.index(), depot, b, &*p);
                assert(may_chain_line(s, depot, c[i as int], line@));
                let ghost before = line_views(out@);
                put_line(out, line);
                proof {
                    assert(line_views(out@).take(begun.len() as int) =~= before.take(
                        begun.len() as int,
                    ));
                    assert forall|k: int| 0 <= k < i + 1 implies may_chain_line(
                        s,
                        depot,
                        c[k],
                        #[trigger] line_views(out@)[begun.len() + 1 + k],
                    ) by {
                        if k < i {
                            assert(may_chain_line(s, depot, c[k], before[begun.len() + 1 + k]));
                        }
                    }
                }
            },
        }
        i += 1;
    }
    proof {
        lemma_chain_so_far(s, depot, c, begun, line_views(out@), i as int);
        let lines = line_views(out@).skip(begun.len() as int);
        assert(may_chain_part(s, depot, c, lines, Ok(())));
    }
    Ok(())
}

proof fn lemma_chain_so_far<B: Backend>(
    s: Setup<B>,
    depot: u32,
    c: Seq<BlobId>,
    begun: Seq<Seq<char>>,
    all: Seq<Seq<char>>,
    i: int,
)
    requires
        0 <= i <= c.len(),
        all.len() == begun.len() + 1 + i,
        all[begun.len() as int] == chain_header(c.len()),
        forall|k: int|
            0 <= k < i ==> may_chain_line(s, depot, c[k], #[trigger] all[begun.len() + 1 + k]),
    ensures
        ({
            let lines = all.skip(begun.len() as int);
            &&& lines.len() == i + 1
            &&& lines[0] == chain_header(c.len())
            &&& forall|k: int|
                0 <= k < lines.len() - 1 ==> may_chain_line(s, depot, c[k], #[trigger] lines[k + 1])
        }),
{
    let lines = all.skip(begun.len() as int);
    assert forall|k: int| 0 <= k < lines.len() - 1 implies may_chain_line(
        s,
        depot,
        c[k],
        #[trigger] lines[k + 1],
    ) by {
        assert(lines[k + 1] == all[begun.len() + 1 + k]);
    }
}

fn report<B: Backend>(
    store: &mut Store<B>,
    id: BlobId,
    version: &str,
    files: bool,
    out: &mut Vec<String>,
) -> (r: core::result::Result<(), ReadError>)
    requires
        old(store).wf(),
        old(store).setup().index.has_blob(id),
    ensures
        final(store).wf(),
        final(store).setup() == old(store).setup(),
        ({
            let before = line_views(old(out)@);
            let lines = line_views(final(out)@);
            &&& lines.len() >= before.len()
            &&& lines.take(before.len() as int) == before
            &&& may_report(
                old(store).setup(),
                id,
                version@,
                files,
                lines.skip(before.len() as int),
                match r {
                    Ok(_) => Ok(()),
                    Err(e) => Err(e@),
                },
            )
        }),
{
    let ghost s = store.setup();
    let ghost begun = line_views(out@);
    proof {
        assert(begun.take(begun.len() as int) =~= begun);
        assert(begun.skip(begun.len() as int).len() == 0);
    }
    let t = match store.table(id) {
        Ok(t) => t,
        Err(e) => {
            return Err(e);
        },
    };
    let p = match store.parsed(id) {
        Ok(p) => p,
        Err(e) => {
            return Err(e);
        },
    };
    let ix = store.index();
    proof {
        ix.lemma_sizes();
        assert forall|f: u32| (#[trigger] t.find(f) matches Some(l) ==> l@.fits(s.index)) by {
            if t.find(f) is Some {
                crate::store::setup::lemma_found_fits(s, &*t, f);
            }
        }
        assert(may_hold(s, id, *t, p@));
    }
    report_version(ix, version, &*p.manifest, &*t, files, out);
    proof {
        let more = version_lines(s.index, version@, p@.manifest, &*t, files);
        assert((begun + more).take(begun.len() as int) =~= begun);
        assert((begun + more).skip(begun.len() as int) =~= more);
    }
    Ok(())
}

/// Put out what is known about a depot, or one version of it; `out` has what
/// was found before anything failed.
pub fn inspect<B: Backend>(
    store: &mut Store<B>,
    depot: u32,
    version: Option<&str>,
    files: bool,
    out: &mut Vec<String>,
) -> (r: core::result::Result<(), CommandError>)
    requires
        old(store).wf(),
        old(out)@.len() == 0,
    ensures
        final(store).wf(),
        final(store).setup() == old(store).setup(),
        may_inspect(
            old(store).setup(),
            depot,
            match version {
                Some(v) => Some(v@),
                None => None,
            },
            files,
            line_views(final(out)@),
            shown(r),
        ),
{
    let ghost s = store.setup();
    let count: usize = match store.index().depot(depot) {
        Some(d) => d.versions().len(),
        None => {
            return Err(CommandError::NoDepot(depot));
        },
    };
    let known = store.key_for(depot).is_some();
    put_line(out, show_depot(depot, count, known));
    let ghost begun = line_views(out@);
    let name = match version {
        Some(v) => v,
        None => {
            list_versions(store, depot, out);
            proof {
                let lines = line_views(out@);
                let n = s.index.depot(depot).blobs.len();
                assert(lines[0] == lines.take(1)[0]);
                assert forall|k: int| 0 <= k < n implies may_version_line(
                    s,
                    depot,
                    k,
                    #[trigger] lines[k + 1],
                ) by {
                    assert(lines[k + 1] == lines[begun.len() + k]);
                }
            }
            return Ok(());
        },
    };
    let id = match resolve_version(store.index(), depot, name) {
        Ok(b) => b,
        Err(e) => {
            return Err(e);
        },
    };
    let chained = report_chain(store, depot, id, out);
    let ghost mid = line_views(out@);
    let ghost n = mid.len() - begun.len();
    proof {
        assert(mid[0] == mid.take(1)[0]);
        assert(mid.skip(1).take(n) =~= mid.skip(begun.len() as int));
    }
    match chained {
        Ok(_) => {},
        Err(e) => {
            proof {
                let first: Outcome<()> = Err(e@);
                assert(may_chain_lines(s, depot, id, mid.skip(1).take(n), first));
                assert(may_inspect_version(s, depot, id, name@, files, mid.skip(1), first));
            }
            return Err(CommandError::Read(e));
        },
    }
    let reported = report(store, id, name, files, out);
    proof {
        let lines = line_views(out@);
        let first: Outcome<()> = Ok(());
        assert(lines[0] == lines.take(mid.len() as int)[0]);
        assert(lines.skip(1).take(n) =~= mid.skip(1).take(n)) by {
            assert forall|k: int| 0 <= k < n implies lines.skip(1).take(n)[k] == mid.skip(1).take(
                n,
            )[k] by {
                assert(lines[k + 1] == lines.take(mid.len() as int)[k + 1]);
            }
        }
        assert(lines.skip(1).skip(n) =~= lines.skip(mid.len() as int));
        assert(may_chain_lines(s, depot, id, lines.skip(1).take(n), first));
    }
    match reported {
        Ok(_) => Ok(()),
        Err(e) => Err(CommandError::Read(e)),
    }
}

} // verus!
