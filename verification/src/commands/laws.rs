//! What the commands promise of what they put out.

use vstd::prelude::*;

use super::audit;
use super::open;
use super::{CommandFault, CommandOutcome};
use super::audit::{AuditView, TallyView};
use super::inspect;
use super::verify;
use super::verify::Check;
use crate::backend::Backend;
use crate::calendar;
use crate::format::checksums::FileView;
use crate::format::chunk;
use crate::format::manifest::{ManifestView, Node};
use crate::index::laws as index_laws;
use crate::index::{BlobId, Index, IndexView};
use crate::keys;
use crate::keys::{KeyFault, KeysView, SpecView};
use crate::sort;
use crate::sort::laws as sort_laws;
use crate::sort::Rank;
use crate::store::block::KeyResolution;
use crate::store::contents::ParsedView;
use crate::store::error::{Outcome, ReadFault};
use crate::store::laws;
use crate::store::setup;
use crate::store::setup::{Past, Setup};
use crate::store::table;
use crate::store::table::{FileTable, LocView};
use crate::text;
use crate::tree;
use crate::tree::shown;

verus! {

// ---- audit ----------------------------------------------------------------

/// A record is of an encrypted file, compressed or not, that stores a block.
pub open spec fn stores_encrypted(r: FileView) -> bool {
    (r.mode is Encrypted || r.mode is CompressedEncrypted) && r.blocks.len() > 0
}

/// The file that an audit is made on is the first encrypted one that stores a
/// block; there is none only where no record is of such a file.
pub proof fn law_first_encrypted(records: Seq<FileView>)
    ensures
        audit::first_encrypted(records) is None <==> forall|k: int|
            0 <= k < records.len() ==> !#[trigger] stores_encrypted(records[k]),
        audit::first_encrypted(records) matches Some(r) ==> exists|k: int|
            0 <= k < records.len() && records[k] == r && #[trigger] stores_encrypted(records[k])
                && forall|j: int| 0 <= j < k ==> !#[trigger] stores_encrypted(records[j]),
    decreases records.len(),
{
    if records.len() > 0 {
        let rest = records.skip(1);
        assert forall|k: int| 0 <= k < rest.len() implies #[trigger] stores_encrypted(rest[k])
            == stores_encrypted(records[k + 1]) by {}
        assert forall|k: int| 1 <= k < records.len() implies #[trigger] stores_encrypted(records[k])
            == stores_encrypted(rest[k - 1]) by {}
        if stores_encrypted(records[0]) {
            assert(audit::first_encrypted(records) == Some(records[0]));
        } else {
            law_first_encrypted(rest);
            match audit::first_encrypted(rest) {
                Some(r) => {
                    let k = choose|k: int|
                        0 <= k < rest.len() && rest[k] == r && #[trigger] stores_encrypted(rest[k])
                            && forall|j: int| 0 <= j < k ==> !#[trigger] stores_encrypted(rest[j]);
                    assert(stores_encrypted(records[k + 1]));
                    assert forall|j: int| 0 <= j < k + 1 implies !#[trigger] stores_encrypted(
                        records[j],
                    ) by {
                        if j > 0 {
                            assert(!stores_encrypted(rest[j - 1]));
                        }
                    }
                },
                None => {
                    assert forall|k: int| 0 <= k < records.len() implies !#[trigger] stores_encrypted(
                        records[k],
                    ) by {
                        if k > 0 {
                            assert(!stores_encrypted(rest[k - 1]));
                        }
                    }
                },
            }
        }
    }
}

/// An audit finds nothing to decrypt only in a blob that parses and has no
/// encrypted file that stores a block.
pub proof fn law_clear_is_without_encrypted_files<B: Backend>(
    s: Setup<B>,
    known: Map<u32, KeyResolution>,
    id: BlobId,
)
    ensures
        audit::may_audit(s, known, id, AuditView::Clear) <==> exists|p: ParsedView|
            #![trigger s.may_parse(id, Ok(p))]
            s.may_parse(id, Ok(p)) && forall|k: int|
                0 <= k < p.records.len() ==> !#[trigger] stores_encrypted(p.records[k]),
{
    if audit::may_audit(s, known, id, AuditView::Clear) {
        let e = s.index.blob(id);
        let o = choose|o: Outcome<ParsedView>| #[trigger]
            s.may_parse(id, o) && match o {
                Err(f) => AuditView::Clear == audit::unreadable(e, f, false),
                Ok(p) => audit::may_audit_parsed(s, known, id, p, AuditView::Clear),
            };
        let p = o->Ok_0;
        assert(o == Ok::<ParsedView, ReadFault>(p));
        law_first_encrypted(p.records);
        if audit::first_encrypted(p.records) is Some {
            let rec = audit::first_encrypted(p.records)->0;
            let at = choose|at: Outcome<LocView>| #[trigger]
                tree::may_find(s, id, rec.file_id, at) && audit::may_try(
                    s,
                    known,
                    id,
                    at,
                    AuditView::Clear,
                );
            assert(audit::may_try(s, known, id, at, AuditView::Clear));
        }
        assert(s.may_parse(id, Ok(p)));
    }
    if exists|p: ParsedView|
        #![trigger s.may_parse(id, Ok(p))]
        s.may_parse(id, Ok(p)) && forall|k: int|
            0 <= k < p.records.len() ==> !#[trigger] stores_encrypted(p.records[k]) {
        let p = choose|p: ParsedView|
            #![trigger s.may_parse(id, Ok(p))]
            s.may_parse(id, Ok(p)) && forall|k: int|
                0 <= k < p.records.len() ==> !#[trigger] stores_encrypted(p.records[k]);
        law_first_encrypted(p.records);
        let o: Outcome<ParsedView> = Ok(p);
        assert(s.may_parse(id, o));
        assert(audit::may_audit_parsed(s, known, id, p, AuditView::Clear));
    }
}

/// How an audit stands is told by what was found out of the key: whether it is
/// the one that is configured, another's, or none.
pub proof fn law_an_audit_tells_the_key(
    e: crate::index::BlobView,
    k: KeyResolution,
    f: ReadFault,
    encrypted: bool,
)
    ensures
        audit::resolved_audit(e, k) is Configured <==> k is Configured,
        audit::resolved_audit(e, k) is Discovered <==> k is Discovered,
        audit::resolved_audit(e, k) is NoKey <==> k is Nothing,
        audit::unreadable(e, f, encrypted) matches AuditView::Unreadable { encrypted: x, .. } && x
            == encrypted,
{
}

/// As far as 64 bits can count.
pub open spec fn counted(n: nat) -> nat {
    if n <= 0xffff_ffff_ffff_ffff {
        n
    } else {
        0xffff_ffff_ffff_ffff
    }
}

/// A tally counts the blobs with encrypted files, and how each of them came out.
pub proof fn law_a_tally_counts_the_audits(audits: Seq<AuditView>)
    ensures
        ({
            let t = TallyView::none().with_all(audits);
            &&& t.ok == counted(audits.filter(|a: AuditView| a is Configured).len())
            &&& t.discovered == counted(audits.filter(|a: AuditView| a is Discovered).len())
            &&& t.no_key == counted(audits.filter(|a: AuditView| a is NoKey).len())
            &&& t.unreadable == counted(audits.filter(|a: AuditView| a is Unreadable).len())
            &&& t.encrypted_blobs == counted(
                audits.filter(
                    |a: AuditView|
                        match a {
                            AuditView::Clear => false,
                            AuditView::Unreadable { encrypted, .. } => encrypted,
                            _ => true,
                        },
                ).len(),
            )
        }),
    decreases audits.len(),
{
    reveal(Seq::filter);
    if audits.len() > 0 {
        law_a_tally_counts_the_audits(audits.drop_last());
    }
}

/// The blobs that an audit goes through are those of the depots that are wanted,
/// all of them where none is named.
pub proof fn law_every_wanted_blob_is_audited(ix: &Index, only: Option<u32>, i: u32)
    requires
        ix.wf(),
    ensures
        audit::chosen(ix@, ix@.depot_list(), only).contains(i) <==> i < ix@.blobs.len() && (
        only is None || only == Some(ix@.blobs[i as int].depot)),
{
    ix.lemma_depot_numbers();
    let depots = ix@.depot_list();
    assert forall|k: int| 0 <= k < depots.len() implies ix@.has_depot(#[trigger] depots[k]) by {
        assert(depots.contains(depots[k]));
    }
    lemma_chosen(ix, depots, only, i);
    if i < ix@.blobs.len() {
        let d = ix@.blobs[i as int].depot;
        assert(ix@.in_depot(d, i));
        assert(ix@.has_depot(d));
        assert(depots.contains(d));
    }
}

proof fn lemma_chosen(ix: &Index, depots: Seq<u32>, only: Option<u32>, i: u32)
    requires
        ix.wf(),
        forall|k: int| 0 <= k < depots.len() ==> ix@.has_depot(#[trigger] depots[k]),
    ensures
        audit::chosen(ix@, depots, only).contains(i) <==> i < ix@.blobs.len() && depots.contains(
            ix@.blobs[i as int].depot,
        ) && (only is None || only == Some(ix@.blobs[i as int].depot)),
    decreases depots.len(),
{
    let c = audit::chosen(ix@, depots, only);
    if depots.len() > 0 {
        let front = depots.drop_last();
        let d = depots.last();
        assert forall|k: int| 0 <= k < front.len() implies ix@.has_depot(#[trigger] front[k]) by {
            assert(front[k] == depots[k]);
        }
        lemma_chosen(ix, front, only, i);
        assert(ix@.has_depot(depots[depots.len() - 1]));
        ix.lemma_listings(d);
        let x = audit::chosen(ix@, front, only);
        let y = if only is None || only == Some(d) {
            ix@.listing(d)
        } else {
            Seq::empty()
        };
        assert(c == x + y);
        assert(c.contains(i) <==> x.contains(i) || y.contains(i)) by {
            if x.contains(i) {
                let k = choose|k: int| 0 <= k < x.len() && x[k] == i;
                assert(c[k] == i);
            }
            if y.contains(i) {
                let k = choose|k: int| 0 <= k < y.len() && y[k] == i;
                assert(c[x.len() + k] == i);
            }
            if c.contains(i) {
                let k = choose|k: int| 0 <= k < c.len() && c[k] == i;
                if k < x.len() {
                    assert(x[k] == i);
                } else {
                    assert(y[k - x.len()] == i);
                }
            }
        }
        assert(depots =~= front.push(d));
        assert(ix@.in_depot(d, i) <==> ix@.listing(d).contains(i));
        if i < ix@.blobs.len() {
            let e = ix@.blobs[i as int].depot;
            assert(depots.contains(e) <==> front.contains(e) || e == d) by {
                if front.contains(e) {
                    let k = choose|k: int| 0 <= k < front.len() && front[k] == e;
                    assert(depots[k] == e);
                }
                if e == d {
                    assert(depots[depots.len() - 1] == e);
                }
            }
        }
    }
}

// ---- inspect --------------------------------------------------------------

/// A node is a file.
pub open spec fn is_file(n: Node) -> bool {
    n.file_id != 0xffff_ffff
}

/// The files of a version, those of them that have a record, whatever their dat,
/// and those of them whose dat is in the dump, are counted.
pub proof fn law_counts_are_of_files(nodes: Seq<Node>, t: &FileTable)
    ensures
        inspect::file_count(nodes) == nodes.filter(|n: Node| is_file(n)).len(),
        inspect::located_count(nodes, t) == nodes.filter(
            |n: Node| is_file(n) && t.find(n.file_id) is Some,
        ).len(),
        inspect::readable_count(nodes, t) == nodes.filter(
            |n: Node| is_file(n) && (t.find(n.file_id) matches Some(l) && l@.dat is Some),
        ).len(),
    decreases nodes.len(),
{
    reveal(Seq::filter);
    if nodes.len() > 0 {
        law_counts_are_of_files(nodes.drop_last(), t);
    }
}

/// The summary of a version tells how many files it has, how many of them have
/// a record, and how many of those a dat, in this order.
pub proof fn law_a_summary_tells_the_counts(
    v: IndexView,
    version: Seq<char>,
    m: ManifestView,
    t: &FileTable,
    files: bool,
)
    requires
        m.nodes.len() <= u32::MAX,
    ensures
        inspect::version_lines(v, version, m, t, files).len() == 1 + if files {
            m.nodes.filter(|n: Node| is_file(n)).len()
        } else {
            0
        },
        inspect::version_lines(v, version, m, t, files)[0] == "version "@ + version + ": "@
            + text::dec(m.nodes.filter(|n: Node| is_file(n)).len()) + " files, "@ + text::dec(
            m.nodes.filter(|n: Node| is_file(n) && t.find(n.file_id) is Some).len(),
        ) + " with records, "@ + text::dec(
            m.nodes.filter(
                |n: Node| is_file(n) && (t.find(n.file_id) matches Some(l) && l@.dat is Some),
            ).len(),
        ) + " with a dat present"@,
{
    law_counts_are_of_files(m.nodes, t);
    lemma_file_lines(v, m, t, m.nodes.len());
    assert(m.nodes.take(m.nodes.len() as int) =~= m.nodes);
}

proof fn lemma_file_lines(v: IndexView, m: ManifestView, t: &FileTable, n: nat)
    requires
        n <= m.nodes.len() <= u32::MAX,
    ensures
        inspect::file_lines(v, m, t, n).len() == m.nodes.take(n as int).filter(
            |n: Node| is_file(n),
        ).len(),
        inspect::file_lines(v, m, t, n).len() == verify::file_numbers(m, n).len(),
        forall|k: int|
            0 <= k < inspect::file_lines(v, m, t, n).len() ==> #[trigger] inspect::file_lines(
                v,
                m,
                t,
                n,
            )[k] == line_of(v, m, t, verify::file_numbers(m, n)[k]),
    decreases n,
{
    reveal(Seq::filter);
    if n > 0 {
        lemma_file_lines(v, m, t, (n - 1) as nat);
        assert(m.nodes.take(n as int).drop_last() =~= m.nodes.take(n - 1));
    }
}

/// The line of the file with a number.
pub open spec fn line_of(v: IndexView, m: ManifestView, t: &FileTable, i: u32) -> Seq<char> {
    let node = m.nodes[i as int];
    inspect::file_line(v, m.path(i), node.file_id, inspect::loc_view(t.find(node.file_id)))
}

/// The files of a version are listed in the order of its manifest: there is one
/// line for each, with its own path, number and place.
pub proof fn law_each_file_has_a_line(v: IndexView, m: ManifestView, t: &FileTable, k: int)
    requires
        m.nodes.len() <= u32::MAX,
    ensures
        ({
            let numbers = verify::file_numbers(m, m.nodes.len());
            let lines = inspect::file_lines(v, m, t, m.nodes.len());
            &&& lines.len() == numbers.len()
            &&& 0 <= k < lines.len() ==> lines[k] == line_of(v, m, t, numbers[k])
        }),
{
    lemma_file_lines(v, m, t, m.nodes.len());
}

// ---- verify ---------------------------------------------------------------

proof fn lemma_file_numbers(m: ManifestView, n: nat)
    requires
        n <= m.nodes.len() <= u32::MAX,
    ensures
        forall|k: int|
            0 <= k < verify::file_numbers(m, n).len() ==> (#[trigger] verify::file_numbers(m, n)[k])
                < n && is_file(m.nodes[verify::file_numbers(m, n)[k] as int]),
        forall|i: int, j: int|
            0 <= i < j < verify::file_numbers(m, n).len() ==> (#[trigger] verify::file_numbers(
                m,
                n,
            )[i]) < (#[trigger] verify::file_numbers(m, n)[j]),
        forall|i: u32|
            i < n && is_file(#[trigger] m.nodes[i as int]) ==> verify::file_numbers(
                m,
                n,
            ).contains(i),
    decreases n,
{
    if n > 0 {
        lemma_file_numbers(m, (n - 1) as nat);
        let before = verify::file_numbers(m, (n - 1) as nat);
        let all = verify::file_numbers(m, n);
        assert forall|i: u32| i < n && is_file(#[trigger] m.nodes[i as int]) implies all.contains(
            i,
        ) by {
            if i == n - 1 {
                assert(all[all.len() - 1] == i);
            } else {
                assert(before.contains(i));
                let k = choose|k: int| 0 <= k < before.len() && before[k] == i;
                assert(all[k] == i);
            }
        }
    }
}

/// The files that are checked are all those of the manifest, each once, in order.
pub proof fn law_every_file_is_checked(m: ManifestView)
    requires
        m.nodes.len() <= u32::MAX,
    ensures
        ({
            let numbers = verify::file_numbers(m, m.nodes.len());
            &&& forall|i: u32|
                #![trigger numbers.contains(i)]
                numbers.contains(i) <==> i < m.nodes.len() && is_file(m.nodes[i as int])
            &&& forall|i: int, j: int|
                0 <= i < j < numbers.len() ==> (#[trigger] numbers[i]) < (#[trigger] numbers[j])
        }),
{
    lemma_file_numbers(m, m.nodes.len());
    let numbers = verify::file_numbers(m, m.nodes.len());
    assert forall|i: u32|
        #![trigger numbers.contains(i)]
        numbers.contains(i) <==> i < m.nodes.len() && is_file(m.nodes[i as int]) by {
        if numbers.contains(i) {
            let k = choose|k: int| 0 <= k < numbers.len() && numbers[k] == i;
            assert(is_file(m.nodes[numbers[k] as int]));
        }
        if i < m.nodes.len() && is_file(m.nodes[i as int]) {
            assert(is_file(m.nodes[i as int]));
        }
    }
}

/// The check of a file failed: it has no record, or a block of it could not be
/// had.
pub open spec fn is_failure(c: Check) -> bool {
    match c {
        Check::NoRecord => true,
        Check::Read { fault: Some(_), .. } => true,
        Check::Read { fault: None, .. } => false,
    }
}

/// `line` is that of check `i`, which failed.
#[verifier::opaque]
pub open spec fn is_line(
    m: ManifestView,
    numbers: Seq<u32>,
    checks: Seq<Check>,
    i: int,
    line: Seq<char>,
) -> bool {
    &&& 0 <= i < checks.len()
    &&& is_failure(checks[i])
    &&& verify::check_line(m.path(numbers[i]), checks[i]) == Some(line)
}

/// `line` is that of a check that failed.
pub open spec fn is_some_line(
    m: ManifestView,
    numbers: Seq<u32>,
    checks: Seq<Check>,
    line: Seq<char>,
) -> bool {
    exists|i: int| #[trigger] is_line(m, numbers, checks, i, line)
}

/// The failures are the files without a record and those with a block that could
/// not be had; and there are as many lines.
pub proof fn law_failures_are_counted(m: ManifestView, numbers: Seq<u32>, checks: Seq<Check>)
    requires
        checks.len() == numbers.len(),
    ensures
        verify::failures(checks) == checks.filter(|c: Check| is_failure(c)).len(),
        verify::check_lines(m, numbers, checks).len() == verify::failures(checks),
    decreases checks.len(),
{
    reveal(Seq::filter);
    if checks.len() > 0 {
        law_failures_are_counted(m, numbers.drop_last(), checks.drop_last());
    }
}

proof fn lemma_line_on(
    m: ManifestView,
    numbers: Seq<u32>,
    checks: Seq<Check>,
    i: int,
    line: Seq<char>,
)
    requires
        checks.len() == numbers.len(),
        checks.len() > 0,
    ensures
        is_line(m, numbers.drop_last(), checks.drop_last(), i, line) <==> i < checks.len() - 1
            && is_line(m, numbers, checks, i, line),
{
    reveal(is_line);
}

proof fn lemma_last_line(m: ManifestView, numbers: Seq<u32>, checks: Seq<Check>)
    requires
        checks.len() == numbers.len(),
        checks.len() > 0,
    ensures
        ({
            let before = verify::check_lines(m, numbers.drop_last(), checks.drop_last());
            let all = verify::check_lines(m, numbers, checks);
            if is_failure(checks.last()) {
                all.len() == before.len() + 1 && all.drop_last() == before && is_line(
                    m,
                    numbers,
                    checks,
                    checks.len() - 1,
                    all.last(),
                )
            } else {
                all == before
            }
        }),
{
    reveal(is_line);
    let before = verify::check_lines(m, numbers.drop_last(), checks.drop_last());
    let all = verify::check_lines(m, numbers, checks);
    if is_failure(checks.last()) {
        assert(all.drop_last() =~= before);
    }
}

/// Every line that is put out of the checks is that of one that failed, with its
/// own path; and every one that failed has its line.
pub proof fn law_failures_have_their_lines(m: ManifestView, numbers: Seq<u32>, checks: Seq<Check>)
    requires
        checks.len() == numbers.len(),
    ensures
        forall|k: int|
            0 <= k < verify::check_lines(m, numbers, checks).len() ==> is_some_line(
                m,
                numbers,
                checks,
                #[trigger] verify::check_lines(m, numbers, checks)[k],
            ),
        forall|i: int|
            0 <= i < checks.len() && is_failure(#[trigger] checks[i]) ==> exists|k: int|
                0 <= k < verify::check_lines(m, numbers, checks).len() && is_line(
                    m,
                    numbers,
                    checks,
                    i,
                    #[trigger] verify::check_lines(m, numbers, checks)[k],
                ),
    decreases checks.len(),
{
    if checks.len() > 0 {
        let (ns, cs) = (numbers.drop_last(), checks.drop_last());
        law_failures_have_their_lines(m, ns, cs);
        lemma_last_line(m, numbers, checks);
        let all = verify::check_lines(m, numbers, checks);
        let before = verify::check_lines(m, ns, cs);
        assert forall|k: int| 0 <= k < before.len() implies #[trigger] before[k] == all[k] by {
            if is_failure(checks.last()) {
                assert(all.drop_last()[k] == all[k]);
            }
        }
        assert forall|k: int| 0 <= k < all.len() implies is_some_line(
            m,
            numbers,
            checks,
            #[trigger] all[k],
        ) by {
            if k < before.len() {
                assert(is_some_line(m, ns, cs, before[k]));
                let i = choose|i: int| #[trigger] is_line(m, ns, cs, i, before[k]);
                lemma_line_on(m, numbers, checks, i, before[k]);
                assert(is_line(m, numbers, checks, i, all[k]));
            } else {
                assert(is_line(m, numbers, checks, checks.len() - 1, all[k]));
            }
        }
        assert forall|i: int| 0 <= i < checks.len() && is_failure(#[trigger] checks[i]) implies exists|
            k: int,
        |
            0 <= k < all.len() && is_line(m, numbers, checks, i, #[trigger] all[k]) by {
            if i < cs.len() {
                assert(is_failure(cs[i]));
                let k = choose|k: int|
                    0 <= k < before.len() && is_line(m, ns, cs, i, #[trigger] before[k]);
                lemma_line_on(m, numbers, checks, i, before[k]);
                assert(is_line(m, numbers, checks, i, all[k]));
            } else {
                assert(is_line(m, numbers, checks, i, all[all.len() - 1]));
            }
        }
    }
}

/// The blocks of each check.
pub open spec fn block_counts(checks: Seq<Check>) -> Seq<int> {
    checks.map_values(
        |c: Check|
            match c {
                Check::NoRecord => 0,
                Check::Read { blocks, .. } => blocks as int,
            },
    )
}

/// The blocks that were read are those of all the checks, those of failed ones
/// too.
pub proof fn law_blocks_add_up(checks: Seq<Check>)
    ensures
        0 <= total(block_counts(checks)),
        verify::blocks_read(checks) == counted(total(block_counts(checks)) as nat),
    decreases checks.len(),
{
    if checks.len() > 0 {
        law_blocks_add_up(checks.drop_last());
        assert(block_counts(checks).drop_last() =~= block_counts(checks.drop_last()));
    }
}

/// The sum of some numbers.
pub open spec fn total(s: Seq<int>) -> int
    decreases s.len(),
{
    if s.len() == 0 {
        0
    } else {
        total(s.drop_last()) + s.last()
    }
}

/// A file passes only where every one of its blocks is in order: the dat holds it, it
/// decodes, it is as long as it should be, and it has the checksum of its record where
/// that counts.
pub proof fn law_files_that_pass_are_in_order<B: Backend>(
    s: Setup<B>,
    past: Past,
    t: &FileTable,
    n: Node,
    loc: LocView,
    c: Seq<u8>,
    blocks: u64,
    i: int,
)
    requires
        t.find(n.file_id) matches Some(l) && l@ == loc,
        loc.dat is Some,
        loc.fits(s.index),
        laws::is_file(s.backend, s.index.dat(loc.dat->0).path, c),
        forall|j: int| 0 <= j < loc.record.blocks.len() ==> #[trigger] setup::alike(past, loc, j),
        verify::may_check(s, past, t, n, Check::Read { blocks, fault: None }),
        0 <= i < loc.record.blocks.len(),
    ensures
        blocks == loc.record.blocks.len(),
        laws::has_block(s, past, loc, c, i),
{
    assert(verify::may_have_block(s, past, loc, i));
    assert(setup::alike(past, loc, i));
    let b = choose|b: Seq<u8>| #[trigger] s.may_block(past, loc.dat->0, loc.span(i).0, b);
    laws::law_served_blocks_are_in_order(s, past, loc, c, i, b);
}

/// A file whose blocks are all in order passes.
pub proof fn law_files_in_order_pass<B: Backend>(
    s: Setup<B>,
    past: Past,
    t: &FileTable,
    n: Node,
    loc: LocView,
    c: Seq<u8>,
    check: Check,
)
    requires
        t.find(n.file_id) matches Some(l) && l@ == loc,
        loc.dat is Some,
        loc.fits(s.index),
        laws::is_file(s.backend, s.index.dat(loc.dat->0).path, c),
        forall|i: int|
            0 <= i < loc.record.blocks.len() ==> #[trigger] laws::has_block(s, past, loc, c, i),
        forall|i: int|
            0 <= i < loc.record.blocks.len() ==> #[trigger] loc.span(i).1 <= s.index.dat(
                loc.dat->0,
            ).size,
        verify::may_check(s, past, t, n, check),
    ensures
        check matches Check::Read { blocks, fault } && fault is None && blocks
            == loc.record.blocks.len(),
{
    match check {
        Check::Read { blocks, fault: Some(f) } => {
            let i = blocks - 1;
            assert(laws::has_block(s, past, loc, c, i));
            let b = choose|b: Seq<u8>| #[trigger] laws::is_block(s, past, loc, c, i, b);
            table::lemma_offsets_grow(loc.record, i);
            assert(loc.span(i).1 <= s.index.dat(loc.dat->0).size);
            laws::lemma_good_block(s, past, loc, c, i, b, f);
        },
        _ => {},
    }
}

/// A version is looked for among the blobs of its depot, by the name of its
/// directory; it is told apart whether there is no such depot or no such version.
pub proof fn law_versions_are_found_by_name(v: IndexView, depot: u32, name: Seq<char>)
    ensures
        super::version_of(v, depot, name) == Err::<BlobId, CommandFault>(CommandFault::NoDepot(depot))
            <==> !v.has_depot(depot),
        super::version_of(v, depot, name) matches Ok(b) ==> exists|k: int|
            0 <= k < v.depot(depot).names.len() && #[trigger] v.depot(depot).names[k] == name
                && v.depot(depot).blobs[k] == b.0,
        v.has_depot(depot) ==> (super::version_of(v, depot, name) == Err::<BlobId, CommandFault>(
            CommandFault::NoVersion { depot, version: name },
        ) <==> !v.depot(depot).names.contains(name)),
{
    index_laws::law_names_lead_to_their_blobs(v.depot(depot), name);
    if v.has_depot(depot) && v.depot(depot).named(name) is Some {
        let d = v.depot(depot);
        let b = d.named(name)->0;
        let k = choose|k: int|
            0 <= k < d.names.len() && #[trigger] d.names[k] == name && d.blobs[k] == b.0;
        assert(d.names.contains(d.names[k]));
    }
}

/// Keys from the command line are added one after the other; the first that is
/// refused ends it, with those before it added.
pub proof fn law_given_keys_are_added_in_order(
    keys: KeysView,
    spec: Seq<char>,
    rest: Seq<Seq<char>>,
)
    ensures
        open::with_specs(keys, Seq::empty(), 0) == (keys, None::<KeyFault>),
        open::with_specs(keys, seq![spec] + rest, 0) == match keys::spec_of(spec) {
            Err(e) => (keys, Some(e)),
            Ok(SpecView::Depot(depot, key)) => open::with_specs(
                keys.with_depot(depot, key),
                rest,
                0,
            ),
            Ok(SpecView::Blob(depot, crc, key)) => open::with_specs(
                keys.with_blob(depot, crc, key),
                rest,
                0,
            ),
        },
{
    let all = seq![spec] + rest;
    assert(all[0] == spec);
    match keys::spec_of(spec) {
        Err(_) => {},
        Ok(x) => {
            lemma_specs_shifted(keys::with_spec(keys, x), all, rest, 0);
        },
    }
}

proof fn lemma_specs_shifted(
    keys: KeysView,
    all: Seq<Seq<char>>,
    rest: Seq<Seq<char>>,
    i: int,
)
    requires
        0 <= i <= rest.len(),
        all.len() == rest.len() + 1,
        forall|k: int| 0 <= k < rest.len() ==> #[trigger] rest[k] == all[k + 1],
    ensures
        open::with_specs(keys, all, i + 1) == open::with_specs(keys, rest, i),
    decreases rest.len() - i,
{
    if i < rest.len() {
        assert(rest[i] == all[i + 1]);
        match keys::spec_of(rest[i]) {
            Err(_) => {},
            Ok(x) => {
                lemma_specs_shifted(keys::with_spec(keys, x), all, rest, i + 1);
            },
        }
    }
}

/// Where blobs are kept on disk: nowhere where that is switched off; else where it is
/// told; else in the cache directory, and in the home directory only without one.
pub proof fn law_where_blobs_are_kept(off: bool, given: bool, xdg: bool, home: bool)
    ensures
        open::cache_place_of(off, given, xdg, home) is Off <==> off,
        open::cache_place_of(off, given, xdg, home) is Given <==> !off && given,
        open::cache_place_of(off, given, xdg, home) is Xdg <==> !off && !given && xdg,
        open::cache_place_of(off, given, xdg, home) is Home <==> !off && !given && !xdg && home,
{
}

// ---- whole commands -------------------------------------------------------

/// The files of a version all pass.
pub open spec fn all_pass<B: Backend>(
    s: Setup<B>,
    past: Past,
    m: ManifestView,
    t: &FileTable,
    checks: Seq<Check>,
) -> bool {
    let numbers = verify::file_numbers(m, m.nodes.len());
    &&& checks.len() == numbers.len()
    &&& forall|k: int|
        0 <= k < checks.len() ==> !is_failure(#[trigger] checks[k]) && verify::may_check(
            s,
            past,
            t,
            m.nodes[numbers[k] as int],
            checks[k],
        )
}

proof fn lemma_no_failures(checks: Seq<Check>)
    ensures
        verify::failures(checks) == 0 ==> forall|k: int|
            0 <= k < checks.len() ==> !is_failure(#[trigger] checks[k]),
    decreases checks.len(),
{
    if checks.len() > 0 && verify::failures(checks) == 0 {
        lemma_no_failures(checks.drop_last());
        assert forall|k: int| 0 <= k < checks.len() implies !is_failure(#[trigger] checks[k]) by {
            if k < checks.len() - 1 {
                assert(checks.drop_last()[k] == checks[k]);
            }
        }
    }
}

/// A version is told to be in order only where it is there and every one of its
/// files passes.
pub proof fn law_verified_versions_are_in_order<B: Backend>(
    s: Setup<B>,
    before: Past,
    after: Past,
    depot: u32,
    version: Seq<char>,
    lines: Seq<Seq<char>>,
)
    requires
        verify::may_verify(s, before, after, depot, version, lines, Ok(())),
    ensures
        super::version_of(s.index, depot, version) is Ok,
        exists|t: FileTable, p: ParsedView, checks: Seq<Check>|
            inspect::may_hold(s, super::version_of(s.index, depot, version)->Ok_0, t, p)
                && #[trigger] all_pass(s, after, p.manifest, &t, checks),
        lines.len() == 1,
{
    let id = super::version_of(s.index, depot, version)->Ok_0;
    let ok: CommandOutcome<()> = Ok(());
    let (t, p, checks) = choose|t: FileTable, p: ParsedView, checks: Seq<Check>|
        #![trigger inspect::may_hold(s, id, t, p), verify::failures(checks)]
        inspect::may_hold(s, id, t, p) && verify::only_of(&t, before, after) && verify::may_report(
            s,
            after,
            p.manifest,
            &t,
            checks,
            lines,
            ok,
        );
    lemma_no_failures(checks);
    let numbers = verify::file_numbers(p.manifest, p.manifest.nodes.len());
    law_failures_are_counted(p.manifest, numbers, checks);
    assert(all_pass(s, after, p.manifest, &t, checks));
}

/// Where files fail, as many are told of as failed: there is a line for each, and one
/// behind them that tells how many files there are, how many blocks were read and how
/// many files failed.
pub proof fn law_failed_versions_tell_their_failures<B: Backend>(
    s: Setup<B>,
    past: Past,
    m: ManifestView,
    t: &FileTable,
    checks: Seq<Check>,
    lines: Seq<Seq<char>>,
    r: CommandOutcome<()>,
)
    requires
        verify::may_report(s, past, m, t, checks, lines, r),
    ensures
        ({
            let failed = checks.filter(|c: Check| is_failure(c)).len();
            &&& lines.len() == failed + 1
            &&& lines.last() == text::dec(verify::file_numbers(m, m.nodes.len()).len())
                + " files, "@ + text::dec(counted(total(block_counts(checks)) as nat))
                + " blocks read, "@ + text::dec(failed) + " failures"@
            &&& r is Ok <==> failed == 0
            &&& r is Err ==> r->Err_0 == CommandFault::Failed(failed as u64)
        }),
{
    let numbers = verify::file_numbers(m, m.nodes.len());
    law_failures_are_counted(m, numbers, checks);
    law_blocks_add_up(checks);
}

/// What is put out of a depot: how many versions it has and whether its key is known,
/// and a line for each version, in order, with what could be parsed of its own blob.
pub proof fn law_a_depot_is_inspected<B: Backend>(
    s: Setup<B>,
    depot: u32,
    files: bool,
    lines: Seq<Seq<char>>,
    r: CommandOutcome<()>,
    k: int,
)
    requires
        inspect::may_inspect(s, depot, None, files, lines, r),
    ensures
        !s.index.has_depot(depot) ==> lines.len() == 0 && r == Err::<(), CommandFault>(
            CommandFault::NoDepot(depot),
        ),
        s.index.has_depot(depot) ==> r is Ok && lines.len() == s.index.depot(depot).blobs.len() + 1,
        s.index.has_depot(depot) ==> lines[0] == "depot "@ + text::dec(depot as nat) + ": "@
            + text::dec(s.index.depot(depot).blobs.len()) + " blobs, key "@ + if s.keys.get(
            depot,
        ) is Some {
            "known"@
        } else {
            "UNKNOWN"@
        },
        s.index.has_depot(depot) && 0 <= k < s.index.depot(depot).blobs.len() ==> exists|
            o: Outcome<ParsedView>,
        | #[trigger]
            s.may_parse(BlobId(s.index.depot(depot).blobs[k]), o) && lines[k + 1]
                == inspect::version_line(
                s.index,
                depot,
                s.index.depot(depot).names[k],
                BlobId(s.index.depot(depot).blobs[k]),
                match o {
                    Ok(p) => Some(p),
                    Err(_) => None,
                },
            ),
{
    if s.index.has_depot(depot) && 0 <= k < s.index.depot(depot).blobs.len() {
        assert(inspect::may_version_line(s, depot, k, lines[k + 1]));
        let d = s.index.depot(depot);
        let b = BlobId(d.blobs[k]);
        let o = choose|o: Outcome<ParsedView>| #[trigger]
            s.may_parse(b, o) && lines[k + 1] == inspect::version_line(
                s.index,
                depot,
                d.names[k],
                b,
                tree::parsed_as(o),
            );
        assert(s.may_parse(BlobId(s.index.depot(depot).blobs[k]), o));
    }
}

/// The line of a version tells its name, its date, and how its dat is: as long as it
/// was listed, where it is there; which is missing, where it is not; and nothing where
/// the blob cannot be read.
pub proof fn law_what_the_line_of_a_version_tells(
    v: IndexView,
    depot: u32,
    name: Seq<char>,
    b: BlobId,
    p: ParsedView,
)
    ensures
        ({
            let e = v.blobs[b.0 as int];
            let head = "  "@ + super::left(name, 14) + " "@ + (match e.date {
                Some(d) => calendar::stamp(d.secs as nat),
                None => "-"@,
            }) + "  "@;
            &&& inspect::version_line(v, depot, name, b, None) == head + "(blob unreadable)"@
            &&& v.find_dat(depot, e.version, p.meta.dat_crc) is None ==> inspect::version_line(
                v,
                depot,
                name,
                b,
                Some(p),
            ) == head + ("dat "@ + text::hex8(p.meta.dat_crc as nat) + " MISSING"@)
            &&& v.find_dat(depot, e.version, p.meta.dat_crc) matches Some(d) ==> {
                let dat = v.dats[d.0 as int];
                inspect::version_line(v, depot, name, b, Some(p)) == head + ("dat "@ + text::dec(
                    dat.size as nat,
                ) + " bytes"@ + if dat.incomplete {
                    " (incomplete)"@
                } else {
                    ""@
                })
            }
        }),
{
}

/// A text is filled up with spaces behind it to a width, and never cut.
pub proof fn law_texts_are_filled_up(s: Seq<char>, width: nat)
    ensures
        super::left(s, width).len() == if s.len() < width {
            width
        } else {
            s.len()
        },
        super::left(s, width).take(s.len() as int) == s,
        forall|i: int|
            s.len() <= i < super::left(s, width).len() ==> (#[trigger] super::left(s, width)[i]) == ' ',
{
    assert(super::left(s, width).take(s.len() as int) =~= s);
}

/// The line of one version of a chain tells it, its blob, the parent that the blob
/// records, its dat and whether that is there, and what its manifest says.
pub proof fn law_what_the_line_of_a_chain_tells(
    v: IndexView,
    depot: u32,
    b: BlobId,
    p: ParsedView,
    prev: Seq<char>,
    state: Seq<char>,
)
    requires
        prev == match p.meta.prev {
            Some((version, crc)) => text::dec(version as nat) + "-"@ + text::hex8(crc as nat),
            None => "-"@,
        },
        match v.find_dat(depot, v.blobs[b.0 as int].version, p.meta.dat_crc) {
            None => state == "MISSING"@,
            Some(d) => if v.dats[d.0 as int].incomplete {
                state == "incomplete"@
            } else {
                state == "ok"@
            },
        },
    ensures
        inspect::chain_line(v, depot, b, p) == "  v"@ + super::left(
            text::dec(v.blobs[b.0 as int].version as nat),
            5,
        ) + " blob "@ + text::hex8(v.blobs[b.0 as int].crc as nat) + " prev "@ + super::left(prev, 16)
            + " dat "@ + text::hex8(p.meta.dat_crc as nat) + " "@ + super::left(state, 10)
            + " manifest app "@ + text::dec(p.manifest.app_id as nat) + " ver "@ + text::dec(
            p.manifest.version_id as nat,
        ) + " nodes "@ + text::dec(p.manifest.nodes.len()) + " records "@ + text::dec(
            p.records.len(),
        ),
{
}

/// The line of a file tells its path and number; how, in how many bytes and blocks it
/// is stored and which version brought it, where it has a record; and whether its dat
/// or its record is missing.
pub proof fn law_what_the_line_of_a_file_tells(
    v: IndexView,
    path: Seq<u8>,
    file_id: u32,
    l: LocView,
    mode: Seq<char>,
)
    requires
        shown::named_mode(l.record.mode, mode),
    ensures
        ({
            let head = "  "@ + text::lossy(path) + "  id "@ + text::dec(file_id as nat);
            &&& inspect::file_line(v, path, file_id, None) == head + " NO RECORD"@
            &&& inspect::file_line(v, path, file_id, Some(l)) == head + " "@ + mode + " "@
                + text::dec(l.record.size as nat) + " bytes, "@ + text::dec(l.record.blocks.len())
                + " blocks, from v"@ + text::dec(v.blobs[l.source.0 as int].version as nat) + " "@
                + if l.dat is None {
                "(dat missing)"@
            } else {
                ""@
            }
        }),
{
}

/// The line of a file that failed tells its path, and why: it has no record, or what
/// reading it came to.
pub proof fn law_what_the_line_of_a_failure_tells(path: Seq<u8>, blocks: u64, f: ReadFault)
    ensures
        verify::check_line(path, Check::NoRecord) == Some("NO RECORD  "@ + text::lossy(path)),
        verify::check_line(path, Check::Read { blocks, fault: Some(f) }) == Some(
            "FAIL  "@ + text::lossy(path) + ": "@ + f.text(),
        ),
        verify::check_line(path, Check::Read { blocks, fault: None }) is None,
{
}

/// What is put out of a chain: how long it is, and a line for each of its versions,
/// the root first, from what its own blob holds; it breaks off only where one cannot be
/// parsed.
pub proof fn law_a_chain_is_put_out<B: Backend>(
    s: Setup<B>,
    depot: u32,
    c: Seq<BlobId>,
    lines: Seq<Seq<char>>,
    r: Outcome<()>,
    k: int,
)
    requires
        inspect::may_chain_part(s, depot, c, lines, r),
    ensures
        lines[0] == "chain ("@ + text::dec(c.len()) + " versions, root first):"@,
        r is Ok ==> lines.len() == c.len() + 1,
        r matches Err(f) ==> lines.len() <= c.len() && s.may_parse(c[lines.len() - 1], Err(f)),
        0 <= k < lines.len() - 1 ==> exists|p: ParsedView| #[trigger]
            s.may_parse(c[k], Ok(p)) && lines[k + 1] == inspect::chain_line(s.index, depot, c[k], p),
{
    if 0 <= k < lines.len() - 1 {
        assert(inspect::may_chain_line(s, depot, c[k], lines[k + 1]));
    }
}

/// The lines of an audit tell of the blob whose key was found elsewhere, for which none
/// was found, or which could not be read; and the summary tells the counts in this
/// order: those with encrypted files, with their own key, with another's, with none,
/// and those that could not be read.
pub proof fn law_what_the_lines_of_an_audit_tell(
    e: crate::index::BlobView,
    key: chunk::Key,
    from: u32,
    tried: usize,
    f: ReadFault,
    t: TallyView,
)
    ensures
        audit::resolved_audit(e, KeyResolution::Discovered(key, from)) == (AuditView::Discovered {
            line: "DISCOVERED "@ + e.file_name + " <- depot "@ + text::dec(from as nat)
                + "'s key"@,
            key: "# "@ + e.file_name + " (key of depot "@ + text::dec(from as nat) + ")\n"@
                + keys::written(e.depot, e.crc, key@),
        }),
        audit::resolved_audit(e, KeyResolution::Nothing { tried }) == (AuditView::NoKey {
            line: "NO KEY "@ + e.file_name + " (tried "@ + text::dec(tried as nat) + ")"@,
        }),
        audit::unreadable(e, f, true) == (AuditView::Unreadable {
            line: "UNREADABLE "@ + e.file_name + ": "@ + f.text(),
            encrypted: true,
        }),
        audit::unreadable(e, f, false) == (AuditView::Unreadable {
            line: "UNREADABLE "@ + e.file_name + ": "@ + f.whole_text(),
            encrypted: false,
        }),
        t.summary() == text::dec(t.encrypted_blobs as nat) + " blobs with encrypted files: "@
            + text::dec(t.ok as nat) + " decrypt with the configured key, "@ + text::dec(
            t.discovered as nat,
        ) + " with another depot's key, "@ + text::dec(t.no_key as nat) + " with no known key, "@
            + text::dec(t.unreadable as nat) + " unreadable"@,
{
}

/// The lines of a tally are those of the blobs that it tells of, in the order they were
/// audited in.
pub proof fn law_a_tally_keeps_the_lines_in_order(
    t: TallyView,
    a: Seq<AuditView>,
    x: AuditView,
)
    ensures
        t.with_all(a.push(x)) == t.with_all(a).with(x),
        t.with_all(Seq::empty()) == t,
        match x {
            AuditView::Clear => t.with(x) == t,
            AuditView::Configured => t.with(x).lines == t.lines && t.with(x).found == t.found,
            AuditView::Discovered { line, key } => t.with(x).lines == t.lines.push(line) && t.with(
                x,
            ).found == t.found.push(key),
            AuditView::NoKey { line } => t.with(x).lines == t.lines.push(line) && t.with(x).found
                == t.found,
            AuditView::Unreadable { line, .. } => t.with(x).lines == t.lines.push(line) && t.with(
                x,
            ).found == t.found,
        },
{
    assert(a.push(x).drop_last() =~= a);
}

/// What is put out of a version: its depot, its chain, its summary and, where they are
/// wanted, its files, one behind the other, all of that version.
pub proof fn law_a_version_is_inspected<B: Backend>(
    s: Setup<B>,
    depot: u32,
    name: Seq<char>,
    files: bool,
    lines: Seq<Seq<char>>,
) -> (r: (BlobId, Seq<BlobId>, FileTable, ParsedView))
    requires
        inspect::may_inspect(s, depot, Some(name), files, lines, Ok(())),
    ensures
        super::version_of(s.index, depot, name) == Ok::<BlobId, CommandFault>(r.0),
        s.may_chain(r.0, r.1),
        s.may_table(&r.2),
        r.2.blob == r.0,
        s.may_parse(r.0, Ok(r.3)),
        lines.len() >= r.1.len() + 2,
        lines[0] == inspect::depot_line(
            depot,
            s.index.depot(depot).blobs.len(),
            s.keys.get(depot) is Some,
        ),
        inspect::may_chain_part(s, depot, r.1, lines.subrange(1, r.1.len() as int + 2), Ok(())),
        lines.skip(r.1.len() as int + 2) == inspect::version_lines(
            s.index,
            name,
            r.3.manifest,
            &r.2,
            files,
        ),
{
    let id = super::version_of(s.index, depot, name)->Ok_0;
    let rest = lines.skip(1);
    let ok: Outcome<()> = Ok(());
    let (n, first) = choose|n: int, first: Outcome<()>|
        #![trigger inspect::may_chain_lines(s, depot, id, rest.take(n), first)]
        0 <= n <= rest.len() && inspect::may_chain_lines(s, depot, id, rest.take(n), first)
            && match first {
            Ok(_) => inspect::may_report(s, id, name, files, rest.skip(n), ok),
            Err(_) => n == rest.len() && ok == first,
        };
    let c = choose|c: Seq<BlobId>| #[trigger]
        s.may_chain(id, c) && inspect::may_chain_part(s, depot, c, rest.take(n), first);
    let (t, p) = choose|t: FileTable, p: ParsedView| #[trigger]
        inspect::may_hold(s, id, t, p) && rest.skip(n) == inspect::version_lines(
            s.index,
            name,
            p.manifest,
            &t,
            files,
        );
    assert(rest.take(n) =~= lines.subrange(1, c.len() as int + 2));
    assert(rest.skip(n) =~= lines.skip(c.len() as int + 2));
    (id, c, t, p)
}

/// A blob with encrypted files is tried on the first of them that stores a block, as
/// its version sees that file.
pub proof fn law_an_audit_is_made_on_the_first_encrypted_file<B: Backend>(
    s: Setup<B>,
    known: Map<u32, KeyResolution>,
    id: BlobId,
    p: ParsedView,
    a: AuditView,
    k: int,
)
    requires
        setup::steady(s.backend),
        s.may_parse(id, Ok(p)),
        audit::may_audit(s, known, id, a),
        0 <= k < p.records.len(),
        stores_encrypted(p.records[k]),
        forall|j: int| 0 <= j < k ==> !#[trigger] stores_encrypted(p.records[j]),
    ensures
        exists|at: Outcome<LocView>| #[trigger]
            tree::may_find(s, id, p.records[k].file_id, at) && match at {
                Err(f) => a == audit::unreadable(s.index.blobs[id.0 as int], f, true),
                Ok(loc) => exists|r: Outcome<KeyResolution>| #[trigger]
                    s.may_probe(known, loc, r) && a == match r {
                        Ok(key) => audit::resolved_audit(s.index.blobs[id.0 as int], key),
                        Err(f) => audit::unreadable(s.index.blobs[id.0 as int], f, true),
                    },
            },
{
    let e = s.index.blob(id);
    let o = choose|o: Outcome<ParsedView>| #[trigger]
        s.may_parse(id, o) && match o {
            Err(f) => a == audit::unreadable(e, f, false),
            Ok(p) => audit::may_audit_parsed(s, known, id, p, a),
        };
    setup::law_steady_blobs(s, id, o, Ok(p));
    law_first_encrypted(p.records);
    let rec = audit::first_encrypted(p.records)->0;
    let i = choose|i: int|
        0 <= i < p.records.len() && p.records[i] == rec && #[trigger] stores_encrypted(
            p.records[i],
        ) && forall|j: int| 0 <= j < i ==> !#[trigger] stores_encrypted(p.records[j]);
    assert(i == k) by {
        if i < k {
            assert(!stores_encrypted(p.records[i]));
        }
        if k < i {
            assert(!stores_encrypted(p.records[k]));
        }
    }
    let at = choose|at: Outcome<LocView>| #[trigger]
        tree::may_find(s, id, rec.file_id, at) && audit::may_try(s, known, id, at, a);
    assert(tree::may_find(s, id, p.records[k].file_id, at));
}

/// Lines that are sorted stand as words do in a dictionary: where two first differ, the
/// later one has the greater character, and a line stands before those that go on from
/// it.
pub proof fn law_sorted_lines_stand_as_words(
    lines: Seq<Seq<char>>,
    i: int,
    j: int,
    front: Seq<char>,
    x: char,
    a: Seq<char>,
    y: char,
    b: Seq<char>,
)
    requires
        audit::is_sorted(lines),
        0 <= i < j < lines.len(),
    ensures
        lines[i] == front + seq![x] + a && lines[j] == front + seq![y] + b ==> x <= y,
        !(lines[j] == front && lines[i] == front + seq![x] + a),
{
    let f = sort::char_key(front);
    let (ka, kb) = (sort::char_key(a), sort::char_key(b));
    sort_laws::law_keys_are_ordered_as_words(f, x as int, ka, y as int, kb);
    if lines[i] == front + seq![x] + a {
        assert(sort::char_key(lines[i]) =~= f + seq![x as int] + ka);
    }
    if lines[j] == front + seq![y] + b {
        assert(sort::char_key(lines[j]) =~= f + seq![y as int] + kb);
    }
    assert(sort::rank(sort::char_key(lines[i]), sort::char_key(lines[j])) != Rank::Greater);
}

/// What each failure of a command says.
pub proof fn law_what_failed_commands_say(depot: u32, version: Seq<char>, f: ReadFault, n: u64)
    ensures
        CommandFault::NoDepot(depot).text() == "depot "@ + text::dec(depot as nat)
            + " is not in the dump"@,
        (CommandFault::NoVersion { depot, version }).text() == "depot "@ + text::dec(depot as nat)
            + " has no version "@ + text::quoted(version),
        CommandFault::Read(f).text() == f.whole_text(),
        CommandFault::Failed(n).text() == text::dec(n as nat) + " files failed verification"@,
{
}

} // verus!
