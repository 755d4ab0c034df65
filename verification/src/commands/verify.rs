//! Reading every block of one version.

use vstd::prelude::*;

use super::inspect::may_hold;
use super::{
    line_views, put_line, resolve_version, shown, CommandError, CommandFault, CommandOutcome,
};
use crate::backend::Backend;
use crate::format::manifest::{ManifestView, Node};
use crate::index::BlobId;
use crate::store::contents::ParsedView;
use crate::store::error::{ReadError, ReadFault};
use crate::store::setup;
use crate::store::setup::{Past, Setup};
use crate::store::table::{FileLoc, FileTable, LocView};
use crate::store::Store;
use crate::text;

verus! {

/// How the check of one file went.
pub enum Check {
    /// The version chain has no record of it.
    NoRecord,
    /// So many of its blocks were read, the last of which may have failed.
    Read { blocks: u64, fault: Option<ReadFault> },
}

impl Check {
    pub open spec fn failed(self) -> bool {
        match self {
            Check::NoRecord => true,
            Check::Read { fault, .. } => fault is Some,
        }
    }

    pub open spec fn blocks(self) -> nat {
        match self {
            Check::NoRecord => 0,
            Check::Read { blocks, .. } => blocks as nat,
        }
    }
}

/// Block `i` of a file may be had by a store that has been through `past`.
pub open spec fn may_have_block<B: Backend>(s: Setup<B>, past: Past, loc: LocView, i: int) -> bool {
    exists|b: Seq<u8>| #[trigger] s.may_block(past, loc.dat->0, loc.span(i).0, b)
}

/// Reading the blocks of a file in order, up to the first that fails, may go
/// as `c` tells.
pub open spec fn may_read_blocks<B: Backend>(
    s: Setup<B>,
    past: Past,
    loc: LocView,
    blocks: u64,
    fault: Option<ReadFault>,
) -> bool {
    match fault {
        None => {
            &&& blocks == loc.record.blocks.len()
            &&& forall|j: int| 0 <= j < blocks ==> #[trigger] may_have_block(s, past, loc, j)
        },
        Some(f) => {
            &&& 0 < blocks <= loc.record.blocks.len()
            &&& forall|j: int| 0 <= j < blocks - 1 ==> #[trigger] may_have_block(s, past, loc, j)
            &&& s.may_block_fail(past, loc, blocks - 1, f)
        },
    }
}

/// The check of the file of a node may go as `c` tells.
pub open spec fn may_check<B: Backend>(
    s: Setup<B>,
    past: Past,
    t: &FileTable,
    n: Node,
    c: Check,
) -> bool {
    match t.find(n.file_id) {
        None => c == Check::NoRecord,
        Some(l) => c matches Check::Read { blocks, fault } && may_read_blocks(
            s,
            past,
            l@,
            blocks,
            fault,
        ),
    }
}

/// The numbers of the files among the first `n` nodes.
pub open spec fn file_numbers(m: ManifestView, n: nat) -> Seq<u32>
    decreases n,
{
    if n == 0 {
        Seq::empty()
    } else {
        let before = file_numbers(m, (n - 1) as nat);
        if m.nodes[n - 1].dir() {
            before
        } else {
            before.push((n - 1) as u32)
        }
    }
}

/// Each of the files may have been checked as `checks` tells.
pub open spec fn may_checks<B: Backend>(
    s: Setup<B>,
    past: Past,
    m: ManifestView,
    t: &FileTable,
    numbers: Seq<u32>,
    checks: Seq<Check>,
) -> bool {
    &&& checks.len() == numbers.len()
    &&& forall|k: int|
        0 <= k < numbers.len() ==> may_check(
            s,
            past,
            t,
            m.nodes[numbers[k] as int],
            #[trigger] checks[k],
        )
}

/// The line of a file whose check failed.
pub open spec fn check_line(path: Seq<u8>, c: Check) -> Option<Seq<char>> {
    match c {
        Check::NoRecord => Some("NO RECORD  "@ + text::lossy(path)),
        Check::Read { fault: Some(f), .. } => Some(
            "FAIL  "@ + text::lossy(path) + ": "@ + f.text(),
        ),
        Check::Read { fault: None, .. } => None,
    }
}

/// The lines of the files whose check failed.
pub open spec fn check_lines(m: ManifestView, numbers: Seq<u32>, checks: Seq<Check>) -> Seq<
    Seq<char>,
>
    decreases checks.len(),
{
    if checks.len() == 0 || numbers.len() == 0 {
        Seq::empty()
    } else {
        let before = check_lines(m, numbers.drop_last(), checks.drop_last());
        match check_line(m.path(numbers.last()), checks.last()) {
            Some(line) => before.push(line),
            None => before,
        }
    }
}

pub open spec fn failures(checks: Seq<Check>) -> nat
    decreases checks.len(),
{
    if checks.len() == 0 {
        0
    } else {
        failures(checks.drop_last()) + if checks.last().failed() {
            1nat
        } else {
            0
        }
    }
}

/// How many blocks were read, as far as 64 bits can count.
pub open spec fn blocks_read(checks: Seq<Check>) -> nat
    decreases checks.len(),
{
    if checks.len() == 0 {
        0
    } else {
        let n = blocks_read(checks.drop_last()) + checks.last().blocks();
        if n <= u64::MAX {
            n
        } else {
            u64::MAX as nat
        }
    }
}

pub open spec fn total_line(files: nat, blocks: nat, failed: nat) -> Seq<char> {
    text::dec(files) + " files, "@ + text::dec(blocks) + " blocks read, "@ + text::dec(failed)
        + " failures"@
}

/// There is a line for each file whose check failed, and for no other.
pub proof fn law_failures_are_reported(m: ManifestView, numbers: Seq<u32>, checks: Seq<Check>)
    requires
        checks.len() == numbers.len(),
    ensures
        check_lines(m, numbers, checks).len() == failures(checks),
        failures(checks) == 0 <==> forall|k: int|
            0 <= k < checks.len() ==> !(#[trigger] checks[k]).failed(),
    decreases checks.len(),
{
    if checks.len() > 0 {
        let fewer = checks.drop_last();
        law_failures_are_reported(m, numbers.drop_last(), fewer);
        if failures(checks) == 0 {
            assert forall|k: int| 0 <= k < checks.len() implies !(#[trigger] checks[k]).failed() by {
                if k < fewer.len() {
                    assert(fewer[k] == checks[k]);
                }
            }
        } else if failures(fewer) != 0 {
            let k = choose|k: int| 0 <= k < fewer.len() && (#[trigger] fewer[k]).failed();
            assert(checks[k].failed());
        } else {
            assert(checks[checks.len() - 1].failed());
        }
    }
}

/// Every file that has been asked for since `before` is one that the table
/// finds.
pub open spec fn only_of(t: &FileTable, before: Past, after: Past) -> bool {
    forall|l: LocView| #[trigger]
        after.files.contains(l) && !before.files.contains(l) ==> is_of(t, l)
}

/// The table finds the file.
pub open spec fn is_of(t: &FileTable, l: LocView) -> bool {
    exists|f: u32| (#[trigger] t.find(f)) matches Some(x) && x@ == l
}

/// What the command puts out may be `lines`, and it may end as `r`, for a store
/// that goes from `before` to `after`.
pub open spec fn may_verify<B: Backend>(
    s: Setup<B>,
    before: Past,
    after: Past,
    depot: u32,
    version: Seq<char>,
    lines: Seq<Seq<char>>,
    r: CommandOutcome<()>,
) -> bool {
    match super::version_of(s.index, depot, version) {
        Err(f) => lines.len() == 0 && r == Err::<(), CommandFault>(f) && after == before,
        Ok(id) => may_verify_version(s, before, after, id, lines, r),
    }
}

/// What the command puts out of a version may be `lines`, and it may end as
/// `r`.
pub open spec fn may_verify_version<B: Backend>(
    s: Setup<B>,
    before: Past,
    after: Past,
    id: BlobId,
    lines: Seq<Seq<char>>,
    r: CommandOutcome<()>,
) -> bool {
    ||| {
        &&& lines.len() == 0
        &&& after == before
        &&& r matches Err(CommandFault::Read(f))
        &&& s.may_parse(id, Err(f)) || exists|x: BlobId| #[trigger]
            s.reaches(id, x) && s.may_parse(x, Err(f))
    }
    ||| exists|t: FileTable, p: ParsedView, checks: Seq<Check>|
        #![trigger may_hold(s, id, t, p), failures(checks)]
        may_hold(s, id, t, p) && only_of(&t, before, after) && may_report(
            s,
            after,
            p.manifest,
            &t,
            checks,
            lines,
            r,
        )
}

/// What is put out of some checks, and how they end.
pub open spec fn may_report<B: Backend>(
    s: Setup<B>,
    past: Past,
    m: ManifestView,
    t: &FileTable,
    checks: Seq<Check>,
    lines: Seq<Seq<char>>,
    r: CommandOutcome<()>,
) -> bool {
    let numbers = file_numbers(m, m.nodes.len());
    &&& may_checks(s, past, m, t, numbers, checks)
    &&& lines == check_lines(m, numbers, checks).push(
        total_line(numbers.len(), blocks_read(checks), failures(checks)),
    )
    &&& r == if failures(checks) == 0 {
        Ok(())
    } else {
        Err(CommandFault::Failed(failures(checks) as u64))
    }
}

/// What a store goes through later takes nothing away.
proof fn lemma_check_later<B: Backend>(
    s: Setup<B>,
    past: Past,
    later: Past,
    t: &FileTable,
    n: Node,
    c: Check,
)
    requires
        later.covers(past),
        may_check(s, past, t, n, c),
    ensures
        may_check(s, later, t, n, c),
{
    if let Some(l) = t.find(n.file_id) {
        assert forall|j: int|
            may_have_block(s, past, l@, j) implies #[trigger] may_have_block(s, later, l@, j) by {
            lemma_block_later(s, past, later, l@, j);
        }
        if let Check::Read { blocks, fault: Some(f) } = c {
            setup::lemma_fails_later(s, past, later, l@, blocks - 1, f);
        }
    }
}

proof fn lemma_block_later<B: Backend>(
    s: Setup<B>,
    past: Past,
    later: Past,
    loc: LocView,
    j: int,
)
    requires
        later.covers(past),
        may_have_block(s, past, loc, j),
    ensures
        may_have_block(s, later, loc, j),
{
    let b = choose|b: Seq<u8>| #[trigger] s.may_block(past, loc.dat->0, loc.span(j).0, b);
    setup::lemma_later(s, past, later, loc.dat->0, loc.span(j).0, b);
}

/// Read the blocks of a file in order, up to the first that fails.
fn read_blocks<B: Backend>(store: &mut Store<B>, loc: &FileLoc) -> (r: (u64, Option<ReadError>))
    requires
        old(store).wf(),
        loc@.fits(old(store).setup().index),
    ensures
        final(store).wf(),
        final(store).setup() == old(store).setup(),
        final(store).past().covers(old(store).past()),
        forall|l: LocView| #[trigger]
            final(store).past().files.contains(l) ==> old(store).past().files.contains(l) || l
                == loc@,
        may_read_blocks(
            old(store).setup(),
            final(store).past(),
            loc@,
            r.0,
            match r.1 {
                Some(e) => Some(e@),
                None => None,
            },
        ),
{
    let ghost s = store.setup();
    let n: u64 = loc.record.num_blocks() as u64;
    let mut i: u64 = 0;
    while i < n
        invariant
            i <= n,
            n == loc@.record.blocks.len(),
            store.wf(),
            store.setup() == s,
            s == old(store).setup(),
            loc@.fits(s.index),
            store.past().covers(old(store).past()),
            forall|l: LocView| #[trigger]
                store.past().files.contains(l) ==> old(store).past().files.contains(l) || l
                    == loc@,
            forall|j: int| 0 <= j < i ==> #[trigger] may_have_block(s, store.past(), loc@, j),
        decreases n - i,
    {
        let ghost begun = store.past();
        let got = store.block(loc, i);
        proof {
            setup::lemma_covers(old(store).past(), begun, store.past());
            assert forall|j: int| 0 <= j < i implies #[trigger] may_have_block(
                s,
                store.past(),
                loc@,
                j,
            ) by {
                lemma_block_later(s, begun, store.past(), loc@, j);
            }
        }
        match got {
            Ok(_) => {
                assert(may_have_block(s, store.past(), loc@, i as int));
            },
            Err(e) => {
                return (i + 1, Some(e));
            },
        }
        i += 1;
    }
    (n, None)
}

/// Read every block of one version and report checksum failures; `out` has a
/// line for each file that failed.
pub fn verify<B: Backend>(
    store: &mut Store<B>,
    depot: u32,
    version: &str,
    out: &mut Vec<String>,
) -> (r: core::result::Result<(), CommandError>)
    requires
        old(store).wf(),
        old(out)@.len() == 0,
    ensures
        final(store).wf(),
        final(store).setup() == old(store).setup(),
        may_verify(
            old(store).setup(),
            old(store).past(),
            final(store).past(),
            depot,
            version@,
            line_views(final(out)@),
            shown(r),
        ),
        final(store).past().covers(old(store).past()),
{
    let ghost s = store.setup();
    let id = match resolve_version(store.index(), depot, version) {
        Ok(b) => b,
        Err(e) => {
            return Err(e);
        },
    };
    let t = match store.table(id) {
        Ok(t) => t,
        Err(e) => {
            return Err(CommandError::Read(e));
        },
    };
    let p = match store.parsed(id) {
        Ok(p) => p,
        Err(e) => {
            return Err(CommandError::Read(e));
        },
    };
    let ghost checks = Seq::<Check>::empty();
    let ghost m = p@.manifest;
    let nodes = p.manifest.nodes();
    let (mut files, mut blocks, mut failed): (u64, u64, u64) = (0, 0, 0);
    let mut i: usize = 0;
    proof {
        p.manifest.lemma_sound();
        store.lemma_sizes();
        assert(line_views(out@) =~= Seq::<Seq<char>>::empty());
    }
    while i < nodes.len()
        invariant
            i <= nodes@.len(),
            nodes@ == m.nodes,
            m == p@.manifest,
            p.wf(),
            m.nodes.len() <= u32::MAX,
            s.index.dats.len() <= u32::MAX,
            s.may_table(&*t),
            store.wf(),
            store.setup() == s,
            s == old(store).setup(),
            files == file_numbers(m, i as nat).len(),
            files <= i,
            failed <= files,
            blocks == blocks_read(checks),
            failed == failures(checks),
            store.past().covers(old(store).past()),
            only_of(&*t, old(store).past(), store.past()),
            may_checks(s, store.past(), m, &*t, file_numbers(m, i as nat), checks),
            line_views(out@) == check_lines(m, file_numbers(m, i as nat), checks),
        decreases nodes@.len() - i,
    {
        let n = &nodes[i];
        if !n.is_dir() {
            let ghost numbers = file_numbers(m, (i + 1) as nat);
            let path = p.manifest.path(i as u32);
            let name = text::from_utf8_lossy(path.as_slice());
            files += 1;
            let ghost before = checks;
            let ghost begun = store.past();
            let ghost c: Check;
            match t.get(n.file_id) {
                None => {
                    proof {
                        c = Check::NoRecord;
                    }
                    let mut line = text::owned("NO RECORD  ");
                    text::push_text(&mut line, name.as_str());
                    assert(check_line(path@, c) == Some(line@));
                    put_line(out, line);
                    failed += 1;
                },
                Some(loc) => {
                    proof {
                        setup::lemma_found_fits(s, &*t, n.file_id);
                    }
                    let (count, fault) = read_blocks(store, &**loc);
                    proof {
                        c = Check::Read {
                            blocks: count,
                            fault: match &fault {
                                Some(e) => Some(e@),
                                None => None,
                            },
                        };
                    }
                    blocks = blocks.saturating_add(count);
                    match fault {
                        Some(e) => {
                            let why = e.message();
                            let mut line = text::owned("FAIL  ");
                            text::push_text(&mut line, name.as_str());
                            text::push_text(&mut line, ": ");
                            text::push_text(&mut line, why.as_str());
                            assert(check_line(path@, c) == Some(line@));
                            put_line(out, line);
                            failed += 1;
                        },
                        None => {},
                    }
                },
            }
            proof {
                checks = before.push(c);
                assert(checks.drop_last() =~= before);
                assert(numbers.drop_last() =~= file_numbers(m, i as nat));
                assert(may_check(s, store.past(), &*t, m.nodes[i as int], c));
                setup::lemma_covers(old(store).past(), begun, store.past());
                assert forall|l: LocView| #[trigger]
                    store.past().files.contains(l) && !old(store).past().files.contains(
                        l,
                    ) implies is_of(&*t, l) by {
                    if !begun.files.contains(l) {
                        assert(t.find(n.file_id) matches Some(x) && x@ == l);
                    }
                }
                assert forall|k: int| 0 <= k < numbers.len() implies may_check(
                    s,
                    store.past(),
                    &*t,
                    m.nodes[numbers[k] as int],
                    #[trigger] checks[k],
                ) by {
                    if k < before.len() {
                        assert(checks[k] == before[k]);
                        assert(numbers[k] == file_numbers(m, i as nat)[k]);
                        lemma_check_later(
                            s,
                            begun,
                            store.past(),
                            &*t,
                            m.nodes[numbers[k] as int],
                            before[k],
                        );
                    }
                }
            }
        }
        i += 1;
    }
    let mut total = String::new();
    text::push_dec(&mut total, files);
    text::push_text(&mut total, " files, ");
    text::push_dec(&mut total, blocks);
    text::push_text(&mut total, " blocks read, ");
    text::push_dec(&mut total, failed);
    text::push_text(&mut total, " failures");
    assert(total@ =~= total_line(files as nat, blocks as nat, failed as nat));
    put_line(out, total);
    proof {
        assert(may_hold(s, id, *t, p@));
        assert(failures(checks) == failed);
    }
    if failed == 0 {
        Ok(())
    } else {
        Err(CommandError::Failed(failed))
    }
}

} // verus!
