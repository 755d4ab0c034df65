//! Which encrypted blobs the known keys actually decrypt.

use vstd::prelude::*;

use super::line_views;
use crate::backend::Backend;
use crate::format::checksums;
use crate::format::checksums::{FileRecord, FileView};
use crate::index;
use crate::index::{BlobEntry, BlobId, BlobView, Index, IndexView};
use crate::keys;
use crate::sort;
use crate::sort::{Keyed, Rank};
use crate::store::block::KeyResolution;
use crate::store::contents::ParsedView;
use crate::store::error::{Outcome, ReadError, ReadFault};
use crate::store::setup::{Past, Setup};
use crate::store::table::LocView;
use crate::store::Store;
use crate::text;
use crate::tree;

verus! {

// ---- which blobs ----------------------------------------------------------

/// The blobs of some depots, or of the one that is wanted.
pub open spec fn chosen(v: IndexView, depots: Seq<u32>, only: Option<u32>) -> Seq<u32>
    decreases depots.len(),
{
    if depots.len() == 0 {
        Seq::empty()
    } else {
        let d = depots.last();
        chosen(v, depots.drop_last(), only) + if only is None || only == Some(d) {
            v.listing(d)
        } else {
            Seq::empty()
        }
    }
}

/// The blobs to look at: those of every depot, or of the one that is wanted.
pub fn audit_list(ix: &Index, only: Option<u32>) -> (r: Vec<BlobId>)
    requires
        ix.wf(),
    ensures
        index::ids(r@) == chosen(ix@, ix@.depot_list(), only),
        forall|k: int| 0 <= k < r@.len() ==> ix@.has_blob(#[trigger] r@[k]),
{
    let ghost v = ix@;
    let ghost nums = v.depot_list();
    let depots = ix.depots();
    proof {
        let listed = depots@.map_values(|d: (u32, index::Depot)| d.0);
        assert forall|d: u32| listed.contains(d) <==> #[trigger] v.has_depot(d) by {
            if listed.contains(d) {
                let k = choose|k: int| 0 <= k < listed.len() && listed[k] == d;
                assert(depots@[k].0 == d);
            }
            if v.has_depot(d) {
                let k = choose|k: int| 0 <= k < depots@.len() && (#[trigger] depots@[k]).0 == d;
                assert(listed[k] == d);
            }
        }
        assert(v.is_depot_list(listed));
        index::lemma_depot_list(v, listed);
        assert forall|k: int| 0 <= k < depots@.len() implies nums[k] == (#[trigger] depots@[k]).0 by {
            assert(listed[k] == depots@[k].0);
        }
    }
    let mut out: Vec<BlobId> = Vec::new();
    let mut i: usize = 0;
    assert(index::ids(out@) =~= chosen(v, nums.take(0), only));
    while i < depots.len()
        invariant
            i <= depots@.len(),
            ix.wf(),
            v == ix@,
            nums.len() == depots@.len(),
            forall|k: int|
                0 <= k < depots@.len() ==> nums[k] == (#[trigger] depots@[k]).0
                    && depots@[k].1.wf() && depots@[k].1@ == v.depot(depots@[k].0) && v.has_depot(
                    depots@[k].0,
                ),
            index::ids(out@) == chosen(v, nums.take(i as int), only),
            forall|k: int| 0 <= k < out@.len() ==> v.has_blob(#[trigger] out@[k]),
        decreases depots@.len() - i,
    {
        let d: u32 = depots[i].0;
        let wanted = match only {
            None => true,
            Some(w) => w == d,
        };
        proof {
            assert(nums.take(i + 1).drop_last() =~= nums.take(i as int));
            assert(nums.take(i + 1).last() == d);
        }
        if wanted {
            let versions = depots[i].1.versions();
            let ghost before = out@;
            let ghost list = v.listing(d);
            let mut k: usize = 0;
            proof {
                ix.lemma_listings(d);
                assert(index::ids(before) + list.take(0) =~= index::ids(before));
            }
            while k < versions.len()
                invariant
                    k <= versions@.len(),
                    versions@.len() == list.len(),
                    list == v.listing(d),
                    v.is_listing(d, list),
                    forall|j: int|
                        0 <= j < versions@.len() ==> (#[trigger] versions@[j]).1 == BlobId(list[j]),
                    index::ids(out@) == index::ids(before) + list.take(k as int),
                    forall|j: int| 0 <= j < out@.len() ==> v.has_blob(#[trigger] out@[j]),
                decreases versions@.len() - k,
            {
                let b = versions[k].1;
                let ghost so_far = out@;
                proof {
                    assert(list.contains(list[k as int]));
                    assert(v.in_depot(d, list[k as int]));
                }
                out.push(b);
                proof {
                    assert(index::ids(out@) =~= index::ids(so_far).push(b.0));
                    assert(list.take(k + 1) =~= list.take(k as int).push(list[k as int]));
                    assert(index::ids(out@) =~= index::ids(before) + list.take(k + 1));
                }
                k += 1;
            }
            assert(list.take(k as int) =~= list);
        } else {
            assert(index::ids(out@) + Seq::<u32>::empty() =~= index::ids(out@));
        }
        i += 1;
    }
    assert(nums.take(i as int) =~= nums);
    out
}

// ---- one blob -------------------------------------------------------------

/// How the keys stand to one blob.
#[derive(Debug)]
pub enum Audit {
    /// It has no encrypted file that stores anything.
    Clear,
    /// The configured key decrypts it.
    Configured,
    /// The key of another depot decrypts it: what to report, and the key to
    /// write down.
    Discovered { line: String, key: String },
    /// No known key decrypts it.
    NoKey { line: String },
    /// It cannot be told; whether the blob has encrypted files is known once
    /// it has been parsed.
    Unreadable { line: String, encrypted: bool },
}

/// An `Audit`, as the contracts see it.
#[allow(inconsistent_fields)]
pub enum AuditView {
    Clear,
    Configured,
    Discovered { line: Seq<char>, key: Seq<char> },
    NoKey { line: Seq<char> },
    Unreadable { line: Seq<char>, encrypted: bool },
}

impl View for Audit {
    type V = AuditView;

    open spec fn view(&self) -> AuditView {
        match self {
            Audit::Clear => AuditView::Clear,
            Audit::Configured => AuditView::Configured,
            Audit::Discovered { line, key } => AuditView::Discovered { line: line@, key: key@ },
            Audit::NoKey { line } => AuditView::NoKey { line: line@ },
            Audit::Unreadable { line, encrypted } => AuditView::Unreadable {
                line: line@,
                encrypted: *encrypted,
            },
        }
    }
}

/// The first encrypted file that stores anything.
pub open spec fn first_encrypted(records: Seq<FileView>) -> Option<FileView>
    decreases records.len(),
{
    if records.len() == 0 {
        None
    } else if records[0].mode.encrypted() && records[0].blocks.len() > 0 {
        Some(records[0])
    } else {
        first_encrypted(records.skip(1))
    }
}

fn find_encrypted(records: &Vec<FileRecord>) -> (r: Option<&FileRecord>)
    ensures
        match r {
            Some(x) => first_encrypted(checksums::file_views(records@)) == Some(x@),
            None => first_encrypted(checksums::file_views(records@)) is None,
        },
{
    let ghost all = checksums::file_views(records@);
    let mut i: usize = 0;
    assert(all.skip(0) =~= all);
    while i < records.len()
        invariant
            i <= records@.len(),
            all == checksums::file_views(records@),
            first_encrypted(all) == first_encrypted(all.skip(i as int)),
        decreases records@.len() - i,
    {
        proof {
            assert(all.skip(i as int)[0] == records@[i as int]@);
            assert(all.skip(i as int).skip(1) =~= all.skip(i + 1));
        }
        let r = &records[i];
        if r.mode.is_encrypted() && r.blocks.len() > 0 {
            return Some(r);
        }
        i += 1;
    }
    None
}

/// A blob that could not be parsed is reported with what that came from;
/// one that has encrypted files, which could not be tried, in brief.
pub open spec fn unreadable(e: BlobView, f: ReadFault, encrypted: bool) -> AuditView {
    let why = if encrypted {
        f.text()
    } else {
        f.whole_text()
    };
    AuditView::Unreadable { line: "UNREADABLE "@ + e.file_name + ": "@ + why, encrypted }
}

fn report_unreadable(e: &BlobEntry, f: &ReadError, encrypted: bool) -> (r: Audit)
    ensures
        r@ == unreadable(e@, f@, encrypted),
{
    let why = if encrypted {
        f.message()
    } else {
        f.whole_message()
    };
    let mut line = text::owned("UNREADABLE ");
    text::push_text(&mut line, e.file_name.as_str());
    text::push_text(&mut line, ": ");
    text::push_text(&mut line, why.as_str());
    Audit::Unreadable { line, encrypted }
}

/// How the keys stand to a blob, from how its key was resolved.
pub open spec fn resolved_audit(e: BlobView, k: KeyResolution) -> AuditView {
    match k {
        KeyResolution::Configured(_) => AuditView::Configured,
        KeyResolution::Discovered(key, from) => AuditView::Discovered {
            line: "DISCOVERED "@ + e.file_name + " <- depot "@ + text::dec(from as nat)
                + "'s key"@,
            key: "# "@ + e.file_name + " (key of depot "@ + text::dec(from as nat) + ")\n"@
                + keys::written(e.depot, e.crc, key@),
        },
        KeyResolution::Nothing { tried } => AuditView::NoKey {
            line: "NO KEY "@ + e.file_name + " (tried "@ + text::dec(tried as nat) + ")"@,
        },
    }
}

/// How the keys stand to a blob, from how its key was resolved.
pub fn report_resolved(e: &BlobEntry, k: &KeyResolution) -> (r: Audit)
    ensures
        r@ == resolved_audit(e@, *k),
{
    match k {
        KeyResolution::Configured(_) => Audit::Configured,
        KeyResolution::Discovered(key, from) => {
            let mut line = text::owned("DISCOVERED ");
            text::push_text(&mut line, e.file_name.as_str());
            text::push_text(&mut line, " <- depot ");
            text::push_dec(&mut line, *from as u64);
            text::push_text(&mut line, "'s key");
            let spec_line = keys::key_line(e.depot, e.crc, key);
            let mut found = text::owned("# ");
            text::push_text(&mut found, e.file_name.as_str());
            text::push_text(&mut found, " (key of depot ");
            text::push_dec(&mut found, *from as u64);
            text::push_text(&mut found, ")\n");
            text::push_text(&mut found, spec_line.as_str());
            Audit::Discovered { line, key: found }
        },
        KeyResolution::Nothing { tried } => {
            let mut line = text::owned("NO KEY ");
            text::push_text(&mut line, e.file_name.as_str());
            text::push_text(&mut line, " (tried ");
            text::push_dec(&mut line, *tried as u64);
            text::push_text(&mut line, ")");
            Audit::NoKey { line }
        },
    }
}

/// The audit of a blob, where the keys of `known` are resolved, may come to
/// `a`, given the file that it is tried on.
pub open spec fn may_try<B: Backend>(
    s: Setup<B>,
    known: Map<u32, KeyResolution>,
    id: BlobId,
    at: Outcome<LocView>,
    a: AuditView,
) -> bool {
    let e = s.index.blob(id);
    match at {
        Err(f) => a == unreadable(e, f, true),
        Ok(loc) => exists|k: Outcome<KeyResolution>| #[trigger]
            s.may_probe(known, loc, k) && a == match k {
                Ok(k) => resolved_audit(e, k),
                Err(f) => unreadable(e, f, true),
            },
    }
}

/// The audit of a blob, where the keys of `known` are resolved, may come to
/// `a`, given what the blob holds.
pub open spec fn may_audit_parsed<B: Backend>(
    s: Setup<B>,
    known: Map<u32, KeyResolution>,
    id: BlobId,
    p: ParsedView,
    a: AuditView,
) -> bool {
    match first_encrypted(p.records) {
        None => a == AuditView::Clear,
        Some(rec) => exists|at: Outcome<LocView>| #[trigger]
            tree::may_find(s, id, rec.file_id, at) && may_try(s, known, id, at, a),
    }
}

/// The audit of a blob, where the keys of `known` are resolved, may come to
/// `a`.
pub open spec fn may_audit<B: Backend>(
    s: Setup<B>,
    known: Map<u32, KeyResolution>,
    id: BlobId,
    a: AuditView,
) -> bool {
    let e = s.index.blob(id);
    exists|o: Outcome<ParsedView>| #[trigger]
        s.may_parse(id, o) && match o {
            Err(f) => a == unreadable(e, f, false),
            Ok(p) => may_audit_parsed(s, known, id, p, a),
        }
}

/// Find out how the keys stand to one blob.
pub fn audit_blob<B: Backend>(store: &mut Store<B>, id: BlobId) -> (r: Audit)
    requires
        old(store).wf(),
        old(store).setup().index.has_blob(id),
    ensures
        final(store).wf(),
        final(store).setup() == old(store).setup(),
        may_audit(old(store).setup(), old(store).resolved(), id, r@),
        final(store).past().covers(old(store).past()),
{
    let ghost s = store.setup();
    let ghost known = store.resolved();
    let p = match store.parsed(id) {
        Ok(p) => p,
        Err(e) => {
            let ghost o: Outcome<ParsedView> = Err(e@);
            assert(s.may_parse(id, o));
            return report_unreadable(store.index().blob(id), &e, false);
        },
    };
    let ghost o: Outcome<ParsedView> = Ok(p@);
    assert(s.may_parse(id, o));
    let file_id: u32 = match find_encrypted(&p.records) {
        Some(rec) => rec.file_id,
        None => {
            return Audit::Clear;
        },
    };
    let ghost rec = first_encrypted(p@.records)->0;
    assert(first_encrypted(p@.records) == Some(rec));
    assert(rec.file_id == file_id);
    let loc = match store.locate(id, file_id) {
        Ok(l) => l,
        Err(e) => {
            let ghost at: Outcome<LocView> = Err(e@);
            assert(tree::may_find(s, id, file_id, at));
            let r = report_unreadable(store.index().blob(id), &e, true);
            assert(may_try(s, known, id, at, r@));
            assert(may_audit_parsed(s, known, id, p@, r@));
            return r;
        },
    };
    let ghost at: Outcome<LocView> = Ok(loc@);
    assert(tree::may_find(s, id, file_id, at));
    let r = match store.probe_key(&*loc) {
        Ok(k) => {
            let ghost probed: Outcome<KeyResolution> = Ok(k);
            assert(s.may_probe(known, loc@, probed));
            report_resolved(store.index().blob(id), &k)
        },
        Err(e) => {
            let ghost probed: Outcome<KeyResolution> = Err(e@);
            assert(s.may_probe(known, loc@, probed));
            report_unreadable(store.index().blob(id), &e, true)
        },
    };
    assert(may_try(s, known, id, at, r@));
    assert(may_audit_parsed(s, known, id, p@, r@));
    r
}

// ---- all of them ----------------------------------------------------------

/// A count, as far as 64 bits go.
pub open spec fn one_more(n: u64) -> u64 {
    if n == u64::MAX {
        n
    } else {
        (n + 1) as u64
    }
}

/// What has been found out so far.
pub struct Tally {
    pub encrypted_blobs: u64,
    pub ok: u64,
    pub discovered: u64,
    pub no_key: u64,
    pub unreadable: u64,
    /// What to report.
    pub lines: Vec<String>,
    /// The keys to write down.
    pub found: Vec<String>,
}

/// A `Tally`, as the contracts see it.
#[verifier::ext_equal]
pub struct TallyView {
    pub encrypted_blobs: u64,
    pub ok: u64,
    pub discovered: u64,
    pub no_key: u64,
    pub unreadable: u64,
    pub lines: Seq<Seq<char>>,
    pub found: Seq<Seq<char>>,
}

impl View for Tally {
    type V = TallyView;

    open spec fn view(&self) -> TallyView {
        TallyView {
            encrypted_blobs: self.encrypted_blobs,
            ok: self.ok,
            discovered: self.discovered,
            no_key: self.no_key,
            unreadable: self.unreadable,
            lines: line_views(self.lines@),
            found: line_views(self.found@),
        }
    }
}

impl TallyView {
    pub open spec fn none() -> TallyView {
        TallyView {
            encrypted_blobs: 0,
            ok: 0,
            discovered: 0,
            no_key: 0,
            unreadable: 0,
            lines: Seq::empty(),
            found: Seq::empty(),
        }
    }

    /// With one more blob.
    pub open spec fn with(self, a: AuditView) -> TallyView {
        match a {
            AuditView::Clear => self,
            AuditView::Configured => TallyView {
                encrypted_blobs: one_more(self.encrypted_blobs),
                ok: one_more(self.ok),
                ..self
            },
            AuditView::Discovered { line, key } => TallyView {
                encrypted_blobs: one_more(self.encrypted_blobs),
                discovered: one_more(self.discovered),
                lines: self.lines.push(line),
                found: self.found.push(key),
                ..self
            },
            AuditView::NoKey { line } => TallyView {
                encrypted_blobs: one_more(self.encrypted_blobs),
                no_key: one_more(self.no_key),
                lines: self.lines.push(line),
                ..self
            },
            AuditView::Unreadable { line, encrypted } => TallyView {
                encrypted_blobs: if encrypted {
                    one_more(self.encrypted_blobs)
                } else {
                    self.encrypted_blobs
                },
                unreadable: one_more(self.unreadable),
                lines: self.lines.push(line),
                ..self
            },
        }
    }

    /// With some blobs, one after the other.
    pub open spec fn with_all(self, audits: Seq<AuditView>) -> TallyView
        decreases audits.len(),
    {
        if audits.len() == 0 {
            self
        } else {
            self.with_all(audits.drop_last()).with(audits.last())
        }
    }

    /// The line that sums it up.
    pub open spec fn summary(self) -> Seq<char> {
        text::dec(self.encrypted_blobs as nat) + " blobs with encrypted files: "@ + text::dec(
            self.ok as nat,
        ) + " decrypt with the configured key, "@ + text::dec(self.discovered as nat)
            + " with another depot's key, "@ + text::dec(self.no_key as nat)
            + " with no known key, "@ + text::dec(self.unreadable as nat) + " unreadable"@
    }
}

/// Every blob with encrypted files is counted once: it decrypts with the
/// configured key, with that of another depot, with none, or is unreadable.
pub proof fn law_counts_add_up(audits: Seq<AuditView>)
    requires
        audits.len() < u64::MAX,
    ensures
        ({
            let t = TallyView::none().with_all(audits);
            &&& t.ok + t.discovered + t.no_key <= t.encrypted_blobs <= t.ok + t.discovered
                + t.no_key + t.unreadable
            &&& t.ok + t.discovered + t.no_key + t.unreadable <= audits.len()
            &&& t.lines.len() == t.discovered + t.no_key + t.unreadable
            &&& t.found.len() == t.discovered
        }),
    decreases audits.len(),
{
    if audits.len() > 0 {
        law_counts_add_up(audits.drop_last());
    }
}

fn count(n: u64) -> (r: u64)
    ensures
        r == one_more(n),
{
    n.saturating_add(1)
}

impl Tally {
    pub fn new() -> (r: Tally)
        ensures
            r@ == TallyView::none(),
    {
        let t = Tally {
            encrypted_blobs: 0,
            ok: 0,
            discovered: 0,
            no_key: 0,
            unreadable: 0,
            lines: Vec::new(),
            found: Vec::new(),
        };
        assert(t@ =~= TallyView::none());
        t
    }

    /// Take one more blob.
    pub fn add_audit(&mut self, a: Audit)
        ensures
            final(self)@ == old(self)@.with(a@),
    {
        match a {
            Audit::Clear => {},
            Audit::Configured => {
                self.encrypted_blobs = count(self.encrypted_blobs);
                self.ok = count(self.ok);
            },
            Audit::Discovered { line, key } => {
                self.encrypted_blobs = count(self.encrypted_blobs);
                self.discovered = count(self.discovered);
                super::put_line(&mut self.lines, line);
                super::put_line(&mut self.found, key);
            },
            Audit::NoKey { line } => {
                self.encrypted_blobs = count(self.encrypted_blobs);
                self.no_key = count(self.no_key);
                super::put_line(&mut self.lines, line);
            },
            Audit::Unreadable { line, encrypted } => {
                if encrypted {
                    self.encrypted_blobs = count(self.encrypted_blobs);
                }
                self.unreadable = count(self.unreadable);
                super::put_line(&mut self.lines, line);
            },
        }
    }

    /// The line that sums it up.
    pub fn summary(&self) -> (r: String)
        ensures
            r@ == self@.summary(),
    {
        let mut s = text::decimal(self.encrypted_blobs);
        text::push_text(&mut s, " blobs with encrypted files: ");
        text::push_dec(&mut s, self.ok);
        text::push_text(&mut s, " decrypt with the configured key, ");
        text::push_dec(&mut s, self.discovered);
        text::push_text(&mut s, " with another depot's key, ");
        text::push_dec(&mut s, self.no_key);
        text::push_text(&mut s, " with no known key, ");
        text::push_dec(&mut s, self.unreadable);
        text::push_text(&mut s, " unreadable");
        s
    }
}

/// The line that says where the keys were written.
pub fn wrote_line(n: usize, path: &str) -> (r: String)
    ensures
        r@ == "wrote "@ + text::dec(n as nat) + " discovered keys to "@ + path@,
{
    let mut s = text::owned("wrote ");
    text::push_dec(&mut s, n as u64);
    text::push_text(&mut s, " discovered keys to ");
    text::push_text(&mut s, path);
    s
}

/// The blobs may have been audited one after the other as `audits` tells, by a
/// store that has been through `past` then.
pub open spec fn may_audit_all<B: Backend>(
    s: Setup<B>,
    past: Past,
    ids: Seq<u32>,
    audits: Seq<AuditView>,
) -> bool {
    &&& audits.len() == ids.len()
    &&& forall|k: int|
        0 <= k < ids.len() ==> #[trigger] may_audit_some(s, past, ids[k], audits[k])
}

/// The audit of a blob may come to `a`, whichever of the keys were resolved by
/// then.
pub open spec fn may_audit_some<B: Backend>(
    s: Setup<B>,
    past: Past,
    id: u32,
    a: AuditView,
) -> bool {
    exists|known: Map<u32, KeyResolution>| #[trigger]
        may_audit(s, known, BlobId(id), a) && known.submap_of(past.keys)
}

proof fn lemma_audit_later<B: Backend>(
    s: Setup<B>,
    past: Past,
    later: Past,
    id: u32,
    a: AuditView,
)
    requires
        later.covers(past),
        may_audit_some(s, past, id, a),
    ensures
        may_audit_some(s, later, id, a),
{
    let known = choose|known: Map<u32, KeyResolution>| #[trigger]
        may_audit(s, known, BlobId(id), a) && known.submap_of(past.keys);
    assert forall|k: u32| #[trigger] known.dom().contains(k) implies later.keys.dom().contains(k)
        && later.keys[k] == known[k] by {
        assert(past.keys.dom().contains(k));
    }
    assert(may_audit(s, known, BlobId(id), a) && known.submap_of(later.keys));
}

/// Find out how the keys stand to the blobs of every depot, or of the one that
/// is wanted.
pub fn key_audit<B: Backend>(store: &mut Store<B>, only: Option<u32>) -> (r: Tally)
    requires
        old(store).wf(),
    ensures
        final(store).wf(),
        final(store).setup() == old(store).setup(),
        ({
            let s = old(store).setup();
            exists|audits: Seq<AuditView>| #[trigger]
                may_audit_all(
                    s,
                    final(store).past(),
                    chosen(s.index, s.index.depot_list(), only),
                    audits,
                ) && r@ == TallyView::none().with_all(audits)
        }),
        final(store).past().covers(old(store).past()),
        old(store).setup().may_know(final(store).past()),
{
    let ghost s = store.setup();
    let blobs = audit_list(store.index(), only);
    let ghost ids = index::ids(blobs@);
    let ghost mut audits = Seq::<AuditView>::empty();
    let mut tally = Tally::new();
    let mut i: usize = 0;
    while i < blobs.len()
        invariant
            i <= blobs@.len(),
            ids == index::ids(blobs@),
            store.wf(),
            store.setup() == s,
            s == old(store).setup(),
            forall|k: int| 0 <= k < blobs@.len() ==> s.index.has_blob(#[trigger] blobs@[k]),
            audits.len() == i,
            store.past().covers(old(store).past()),
            forall|k: int|
                0 <= k < i ==> #[trigger] may_audit_some(s, store.past(), ids[k], audits[k]),
            tally@ == TallyView::none().with_all(audits),
        decreases blobs@.len() - i,
    {
        let id = blobs[i];
        assert(s.index.has_blob(blobs@[i as int]));
        let ghost begun = store.past();
        let ghost known = store.resolved();
        let a = audit_blob(store, id);
        let ghost seen = a@;
        let ghost before = audits;
        tally.add_audit(a);
        proof {
            audits = before.push(seen);
            assert(audits.drop_last() =~= before);
            assert(ids[i as int] == id.0);
            assert(may_audit(s, known, BlobId(ids[i as int]), seen) && known.submap_of(
                store.past().keys,
            ));
            crate::store::setup::lemma_covers(old(store).past(), begun, store.past());
            assert forall|k: int| 0 <= k < i + 1 implies #[trigger] may_audit_some(
                s,
                store.past(),
                ids[k],
                audits[k],
            ) by {
                if k < i {
                    assert(may_audit_some(s, begun, ids[k], before[k]));
                    lemma_audit_later(s, begun, store.past(), ids[k], before[k]);
                }
            }
        }
        i += 1;
    }
    proof {
        store.lemma_resolved();
        assert(may_audit_all(s, store.past(), ids, audits));
    }
    tally
}

// ---- the report -----------------------------------------------------------

/// Lines by number.
struct Lines {
    chars: Vec<Vec<char>>,
}

impl Keyed for Lines {
    closed spec fn has(&self, i: u32) -> bool {
        i < self.chars@.len()
    }

    closed spec fn key(&self, i: u32) -> Seq<int> {
        sort::char_key(self.chars@[i as int]@)
    }

    fn compare(&self, a: u32, b: u32) -> (r: Rank) {
        sort::compare_chars(
            self.chars[a as usize].as_slice(),
            self.chars[b as usize].as_slice(),
        )
    }
}

/// `p` names each of `n` things once.
pub open spec fn is_shuffle(p: Seq<u32>, n: nat) -> bool {
    &&& p.len() == n
    &&& p.no_duplicates()
    &&& forall|i: int| 0 <= i < p.len() ==> #[trigger] p[i] < n
}

/// No line comes before one that it is greater than.
pub open spec fn is_sorted(lines: Seq<Seq<char>>) -> bool {
    forall|i: int, j: int|
        0 <= i < j < lines.len() ==> sort::rank(
            sort::char_key(#[trigger] lines[i]),
            sort::char_key(#[trigger] lines[j]),
        ) != Rank::Greater
}

/// `out` has the lines of `lines`, in another order.
pub open spec fn is_reordered(out: Seq<Seq<char>>, lines: Seq<Seq<char>>) -> bool {
    exists|p: Seq<u32>| #[trigger]
        is_shuffle(p, lines.len()) && out.len() == lines.len() && forall|k: int|
            0 <= k < out.len() ==> (#[trigger] out[k]) == lines[p[k] as int]
}

/// The lines of a report, sorted.
pub fn sorted_lines(lines: &Vec<String>) -> (out: Vec<String>)
    requires
        lines@.len() <= u32::MAX,
    ensures
        is_sorted(line_views(out@)),
        is_reordered(line_views(out@), line_views(lines@)),
{
    let ghost all = line_views(lines@);
    let mut keys = Lines { chars: Vec::new() };
    let mut places: Vec<u32> = Vec::new();
    let mut i: usize = 0;
    while i < lines.len()
        invariant
            i <= lines@.len(),
            lines@.len() <= u32::MAX,
            keys.chars@.len() == i,
            places@.len() == i,
            forall|k: int| 0 <= k < i ==> #[trigger] places@[k] == k,
            forall|k: int| 0 <= k < i ==> (#[trigger] keys.chars@[k])@ == lines@[k]@,
        decreases lines@.len() - i,
    {
        keys.chars.push(text::chars_of(lines[i].as_str()));
        places.push(i as u32);
        i += 1;
    }
    let order = sort::sorted(&keys, &places);
    let ghost p = order@;
    proof {
        assert forall|k: int| 0 <= k < p.len() implies #[trigger] p[k] < all.len() by {
            assert(p.contains(p[k]));
            assert(places@.contains(p[k]));
            let j = choose|j: int| 0 <= j < places@.len() && places@[j] == p[k];
            assert(places@[j] == j);
        }
        assert forall|a: int, b: int| 0 <= a < p.len() && 0 <= b < p.len() && a != b implies p[a]
            != p[b] by {
            sort::lemma_precedes_total(&keys, p[a], p[b]);
            if a < b {
                assert(sort::precedes(&keys, p[a], p[b]));
            } else {
                assert(sort::precedes(&keys, p[b], p[a]));
            }
        }
        assert(is_shuffle(p, all.len()));
    }
    let mut out: Vec<String> = Vec::new();
    let mut k: usize = 0;
    while k < order.len()
        invariant
            k <= order@.len(),
            p == order@,
            all == line_views(lines@),
            is_shuffle(p, all.len()),
            line_views(out@).len() == k,
            forall|j: int| 0 <= j < k ==> (#[trigger] line_views(out@)[j]) == all[p[j] as int],
        decreases order@.len() - k,
    {
        let at: usize = order[k] as usize;
        assert(p[k as int] < all.len());
        let line = text::owned(lines[at].as_str());
        let ghost before = line_views(out@);
        super::put_line(&mut out, line);
        assert forall|j: int| 0 <= j < k + 1 implies (#[trigger] line_views(out@)[j])
            == all[p[j] as int] by {
            if j < k {
                assert(line_views(out@)[j] == before[j]);
            }
        }
        k += 1;
    }
    proof {
        let got = line_views(out@);
        assert forall|a: int, b: int| 0 <= a < b < got.len() implies sort::rank(
            sort::char_key(#[trigger] got[a]),
            sort::char_key(#[trigger] got[b]),
        ) != Rank::Greater by {
            assert(sort::precedes(&keys, p[a], p[b]));
            assert(keys.chars@[p[a] as int]@ == got[a]);
            assert(keys.chars@[p[b] as int]@ == got[b]);
        }
    }
    out
}

} // verus!
