//! The keys that an audit finds, written down to be read again.

use vstd::prelude::*;

use super::audit;
use super::audit::{AuditView, TallyView};
use super::line_views;
use crate::backend::Backend;
use crate::codec;
use crate::format::chunk::Key;
use crate::index::{BlobId, BlobView, Index};
use crate::keys;
use crate::keys::{KeyFault, KeysView};
use crate::store::block::KeyResolution;
use crate::store::contents::ParsedView;
use crate::store::error::Outcome;
use crate::store::setup::{Past, Setup};
use crate::store::table::LocView;
use crate::text;
use crate::tree;

verus! {

/// The text of a keys file: what was found, each with a line feed behind it.
pub open spec fn keys_text(found: Seq<Seq<char>>) -> Seq<char>
    decreases found.len(),
{
    if found.len() == 0 {
        Seq::empty()
    } else {
        keys_text(found.drop_last()) + found.last() + "\n"@
    }
}

/// The text to append to a keys file.
pub fn keys_file(found: &Vec<String>) -> (r: String)
    ensures
        r@ == keys_text(line_views(found@)),
{
    let ghost all = line_views(found@);
    let mut out = String::new();
    let mut i: usize = 0;
    assert(out@ =~= keys_text(all.take(0)));
    while i < found.len()
        invariant
            i <= found@.len(),
            all == line_views(found@),
            out@ == keys_text(all.take(i as int)),
        decreases found@.len() - i,
    {
        text::push_text(&mut out, found[i].as_str());
        text::push_text(&mut out, "\n");
        assert(all.take(i + 1).drop_last() =~= all.take(i as int));
        assert(all.take(i + 1).last() == found@[i as int]@);
        i += 1;
    }
    assert(all.take(i as int) =~= all);
    out
}

/// A key that was found for a blob, and the depot that it is of.
pub struct Discovery {
    pub blob: BlobView,
    pub key: Key,
    pub from: u32,
}

impl Discovery {
    /// What is written down of it.
    pub open spec fn written(self) -> Seq<char> {
        audit::resolved_audit(self.blob, KeyResolution::Discovered(self.key, self.from))->key
    }

    /// The comment above the key.
    pub open spec fn comment(self) -> Seq<char> {
        "# "@ + self.blob.file_name + " (key of depot "@ + text::dec(self.from as nat) + ")"@
    }

    /// The line with the key.
    pub open spec fn line(self) -> Seq<char> {
        keys::written(self.blob.depot, self.blob.crc, self.key@)
    }
}

/// What is written down of some keys.
pub open spec fn all_written(found: Seq<Discovery>) -> Seq<Seq<char>> {
    found.map_values(|d: Discovery| d.written())
}

/// Keys with those that were found, each for its blob.
pub open spec fn with_found(keys: KeysView, found: Seq<Discovery>) -> KeysView
    decreases found.len(),
{
    if found.len() == 0 {
        keys
    } else {
        let d = found.last();
        with_found(keys, found.drop_last()).with_blob(d.blob.depot, d.blob.crc, d.key)
    }
}

/// A text that ends with a line, or is empty.
spec fn is_ended(s: Seq<char>) -> bool {
    s.len() == 0 || s.last() == '\n'
}

/// One more line at the end of a text is one more line.
proof fn lemma_one_more_line(s: Seq<char>, line: Seq<char>)
    requires
        is_ended(s),
        !line.contains('\n'),
    ensures
        text::lines(s + line + seq!['\n']) == text::lines(s).push(text::chomp(line)),
    decreases s.len(),
{
    let t = s + line + seq!['\n'];
    text::lemma_find(s, '\n');
    if s.len() == 0 {
        assert forall|j: int| 0 <= j < line.len() implies t[j] != '\n' by {
            assert(line.contains(line[j]));
        }
        text::lemma_find_is(t, '\n', line.len() as int);
        assert(t.take(line.len() as int) =~= line);
        assert(t.skip(line.len() as int + 1) =~= Seq::<char>::empty());
        assert(text::lines(Seq::<char>::empty()) =~= Seq::empty());
        assert(text::lines(s) =~= Seq::empty());
        assert(text::lines(t) =~= text::lines(s).push(text::chomp(line)));
    } else {
        assert(s.contains(s[s.len() - 1]));
        let i = text::find(s, '\n')->0;
        let rest = s.skip(i + 1);
        text::lemma_find_is(t, '\n', i);
        assert(t.take(i) =~= s.take(i));
        assert(t.skip(i + 1) =~= rest + line + seq!['\n']);
        assert(is_ended(rest)) by {
            if rest.len() > 0 {
                assert(rest.last() == s.last());
            }
        }
        lemma_one_more_line(rest, line);
        assert(text::lines(t) =~= text::lines(s).push(text::chomp(line)));
    }
}

/// Lines that were all taken can be followed by one more.
proof fn lemma_with_lines_on(keys: KeysView, lines: Seq<Seq<char>>, line: Seq<char>, i: int)
    requires
        0 <= i <= lines.len(),
        keys::with_lines(keys, lines, i).1 is None,
    ensures
        keys::with_lines(keys, lines.push(line), i) == keys::with_lines(
            keys::with_lines(keys, lines, i).0,
            seq![line],
            0,
        ),
    decreases lines.len() - i,
{
    let more = lines.push(line);
    reveal_with_fuel(keys::with_lines, 2);
    if i < lines.len() {
        assert(more[i] == lines[i]);
        if keys::is_comment(text::trim(lines[i])) {
            lemma_with_lines_on(keys, lines, line, i + 1);
        } else {
            let next = keys::with_spec(keys, keys::spec_of(text::trim(lines[i]))->Ok_0);
            lemma_with_lines_on(next, lines, line, i + 1);
        }
    }
}

/// The comment is one line, and is passed over.
proof fn lemma_comment(d: Discovery)
    requires
        !d.blob.file_name.contains('\n'),
    ensures
        !d.comment().contains('\n'),
        text::chomp(d.comment()) == d.comment(),
        keys::is_comment(text::trim(d.comment())),
{
    let c = d.comment();
    let n = text::dec(d.from as nat);
    let name = d.blob.file_name;
    reveal_strlit("# ");
    reveal_strlit(" (key of depot ");
    reveal_strlit(")");
    text::lemma_digits_read_back(d.from as nat, 10);
    assert(c.last() == ')');
    assert(c[0] == '#');
    assert(text::trim(c) == c);
    assert forall|i: int| 0 <= i < c.len() implies c[i] != '\n' by {
        let a = 2 + name.len() as int;
        let b = a + (" (key of depot "@).len();
        if 2 <= i < a {
            assert(c[i] == name[i - 2]);
            assert(name.contains(name[i - 2]));
        } else if a <= i < b {
            assert(c[i] == (" (key of depot "@)[i - a]);
        } else if b <= i < b + n.len() {
            assert(c[i] == n[i - b]);
            assert(text::digit_value(n[i - b], 10) is Some);
        }
    }
}

/// The line with the key is one line.
proof fn lemma_key_line(d: Discovery)
    ensures
        !d.line().contains('\n'),
        text::chomp(d.line()) == d.line(),
{
    let l = d.line();
    let n = text::dec(d.blob.depot as nat);
    let c = text::hex8(d.blob.crc as nat);
    let h = codec::hex_text(d.key@);
    reveal_strlit("@");
    reveal_strlit("=");
    text::lemma_digits_read_back(d.blob.depot as nat, 10);
    text::lemma_padded_value(d.blob.crc as nat, 16, 8);
    keys::lemma_hex_digits(d.key@);
    assert(l.last() == h.last());
    assert forall|i: int| 0 <= i < l.len() implies l[i] != '\n' by {
        let a = n.len() as int;
        let b = a + 1 + c.len();
        if i < a {
            assert(text::digit_value(n[i], 10) is Some);
        } else if a < i < b {
            assert(text::digit_value(c[i - a - 1], 16) is Some);
        } else if i > b {
            assert(l[i] == h[i - b - 1]);
        }
    }
}

/// What an audit writes down of the keys that it finds is taken without a
/// refusal when it is read as a keys file, and gives each blob its key; where
/// a key was found twice for a blob of the same depot and crc, the later one.
pub proof fn law_written_keys_are_read(keys: KeysView, found: Seq<Discovery>)
    requires
        forall|k: int|
            0 <= k < found.len() ==> !(#[trigger] found[k]).blob.file_name.contains('\n'),
    ensures
        keys::with_lines(keys, text::lines(keys_text(all_written(found))), 0) == (
            with_found(keys, found),
            None::<KeyFault>,
        ),
    decreases found.len(),
{
    reveal_strlit("\n");
    if found.len() > 0 {
        let d = found.last();
        let before = found.drop_last();
        let s = keys_text(all_written(before));
        let t = keys_text(all_written(found));
        assert(all_written(found).drop_last() =~= all_written(before));
        assert forall|k: int| 0 <= k < before.len() implies !(
        #[trigger] before[k]).blob.file_name.contains('\n') by {
            assert(before[k] == found[k]);
        }
        law_written_keys_are_read(keys, before);
        assert(found[found.len() - 1] == d);
        lemma_comment(d);
        lemma_key_line(d);
        assert(is_ended(s));
        let middle = s + d.comment() + seq!['\n'];
        assert(")\n"@ =~= ")"@ + seq!['\n']) by {
            reveal_strlit(")\n");
            reveal_strlit(")");
        }
        assert(t =~= middle + d.line() + seq!['\n']);
        assert(is_ended(middle));
        lemma_one_more_line(s, d.comment());
        lemma_one_more_line(middle, d.line());
        let lines = text::lines(s);
        lemma_with_lines_on(keys, lines, d.comment(), 0);
        let known = with_found(keys, before);
        reveal_with_fuel(keys::with_lines, 2);
        assert(keys::with_lines(known, seq![d.comment()], 0) == (known, None::<KeyFault>));
        lemma_with_lines_on(keys, lines.push(d.comment()), d.line(), 0);
        keys::law_written_key_reads_back(d.blob.depot, d.blob.crc, d.key);
        assert(seq![d.line()][0] == d.line());
        assert(keys::with_lines(known, seq![d.line()], 0) == (
            with_found(keys, found),
            None::<KeyFault>,
        ));
    } else {
        assert(all_written(found) =~= Seq::empty());
        assert(text::lines(Seq::<char>::empty()) =~= Seq::empty());
    }
}

/// No two of the keys are for a blob of the same depot and crc.
pub open spec fn for_different_blobs(found: Seq<Discovery>) -> bool {
    forall|i: int, j: int|
        0 <= i < j < found.len() ==> (#[trigger] found[i]).blob.depot != (
        #[trigger] found[j]).blob.depot || found[i].blob.crc != found[j].blob.crc
}

/// Each blob has the key that was found for it.
pub proof fn law_found_keys_are_known(keys: KeysView, found: Seq<Discovery>, k: int)
    requires
        for_different_blobs(found),
        0 <= k < found.len(),
    ensures
        with_found(keys, found).get_for_blob(found[k].blob.depot, found[k].blob.crc) == Some(
            found[k].key,
        ),
    decreases found.len(),
{
    let d = found.last();
    let before = found.drop_last();
    let known = with_found(keys, before);
    let b = found[k].blob;
    keys::law_overrides_win(known, d.blob.depot, d.blob.crc, d.key, b.depot, b.crc);
    if k < before.len() {
        assert(before[k] == found[k]);
        assert(found[k].blob.depot != found[found.len() - 1].blob.depot || found[k].blob.crc
            != found[found.len() - 1].blob.crc);
        law_found_keys_are_known(keys, before, k);
    }
}

/// `a` says of the blob that the key of `d` was found for it.
pub open spec fn tells(a: AuditView, d: Discovery) -> bool {
    a == audit::resolved_audit(d.blob, KeyResolution::Discovered(d.key, d.from))
}

/// An audit that finds a key tells which.
pub proof fn lemma_discovery<B: Backend>(s: Setup<B>, past: Past, id: u32, a: AuditView)
    requires
        audit::may_audit_some(s, past, id, a),
        a is Discovered,
    ensures
        exists|d: Discovery| #[trigger] tells(a, d) && d.blob == s.index.blob(BlobId(id)),
{
    let e = s.index.blob(BlobId(id));
    let known = choose|known: Map<u32, KeyResolution>| #[trigger]
        audit::may_audit(s, known, BlobId(id), a) && known.submap_of(past.keys);
    let o = choose|o: Outcome<ParsedView>| #[trigger]
        s.may_parse(BlobId(id), o) && match o {
            Err(f) => a == audit::unreadable(e, f, false),
            Ok(p) => audit::may_audit_parsed(s, known, BlobId(id), p, a),
        };
    let rec = audit::first_encrypted(o->Ok_0.records)->0;
    let at = choose|at: Outcome<LocView>| #[trigger]
        tree::may_find(s, BlobId(id), rec.file_id, at) && audit::may_try(
            s,
            known,
            BlobId(id),
            at,
            a,
        );
    let k = choose|k: Outcome<KeyResolution>| #[trigger]
        s.may_probe(known, at->Ok_0, k) && a == match k {
            Ok(k) => audit::resolved_audit(e, k),
            Err(f) => audit::unreadable(e, f, true),
        };
    match k->Ok_0 {
        KeyResolution::Discovered(key, from) => {
            assert(tells(a, Discovery { blob: e, key, from }));
        },
        _ => {},
    }
}

/// The keys that some audits find, in the order of the audits.
proof fn lemma_discoveries<B: Backend>(
    s: Setup<B>,
    past: Past,
    ids: Seq<u32>,
    audits: Seq<AuditView>,
) -> (r: (Seq<Discovery>, Seq<int>))
    requires
        audit::may_audit_all(s, past, ids, audits),
    ensures
        TallyView::none().with_all(audits).found == all_written(r.0),
        r.1.len() == r.0.len(),
        forall|j: int|
            0 <= j < r.0.len() ==> 0 <= #[trigger] r.1[j] < ids.len() && r.0[j].blob == s.index.blob(
                BlobId(ids[r.1[j]]),
            ),
        forall|i: int, j: int| 0 <= i < j < r.1.len() ==> r.1[i] < r.1[j],
        forall|k: int|
            0 <= k < audits.len() && (#[trigger] audits[k]) is Discovered ==> exists|j: int|
                0 <= j < r.0.len() && #[trigger] r.1[j] == k && tells(audits[k], r.0[j]),
    decreases ids.len(),
{
    if ids.len() == 0 {
        let none = Seq::<Discovery>::empty();
        assert(all_written(none) =~= Seq::empty());
        (none, Seq::empty())
    } else {
        let last = ids.len() - 1;
        assert forall|k: int| 0 <= k < last implies #[trigger] audit::may_audit_some(
            s,
            past,
            ids.drop_last()[k],
            audits.drop_last()[k],
        ) by {
            assert(audit::may_audit_some(s, past, ids[k], audits[k]));
        }
        let (found, places) = lemma_discoveries(s, past, ids.drop_last(), audits.drop_last());
        let a = audits.last();
        assert(audit::may_audit_some(s, past, ids[last], audits[last]));
        if a is Discovered {
            lemma_discovery(s, past, ids[last], a);
            let d = choose|d: Discovery| #[trigger]
                tells(a, d) && d.blob == s.index.blob(BlobId(ids[last]));
            let more = found.push(d);
            let at = places.push(last);
            assert(all_written(more) =~= all_written(found).push(d.written()));
            assert forall|k: int|
                0 <= k < audits.len() && (#[trigger] audits[k]) is Discovered implies exists|j: int|
                0 <= j < more.len() && #[trigger] at[j] == k && tells(audits[k], more[j]) by {
                if k < last {
                    assert(audits.drop_last()[k] == audits[k]);
                    let j = choose|j: int|
                        0 <= j < found.len() && #[trigger] places[j] == k && tells(
                            audits[k],
                            found[j],
                        );
                    assert(at[j] == k && more[j] == found[j]);
                } else {
                    assert(at[found.len() as int] == k);
                }
            }
            assert forall|j: int| 0 <= j < more.len() implies 0 <= #[trigger] at[j] < ids.len()
                && more[j].blob == s.index.blob(BlobId(ids[at[j]])) by {
                if j < found.len() {
                    assert(at[j] == places[j]);
                    assert(ids.drop_last()[places[j]] == ids[places[j]]);
                }
            }
            (more, at)
        } else {
            assert forall|k: int|
                0 <= k < audits.len() && (#[trigger] audits[k]) is Discovered implies exists|j: int|
                0 <= j < found.len() && #[trigger] places[j] == k && tells(audits[k], found[j]) by {
                assert(k < last);
                assert(audits.drop_last()[k] == audits[k]);
            }
            (found, places)
        }
    }
}

/// The keys that an audit finds, written to a file and read from it again, are
/// all taken, and give every blob for which one was found that key. Nothing is
/// written where none was found. The blobs are told apart by depot and crc,
/// and no file name has a line feed in it.
pub proof fn law_found_keys_read_back<B: Backend>(
    s: Setup<B>,
    past: Past,
    ids: Seq<u32>,
    audits: Seq<AuditView>,
    keys: KeysView,
)
    requires
        audit::may_audit_all(s, past, ids, audits),
        forall|i: int, j: int|
            0 <= i < j < ids.len() ==> s.index.blob(BlobId(#[trigger] ids[i])).depot
                != s.index.blob(BlobId(#[trigger] ids[j])).depot || s.index.blob(
                BlobId(ids[i]),
            ).crc != s.index.blob(BlobId(ids[j])).crc,
        forall|i: int|
            0 <= i < ids.len() ==> !s.index.blob(
                BlobId(#[trigger] ids[i]),
            ).file_name.contains('\n'),
    ensures
        ({
            let written = keys_text(TallyView::none().with_all(audits).found);
            let read = keys::with_lines(keys, text::lines(written), 0);
            &&& read.1 is None
            &&& forall|k: int|
                0 <= k < ids.len() && (#[trigger] audits[k]) is Discovered ==> exists|
                    d: Discovery,
                | #[trigger]
                    tells(audits[k], d) && d.blob == s.index.blob(BlobId(ids[k]))
                        && read.0.get_for_blob(d.blob.depot, d.blob.crc) == Some(d.key)
            &&& (forall|k: int| 0 <= k < ids.len() ==> !((#[trigger] audits[k]) is Discovered))
                ==> written.len() == 0 && read.0 == keys
        }),
{
    let (found, places) = lemma_discoveries(s, past, ids, audits);
    let read = with_found(keys, found);
    assert forall|j: int| 0 <= j < found.len() implies !(
    #[trigger] found[j]).blob.file_name.contains('\n') by {
        assert(0 <= places[j] < ids.len());
        assert(!s.index.blob(BlobId(ids[places[j]])).file_name.contains('\n'));
    }
    assert(for_different_blobs(found)) by {
        assert forall|i: int, j: int| 0 <= i < j < found.len() implies (
        #[trigger] found[i]).blob.depot != (#[trigger] found[j]).blob.depot || found[i].blob.crc
            != found[j].blob.crc by {
            assert(places[i] < places[j]);
            let (a, b) = (ids[places[i]], ids[places[j]]);
            assert(found[i].blob == s.index.blob(BlobId(a)));
            assert(found[j].blob == s.index.blob(BlobId(b)));
        }
    }
    law_written_keys_are_read(keys, found);
    assert forall|k: int| 0 <= k < ids.len() && (#[trigger] audits[k]) is Discovered implies exists|
        d: Discovery,
    | #[trigger]
        tells(audits[k], d) && d.blob == s.index.blob(BlobId(ids[k])) && read.get_for_blob(
            d.blob.depot,
            d.blob.crc,
        ) == Some(d.key) by {
        let j = choose|j: int|
            0 <= j < found.len() && #[trigger] places[j] == k && tells(audits[k], found[j]);
        law_found_keys_are_known(keys, found, j);
        assert(tells(audits[k], found[j]));
    }
    if forall|k: int| 0 <= k < ids.len() ==> !((#[trigger] audits[k]) is Discovered) {
        lemma_none_found(audits);
    }
}

proof fn lemma_none_found(audits: Seq<AuditView>)
    requires
        forall|k: int| 0 <= k < audits.len() ==> !((#[trigger] audits[k]) is Discovered),
    ensures
        TallyView::none().with_all(audits).found.len() == 0,
    decreases audits.len(),
{
    if audits.len() > 0 {
        let before = audits.drop_last();
        assert forall|k: int| 0 <= k < before.len() implies !((#[trigger] before[k]) is Discovered) by {
            assert(before[k] == audits[k]);
        }
        lemma_none_found(before);
        assert(!(audits[audits.len() - 1] is Discovered));
    }
}

/// Where one depot is wanted, only blobs of that depot are looked at.
pub proof fn law_only_the_wanted_depot(
    ix: &Index,
    wanted: u32,
    k: int,
)
    requires
        ix.wf(),
        0 <= k < audit::chosen(ix@, ix@.depot_list(), Some(wanted)).len(),
    ensures
        ix@.in_depot(wanted, audit::chosen(ix@, ix@.depot_list(), Some(wanted))[k]),
{
    ix.lemma_depot_numbers();
    let nums = ix@.depot_list();
    assert forall|d: u32| nums.contains(d) implies ix@.has_depot(d) by {}
    lemma_chosen_depot(ix, nums, wanted, k);
}

proof fn lemma_chosen_depot(ix: &Index, depots: Seq<u32>, wanted: u32, k: int)
    requires
        ix.wf(),
        forall|d: u32| #[trigger] depots.contains(d) ==> ix@.has_depot(d),
        0 <= k < audit::chosen(ix@, depots, Some(wanted)).len(),
    ensures
        ix@.in_depot(wanted, audit::chosen(ix@, depots, Some(wanted))[k]),
    decreases depots.len(),
{
    let before = depots.drop_last();
    let d = depots.last();
    let head = audit::chosen(ix@, before, Some(wanted));
    assert forall|x: u32| #[trigger] before.contains(x) implies ix@.has_depot(x) by {
        let i = choose|i: int| 0 <= i < before.len() && before[i] == x;
        assert(depots[i] == x);
        assert(depots.contains(x));
    }
    if k < head.len() {
        lemma_chosen_depot(ix, before, wanted, k);
    } else {
        assert(depots[depots.len() - 1] == d);
        assert(depots.contains(d));
        ix.lemma_listings(d);
        let list = ix@.listing(d);
        assert(list.contains(list[k - head.len()]));
    }
}

} // verus!
