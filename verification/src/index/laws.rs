//! What an index promises of the files that a dump is made of.

use vstd::prelude::*;

use super::{
    blob_of, blobs_of, byte_len, dat_of, date_reply, dates_in, dats_of, index_of, lemma_first_whole,
    lemma_last_index, lemma_older_chains, name_of, overflow_of, unmarked, BlobEntry, BlobView,
    DatEntry, DatView, DepotView, Index, IndexView, ParsedName,
};
use crate::backend::{DirView, ReplyView};
use crate::calendar;
use crate::calendar::Date;
use crate::sort;
use crate::sort::Rank;
use crate::text;
use crate::text::laws;

verus! {

// ---- names ----------------------------------------------------------------

/// `name` is `depot_version_crc_rest`, with `ext` behind it: the first two in
/// decimal, the third in hexadecimal.
pub open spec fn is_named(name: Seq<char>, ext: Seq<char>, p: ParsedName, rest: Seq<char>) -> bool {
    exists|a: Seq<char>, b: Seq<char>, c: Seq<char>|
        {
            &&& #[trigger] in_parts(name, a, b, c, rest, ext)
            &&& text::unsigned(a, 10, 0xffff_ffff) == Some(p.depot as nat)
            &&& text::unsigned(b, 10, 0xffff_ffff) == Some(p.version as nat)
            &&& text::unsigned(c, 16, 0xffff_ffff) == Some(p.crc as nat)
        }
}

/// `name` is four parts, the first three without a `_`, with `ext` behind them.
pub open spec fn in_parts(
    name: Seq<char>,
    a: Seq<char>,
    b: Seq<char>,
    c: Seq<char>,
    rest: Seq<char>,
    ext: Seq<char>,
) -> bool {
    &&& name == a + seq!['_'] + (b + seq!['_'] + (c + seq!['_'] + rest)) + ext
    &&& !a.contains('_')
    &&& !b.contains('_')
    &&& !c.contains('_')
}

/// A file name tells a depot, a version and a crc exactly where they are written
/// in it so.
pub proof fn law_names_tell_what_is_written(
    name: Seq<char>,
    ext: Seq<char>,
    p: ParsedName,
    rest: Seq<char>,
)
    ensures
        name_of(name, ext) == Some((p, rest)) <==> is_named(name, ext, p, rest),
{
    if name_of(name, ext) == Some((p, rest)) {
        let stem = text::strip_end(name, ext)->0;
        let (a, x) = text::split_once(stem, '_')->0;
        let (b, y) = text::split_once(x, '_')->0;
        let (c, z) = text::split_once(y, '_')->0;
        laws::law_ends_are_taken_off(name, ext, stem);
        laws::law_split_is_at_the_first(stem, '_', a, x);
        laws::law_split_is_at_the_first(x, '_', b, y);
        laws::law_split_is_at_the_first(y, '_', c, z);
        assert(in_parts(name, a, b, c, rest, ext));
    }
    if is_named(name, ext, p, rest) {
        let (a, b, c) = choose|a: Seq<char>, b: Seq<char>, c: Seq<char>|
            {
                &&& #[trigger] in_parts(name, a, b, c, rest, ext)
                &&& text::unsigned(a, 10, 0xffff_ffff) == Some(p.depot as nat)
                &&& text::unsigned(b, 10, 0xffff_ffff) == Some(p.version as nat)
                &&& text::unsigned(c, 16, 0xffff_ffff) == Some(p.crc as nat)
            };
        let y = c + seq!['_'] + rest;
        let x = b + seq!['_'] + y;
        let stem = a + seq!['_'] + x;
        laws::law_ends_are_taken_off(name, ext, stem);
        laws::law_split_is_at_the_first(stem, '_', a, x);
        laws::law_split_is_at_the_first(x, '_', b, y);
        laws::law_split_is_at_the_first(y, '_', c, rest);
    }
}

proof fn lemma_number_lacks(n: nat, radix: nat, width: nat)
    requires
        2 <= radix <= 16,
    ensures
        !text::zero_padded(text::digits(n, radix), width).contains('_'),
{
    text::lemma_padded_value(n, radix, width);
    let s = text::zero_padded(text::digits(n, radix), width);
    if s.contains('_') {
        let i = choose|i: int| 0 <= i < s.len() && s[i] == '_';
        assert(text::digit_value(s[i], radix) is Some);
    }
}

/// A depot, a version and a crc that are written as a file name are read back.
pub proof fn law_written_names_are_read(p: ParsedName, rest: Seq<char>, ext: Seq<char>)
    ensures
        name_of(
            text::dec(p.depot as nat) + seq!['_'] + (text::dec(p.version as nat) + seq!['_'] + (
            text::hex8(p.crc as nat) + seq!['_'] + rest)) + ext,
            ext,
        ) == Some((p, rest)),
{
    let a = text::dec(p.depot as nat);
    let b = text::dec(p.version as nat);
    let c = text::hex8(p.crc as nat);
    let name = a + seq!['_'] + (b + seq!['_'] + (c + seq!['_'] + rest)) + ext;
    lemma_number_lacks(p.depot as nat, 10, 0);
    lemma_number_lacks(p.version as nat, 10, 0);
    lemma_number_lacks(p.crc as nat, 16, 8);
    laws::law_written_numbers_are_read(p.depot as nat, 10, 0, 0xffff_ffff);
    laws::law_written_numbers_are_read(p.version as nat, 10, 0, 0xffff_ffff);
    laws::law_written_numbers_are_read(p.crc as nat, 16, 8, 0xffff_ffff);
    assert(in_parts(name, a, b, c, rest, ext));
    law_names_tell_what_is_written(name, ext, p, rest);
}

// ---- listed files ---------------------------------------------------------

/// Some file name ends in the mark of a download in progress.
pub open spec fn is_marked(name: Seq<char>) -> bool {
    exists|stem: Seq<char>| name == #[trigger] (stem + ".!qB"@)
}

/// `d` is the dat that the file `e` of `dats/` is: its path leads to that very
/// file, it is as long, it tells what its name does, and it is incomplete
/// exactly where the name is marked so.
pub open spec fn is_dat_of(e: DirView, d: DatView) -> bool {
    &&& d.path == "dats/"@ + e.name
    &&& d.size == e.size
    &&& d.incomplete == is_marked(e.name)
    &&& exists|stem: Seq<char>, rest: Seq<char>| #[trigger]
        is_named(
            stem,
            ".dat"@,
            ParsedName { depot: d.depot, version: d.version, crc: d.crc },
            rest,
        ) && e.name == if d.incomplete {
            stem + ".!qB"@
        } else {
            stem
        }
}

/// `b` is the blob that the file `e` of `blobs/` is: its path leads to that very
/// file, it is as long, it tells what its name does, and it has the date that is
/// listed for its name.
pub open spec fn is_blob_of(e: DirView, dates: Map<Seq<char>, Date>, b: BlobView) -> bool {
    &&& b.path == "blobs/"@ + e.name
    &&& b.file_name == e.name
    &&& b.size == e.size
    &&& b.date == if dates.contains_key(e.name) {
        Some(dates[e.name])
    } else {
        None
    }
    &&& exists|rest: Seq<char>| #[trigger]
        is_named(
            e.name,
            ".blob"@,
            ParsedName { depot: b.depot, version: b.version, crc: b.crc },
            rest,
        ) && b.sha256 == if byte_len(rest) == 64 {
            Some(rest)
        } else {
            None
        }
}

/// A file of `dats/` is one dat, and no other, where its name is one of a dat;
/// where it is not, it is none.
pub proof fn law_a_dat_is_its_file(e: DirView, d: DatView)
    ensures
        dat_of(e) == Some(d) <==> is_dat_of(e, d),
{
    let n = unmarked(e.name).0;
    reveal_strlit(".!qB");
    reveal_strlit(".dat");
    assert(is_marked(e.name) <==> unmarked(e.name).1) by {
        if is_marked(e.name) {
            let s = choose|s: Seq<char>| e.name == #[trigger] (s + ".!qB"@);
            laws::law_ends_are_taken_off(e.name, ".!qB"@, s);
        }
        if unmarked(e.name).1 {
            laws::law_ends_are_taken_off(e.name, ".!qB"@, n);
            assert(e.name == n + ".!qB"@);
        }
    }
    let p = ParsedName { depot: d.depot, version: d.version, crc: d.crc };
    if dat_of(e) == Some(d) {
        let (q, rest) = name_of(n, ".dat"@)->0;
        law_names_tell_what_is_written(n, ".dat"@, q, rest);
        assert(q == p);
        laws::law_ends_are_taken_off(e.name, ".!qB"@, n);
        assert(is_named(n, ".dat"@, p, rest));
        assert(is_dat_of(e, d));
    }
    if is_dat_of(e, d) {
        let (s, rest) = choose|s: Seq<char>, rest: Seq<char>| #[trigger]
            is_named(s, ".dat"@, p, rest) && e.name == if d.incomplete {
                s + ".!qB"@
            } else {
                s
            };
        if d.incomplete {
            laws::law_ends_are_taken_off(e.name, ".!qB"@, s);
            assert(n == s);
        }
        law_names_tell_what_is_written(s, ".dat"@, p, rest);
        assert(dat_of(e)->0 == d);
    }
}

/// A file of `blobs/` is one blob, and no other, where its name is one of a
/// blob; where it is not, it is none.
pub proof fn law_a_blob_is_its_file(e: DirView, dates: Map<Seq<char>, Date>, b: BlobView)
    ensures
        blob_of(e, dates) == Some(b) <==> is_blob_of(e, dates, b),
{
    let p = ParsedName { depot: b.depot, version: b.version, crc: b.crc };
    if blob_of(e, dates) == Some(b) {
        let (q, rest) = name_of(e.name, ".blob"@)->0;
        law_names_tell_what_is_written(e.name, ".blob"@, q, rest);
        assert(q == p);
        assert(is_named(e.name, ".blob"@, p, rest));
    }
    if is_blob_of(e, dates, b) {
        let rest = choose|rest: Seq<char>| #[trigger]
            is_named(e.name, ".blob"@, p, rest) && b.sha256 == if byte_len(rest) == 64 {
                Some(rest)
            } else {
                None
            };
        law_names_tell_what_is_written(e.name, ".blob"@, p, rest);
        assert(blob_of(e, dates)->0 == b);
    }
}

/// The files of `dats/` that are dats.
pub open spec fn listed_dats(entries: Seq<DirView>) -> Seq<DirView> {
    entries.filter(|e: DirView| exists|d: DatView| is_dat_of(e, d))
}

/// The files of `blobs/` that are blobs.
pub open spec fn listed_blobs(entries: Seq<DirView>, dates: Map<Seq<char>, Date>) -> Seq<DirView> {
    entries.filter(|e: DirView| exists|b: BlobView| is_blob_of(e, dates, b))
}

/// The dats of an index are the files of `dats/` that are dats, each once and in
/// the order they are listed in; and every one of them names its file.
pub proof fn law_dats_are_those_listed(entries: Seq<DirView>)
    ensures
        dats_of(entries).len() == listed_dats(entries).len(),
        forall|k: int|
            0 <= k < dats_of(entries).len() ==> is_dat_of(
                listed_dats(entries)[k],
                #[trigger] dats_of(entries)[k],
            ),
        forall|k: int|
            0 <= k < dats_of(entries).len() ==> entries.contains(
                #[trigger] listed_dats(entries)[k],
            ),
    decreases entries.len(),
{
    reveal(Seq::filter);
    if entries.len() > 0 {
        let front = entries.drop_last();
        let e = entries.last();
        law_dats_are_those_listed(front);
        if dat_of(e) is Some {
            law_a_dat_is_its_file(e, dat_of(e)->0);
        }
        if exists|d: DatView| is_dat_of(e, d) {
            let d = choose|d: DatView| is_dat_of(e, d);
            law_a_dat_is_its_file(e, d);
        }
        assert forall|k: int| 0 <= k < dats_of(entries).len() implies entries.contains(
            #[trigger] listed_dats(entries)[k],
        ) by {
            if k < listed_dats(front).len() {
                let x = listed_dats(front)[k];
                assert(front.contains(x));
                let i = choose|i: int| 0 <= i < front.len() && front[i] == x;
                assert(entries[i] == x);
            } else {
                assert(entries[entries.len() - 1] == e);
            }
        }
    }
}

/// The blobs of an index are the files of `blobs/` that are blobs, each once and
/// in the order they are listed in; and every one of them names its file.
pub proof fn law_blobs_are_those_listed(entries: Seq<DirView>, dates: Map<Seq<char>, Date>)
    ensures
        blobs_of(entries, dates).len() == listed_blobs(entries, dates).len(),
        forall|k: int|
            0 <= k < blobs_of(entries, dates).len() ==> is_blob_of(
                listed_blobs(entries, dates)[k],
                dates,
                #[trigger] blobs_of(entries, dates)[k],
            ),
        forall|k: int|
            0 <= k < blobs_of(entries, dates).len() ==> entries.contains(
                #[trigger] listed_blobs(entries, dates)[k],
            ),
    decreases entries.len(),
{
    reveal(Seq::filter);
    if entries.len() > 0 {
        let front = entries.drop_last();
        let e = entries.last();
        law_blobs_are_those_listed(front, dates);
        if blob_of(e, dates) is Some {
            law_a_blob_is_its_file(e, dates, blob_of(e, dates)->0);
        }
        if exists|b: BlobView| is_blob_of(e, dates, b) {
            let b = choose|b: BlobView| is_blob_of(e, dates, b);
            law_a_blob_is_its_file(e, dates, b);
        }
        assert forall|k: int| 0 <= k < blobs_of(entries, dates).len() implies entries.contains(
            #[trigger] listed_blobs(entries, dates)[k],
        ) by {
            if k < listed_blobs(front, dates).len() {
                let x = listed_blobs(front, dates)[k];
                assert(front.contains(x));
                let i = choose|i: int| 0 <= i < front.len() && front[i] == x;
                assert(entries[i] == x);
            } else {
                assert(entries[entries.len() - 1] == e);
            }
        }
    }
}

/// Every dat of an index names a file that `dats/` lists, and every blob one that
/// `blobs/` lists: the path leads to the very file, and the size is its own.
pub proof fn law_indexed_files_are_listed(
    date_list: Option<Seq<u8>>,
    blobs: Seq<DirView>,
    dats: Seq<DirView>,
)
    ensures
        ({
            let v = index_of(date_list, blobs, dats);
            &&& forall|k: int|
                0 <= k < v.dats.len() ==> exists|i: int|
                    0 <= i < dats.len() && (#[trigger] v.dats[k]).path == "dats/"@
                        + #[trigger] dats[i].name && v.dats[k].size == dats[i].size
            &&& forall|k: int|
                0 <= k < v.blobs.len() ==> exists|i: int|
                    0 <= i < blobs.len() && (#[trigger] v.blobs[k]).path == "blobs/"@
                        + #[trigger] blobs[i].name && v.blobs[k].file_name == blobs[i].name
                        && v.blobs[k].size == blobs[i].size
        }),
{
    let v = index_of(date_list, blobs, dats);
    let dates = match date_list {
        Some(bytes) => super::dates_of(bytes),
        None => Map::empty(),
    };
    law_dats_are_those_listed(dats);
    law_blobs_are_those_listed(blobs, dates);
    assert forall|k: int| 0 <= k < v.dats.len() implies exists|i: int|
        0 <= i < dats.len() && (#[trigger] v.dats[k]).path == "dats/"@ + #[trigger] dats[i].name
            && v.dats[k].size == dats[i].size by {
        let e = listed_dats(dats)[k];
        assert(is_dat_of(e, dats_of(dats)[k]));
        let i = choose|i: int| 0 <= i < dats.len() && dats[i] == e;
        assert(dats[i].name == e.name);
    }
    assert forall|k: int| 0 <= k < v.blobs.len() implies exists|i: int|
        0 <= i < blobs.len() && (#[trigger] v.blobs[k]).path == "blobs/"@ + #[trigger] blobs[i].name
            && v.blobs[k].file_name == blobs[i].name && v.blobs[k].size == blobs[i].size by {
        let e = listed_blobs(blobs, dates)[k];
        assert(is_blob_of(e, dates, blobs_of(blobs, dates)[k]));
        let i = choose|i: int| 0 <= i < blobs.len() && blobs[i] == e;
        assert(blobs[i].name == e.name);
    }
}

// ---- dates ----------------------------------------------------------------

/// A line of a date list gives `name` the date `d`.
#[verifier::opaque]
pub open spec fn gives(line: Seq<char>, name: Seq<char>, d: Date) -> bool {
    exists|a: Seq<char>, b: Seq<char>|
        line == #[trigger] (a + seq!['\t'] + b) && !a.contains('\t') && text::trim(a) == name
            && calendar::date_of(text::trim(b)) == Some(d)
}

/// A name has the date that the last line with it gives, of those that give one.
pub proof fn law_the_last_date_counts(lines: Seq<Seq<char>>, name: Seq<char>)
    ensures
        dates_in(lines).contains_key(name) <==> exists|k: int, d: Date|
            0 <= k < lines.len() && #[trigger] gives(lines[k], name, d),
        dates_in(lines).contains_key(name) ==> exists|k: int|
            0 <= k < lines.len() && #[trigger] gives(lines[k], name, dates_in(lines)[name])
                && forall|j: int, d: Date|
                k < j < lines.len() ==> !#[trigger] gives(lines[j], name, d),
{
    assert forall|k: int, d: Date| 0 <= k < lines.len() implies #[trigger] gives(lines[k], name, d)
        == (given(lines[k]) == Some((name, d))) by {
        lemma_gives(lines[k], name, d);
    }
    let k = lemma_last_given(lines, name);
    if dates_in(lines).contains_key(name) {
        assert(gives(lines[k], name, dates_in(lines)[name]));
        assert forall|j: int, d: Date| k < j < lines.len() implies !#[trigger] gives(
            lines[j],
            name,
            d,
        ) by {
            assert(!names(lines[j], name));
        }
    } else {
        assert forall|j: int, d: Date| 0 <= j < lines.len() implies !#[trigger] gives(
            lines[j],
            name,
            d,
        ) by {
            assert(!names(lines[j], name));
        }
    }
}

spec fn names(line: Seq<char>, name: Seq<char>) -> bool {
    given(line) matches Some((x, _)) && x == name
}

proof fn lemma_one_more_date(lines: Seq<Seq<char>>)
    requires
        lines.len() > 0,
    ensures
        dates_in(lines) == match given(lines.last()) {
            None => dates_in(lines.drop_last()),
            Some((name, d)) => dates_in(lines.drop_last()).insert(name, d),
        },
{
    reveal(given);
}

proof fn lemma_last_given(lines: Seq<Seq<char>>, name: Seq<char>) -> (k: int)
    ensures
        dates_in(lines).contains_key(name) ==> 0 <= k < lines.len() && given(lines[k]) == Some(
            (name, dates_in(lines)[name]),
        ) && forall|j: int| k < j < lines.len() ==> !#[trigger] names(lines[j], name),
        !dates_in(lines).contains_key(name) ==> forall|j: int|
            0 <= j < lines.len() ==> !#[trigger] names(lines[j], name),
    decreases lines.len(),
{
    if lines.len() == 0 {
        0
    } else {
        let front = lines.drop_last();
        let k = lemma_last_given(front, name);
        let n = lines.len() - 1;
        lemma_one_more_date(lines);
        assert forall|j: int| 0 <= j < n implies #[trigger] names(lines[j], name) == names(
            front[j],
            name,
        ) by {}
        if names(lines[n], name) {
            n
        } else {
            k
        }
    }
}

#[verifier::opaque]
spec fn given(line: Seq<char>) -> Option<(Seq<char>, Date)> {
    match text::split_once(line, '\t') {
        None => None,
        Some((name, date)) => match calendar::date_of(text::trim(date)) {
            None => None,
            Some(d) => Some((text::trim(name), d)),
        },
    }
}

proof fn lemma_gives(line: Seq<char>, name: Seq<char>, d: Date)
    ensures
        gives(line, name, d) <==> given(line) == Some((name, d)),
{
    reveal(gives);
    reveal(given);
    if given(line) == Some((name, d)) {
        let (a, b) = text::split_once(line, '\t')->0;
        laws::law_split_is_at_the_first(line, '\t', a, b);
        assert(line == a + seq!['\t'] + b);
    }
    if gives(line, name, d) {
        let (a, b) = choose|a: Seq<char>, b: Seq<char>|
            line == #[trigger] (a + seq!['\t'] + b) && !a.contains('\t') && text::trim(a) == name
                && calendar::date_of(text::trim(b)) == Some(d);
        laws::law_split_is_at_the_first(line, '\t', a, b);
    }
}

// ---- lookups --------------------------------------------------------------

/// `d` is a dat with a depot, version and crc.
pub open spec fn is_dat(v: IndexView, i: int, depot: u32, version: u32, crc: u32) -> bool {
    &&& 0 <= i < v.dats.len()
    &&& v.dats[i].depot == depot
    &&& v.dats[i].version == version
    &&& v.dats[i].crc == crc
}

/// A dat is found exactly where there is one with that depot, version and crc; it
/// has them; and it is complete wherever one of those is.
pub proof fn law_the_dat_that_is_found(v: IndexView, depot: u32, version: u32, crc: u32)
    requires
        v.dats.len() <= u32::MAX,
    ensures
        match v.find_dat(depot, version, crc) {
            Some(d) => is_dat(v, d.0 as int, depot, version, crc) && if v.dat(d).incomplete {
                forall|j: int| #[trigger]
                    is_dat(v, j, depot, version, crc) ==> v.dats[j].incomplete && j <= d.0
            } else {
                forall|j: int| #[trigger]
                    is_dat(v, j, depot, version, crc) && j < d.0 ==> v.dats[j].incomplete
            },
            None => forall|j: int| !#[trigger] is_dat(v, j, depot, version, crc),
        },
{
    let key = (depot, version, crc);
    lemma_first_whole(v.dats, key);
    lemma_last_index(super::dat_keys(v.dats), key);
    assert forall|j: int| 0 <= j < v.dats.len() implies #[trigger] super::dat_keys(v.dats)[j]
        == super::dat_key(v.dats[j]) by {}
    assert forall|j: int| #[trigger] is_dat(v, j, depot, version, crc) implies super::dat_keys(
        v.dats,
    )[j] == key && super::dat_key(v.dats[j]) == key by {}
}

/// A blob is found exactly where there is one with that depot, version and crc;
/// it has them, and is the last that does.
pub proof fn law_the_blob_that_is_found(v: IndexView, depot: u32, version: u32, crc: u32)
    requires
        v.blobs.len() <= u32::MAX,
    ensures
        match v.find_blob(depot, version, crc) {
            Some(b) => v.in_depot(depot, b.0) && v.blob(b).version == version && v.blob(b).crc
                == crc && forall|j: u32| #[trigger]
                v.in_depot(depot, j) && j > b.0 ==> v.blobs[j as int].version != version
                    || v.blobs[j as int].crc != crc,
            None => forall|j: u32| #[trigger]
                v.in_depot(depot, j) ==> v.blobs[j as int].version != version
                    || v.blobs[j as int].crc != crc,
        },
{
    lemma_last_index(v.blob_keys(), (depot, version, crc));
    assert forall|j: int| 0 <= j < v.blobs.len() implies #[trigger] v.blob_keys()[j] == (
        v.blobs[j].depot,
        v.blobs[j].version,
        v.blobs[j].crc,
    ) by {}
    assert forall|j: u32| #[trigger] v.in_depot(depot, j) implies v.blob_keys()[j as int] == (
        v.blobs[j as int].depot,
        v.blobs[j as int].version,
        v.blobs[j as int].crc,
    ) by {}
}

proof fn lemma_of_version_is(v: IndexView, s: Seq<u32>, version: u32)
    ensures
        v.of_version(s, version) == s.filter(|i: u32| v.blobs[i as int].version == version),
    decreases s.len(),
{
    reveal(Seq::filter);
    if s.len() > 0 {
        lemma_of_version_is(v, s.drop_last(), version);
    }
}

/// The blobs of a depot with a version are all that there are, each once, by crc.
pub proof fn law_blobs_of_a_version(ix: &Index, depot: u32, version: u32)
    requires
        ix.wf(),
    ensures
        forall|i: u32|
            ix@.with_version(depot, version).contains(i) <==> #[trigger] ix@.in_depot(depot, i)
                && ix@.blobs[i as int].version == version,
        ix@.with_version(depot, version).no_duplicates(),
{
    let v = ix@;
    let s = v.listing(depot);
    let f = |i: u32| v.blobs[i as int].version == version;
    let w = v.with_version(depot, version);
    if v.has_depot(depot) {
        ix.lemma_listings(depot);
        lemma_of_version_is(v, s, version);
        assert forall|i: u32| w.contains(i) <==> #[trigger] v.in_depot(depot, i)
            && v.blobs[i as int].version == version by {
            if w.contains(i) {
                let k = choose|k: int| 0 <= k < w.len() && w[k] == i;
                s.lemma_filter_pred(f, k);
                s.lemma_filter_contains_rev(f, i);
                assert(s.contains(i));
            }
            if v.in_depot(depot, i) && v.blobs[i as int].version == version {
                assert(s.contains(i));
                let k = choose|k: int| 0 <= k < s.len() && s[k] == i;
                s.lemma_filter_contains(f, k);
            }
        }
        assert(s.no_duplicates()) by {
            assert forall|i: int, j: int| 0 <= i < j < s.len() implies s[i] != s[j] by {
                assert(v.before(s[i], s[j]));
            }
        }
        lemma_filter_no_duplicates(s, f);
    } else {
        assert forall|i: u32| w.contains(i) <==> #[trigger] v.in_depot(depot, i)
            && v.blobs[i as int].version == version by {}
    }
}

proof fn lemma_filter_no_duplicates(s: Seq<u32>, f: spec_fn(u32) -> bool)
    requires
        s.no_duplicates(),
    ensures
        s.filter(f).no_duplicates(),
    decreases s.len(),
{
    reveal(Seq::filter);
    if s.len() > 0 {
        let t = s.drop_last();
        lemma_filter_no_duplicates(t, f);
        let r = t.filter(f);
        assert forall|k: int| 0 <= k < r.len() implies r[k] != s.last() by {
            t.lemma_filter_contains_rev(f, r[k]);
            assert(t.contains(r[k]));
            let i = choose|i: int| 0 <= i < t.len() && t[i] == r[k];
            assert(s[i] == r[k]);
        }
    }
}

proof fn lemma_some_latest(v: IndexView, d: u32, n: int) -> (best: Option<u32>)
    requires
        0 <= n <= v.blobs.len() <= u32::MAX,
    ensures
        match best {
            Some(b) => b < n && v.in_depot(d, b) && forall|j: u32| #[trigger]
                v.in_depot(d, j) && j < n && j != b ==> v.older(j, b),
            None => forall|j: u32| #[trigger] v.in_depot(d, j) ==> j >= n,
        },
    decreases n,
{
    if n == 0 {
        None
    } else {
        let i = (n - 1) as u32;
        match lemma_some_latest(v, d, n - 1) {
            None => if v.in_depot(d, i) {
                Some(i)
            } else {
                None
            },
            Some(b) => if v.in_depot(d, i) && v.older(b, i) {
                assert forall|j: u32| #[trigger] v.in_depot(d, j) && j < n && j != i implies v.older(
                    j,
                    i,
                ) by {
                    if j != b {
                        lemma_older_chains(v, j, b, i);
                    }
                }
                Some(i)
            } else {
                Some(b)
            },
        }
    }
}

/// The newest blob of a depot is one wherever the depot has any, and none of its
/// blobs has a greater version, or the same version and a later date.
pub proof fn law_the_newest_blob(v: IndexView, d: u32)
    requires
        v.blobs.len() <= u32::MAX,
    ensures
        v.latest(d) is Some <==> v.has_depot(d),
        v.latest(d) matches Some(b) ==> v.in_depot(d, b.0) && forall|j: u32| #[trigger]
            v.in_depot(d, j) ==> v.blobs[j as int].version <= v.blob(b).version && (
            v.blobs[j as int].version == v.blob(b).version ==> match (
                v.blobs[j as int].date,
                v.blob(b).date,
            ) {
                (Some(x), Some(y)) => x.secs < y.secs || (x.secs == y.secs && x.nanos <= y.nanos),
                (Some(_), None) => false,
                (None, _) => true,
            }),
{
    match lemma_some_latest(v, d, v.blobs.len() as int) {
        Some(b) => {
            assert(v.is_latest(d, b));
            assert(v.has_depot(d));
        },
        None => {
            if exists|i: u32| v.is_latest(d, i) {
                let i = choose|i: u32| v.is_latest(d, i);
                assert(v.in_depot(d, i));
            }
            if v.has_depot(d) {
                let i = choose|i: u32| v.in_depot(d, i);
                assert(v.in_depot(d, i));
            }
        },
    }
}

/// A version directory leads to the blob that has its name, and a link to the
/// blob that has its link name.
pub proof fn law_names_lead_to_their_blobs(d: DepotView, name: Seq<char>)
    ensures
        match d.named(name) {
            Some(b) => exists|k: int|
                0 <= k < d.names.len() && #[trigger] d.names[k] == name && d.blobs[k] == b.0,
            None => !d.names.contains(name),
        },
        match d.linked(name) {
            Some(b) => exists|k: int|
                0 <= k < d.links.len() && #[trigger] d.links[k] == name && d.blobs[k] == b.0,
            None => !d.links.contains(name),
        },
{
    lemma_last_index(d.names, name);
    lemma_last_index(d.links, name);
}

/// The versions of a depot are listed by number, then by crc, and the links of their
/// dates by name: none comes before one that it is greater than.
pub proof fn law_listings_are_in_order(ix: &Index, d: u32, i: int, j: int)
    requires
        ix.wf(),
        ix@.has_depot(d),
        0 <= i < j,
    ensures
        ({
            let v = ix@;
            let s = v.depot(d).blobs;
            j < s.len() ==> {
                let (x, y) = (v.blobs[s[i] as int], v.blobs[s[j] as int]);
                &&& x.version <= y.version
                &&& x.version == y.version ==> x.crc <= y.crc
            }
        }),
        ({
            let v = ix@;
            let s = v.depot(d).date_order;
            j < s.len() ==> sort::rank(
                sort::char_key(v.link_name(s[i])),
                sort::char_key(v.link_name(s[j])),
            ) != Rank::Greater
        }),
{
    ix.lemma_listings(d);
    let v = ix@;
    let s = v.depot(d).blobs;
    let t = v.depot(d).date_order;
    if j < s.len() {
        assert(v.before(s[i], s[j]));
    }
    if j < t.len() {
        assert(v.dated_before(t[i], t[j]));
    }
}

/// A version goes by its number alone where no other blob of its depot has that
/// number, and by its number and crc where one has; its link tells its date, or that
/// it is not known, before that name.
pub proof fn law_what_versions_go_by(v: IndexView, i: u32)
    requires
        i < v.blobs.len(),
    ensures
        ({
            let b = v.blobs[i as int];
            let alone = forall|j: u32| #[trigger]
                v.in_depot(b.depot, j) && v.blobs[j as int].version == b.version ==> j == i;
            v.version_name(i) == if alone {
                text::dec(b.version as nat)
            } else {
                text::dec(b.version as nat) + "-"@ + text::hex8(b.crc as nat)
            }
        }),
        v.link_name(i) == match v.blobs[i as int].date {
            Some(d) => calendar::stamp(d.secs as nat) + "_v"@ + v.version_name(i),
            None => "unknown"@ + "_v"@ + v.version_name(i),
        },
{
}

/// Blobs and dats are refused exactly where there are more of one than 32 bits can
/// number; and a date list that cannot be read is as good as an empty one.
pub proof fn law_what_cannot_be_indexed(v: IndexView, r: ReplyView<Seq<u8>>, bytes: Seq<u8>)
    ensures
        overflow_of(v) is None <==> v.blobs.len() <= 0xffff_ffff && v.dats.len() <= 0xffff_ffff,
        date_reply(r) is None <==> r is Err,
        r matches Ok(b) ==> date_reply(r) == Some(b),
        index_of(None, Seq::empty(), Seq::empty()) == (IndexView {
            blobs: Seq::empty(),
            dats: Seq::empty(),
        }),
{
}

/// An index shows its entries as they are, each under its own place.
pub proof fn law_entries_are_shown_as_they_are(b: BlobEntry, d: DatEntry)
    ensures
        b@.path == b.path@ && b@.file_name == b.file_name@,
        b@.depot == b.depot && b@.version == b.version && b@.crc == b.crc,
        b@.size == b.size && b@.date == b.date,
        b.sha256 is None <==> b@.sha256 is None,
        b.sha256 matches Some(t) ==> b@.sha256 == Some(t@),
        d@.path == d.path@ && d@.size == d.size && d@.incomplete == d.incomplete,
        d@.depot == d.depot && d@.version == d.version && d@.crc == d.crc,
{
}

} // verus!
