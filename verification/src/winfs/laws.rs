//! What the answers to Windows promise.

use vstd::prelude::*;

use super::path;
use super::{
    allocated, first_folded, info_of, may_read, may_step, may_walk, resolved, status_of, ticks,
    Status,
};
use crate::backend::Backend;
use crate::calendar;
use crate::calendar::Date;
use crate::index::IndexView;
use crate::store::contents::ParsedView;
use crate::store::error::Outcome;
use crate::store::laws;
use crate::store::setup;
use crate::store::setup::{Past, Setup};
use crate::store::table::LocView;
use crate::text;
use crate::text::laws as text_laws;
use crate::tree;
use crate::tree::{EntryView, Key, Kind, Meta, TreeFault, TreeOutcome};

verus! {

// ---- numbers --------------------------------------------------------------

/// A moment is told in tenths of a microsecond from the first day of 1601, as far
/// as 64 bits go.
pub proof fn law_ticks_count_from_1601(t: Date)
    ensures
        ({
            let days = calendar::civil_days(1970, 1, 1) - calendar::civil_days(1601, 1, 1);
            let n = (days * 86_400 + t.secs) * 10_000_000 + t.nanos as int / 100;
            ticks(t) == if n <= 0xffff_ffff_ffff_ffff {
                n
            } else {
                0xffff_ffff_ffff_ffff
            }
        }),
{
}

/// What is allocated to a file is as few whole units of 512 bytes as hold it.
pub proof fn law_allocation_holds_the_file(size: u64)
    requires
        size <= 0xffff_ffff_ffff_fe00,
    ensures
        allocated(size) % 512 == 0,
        size <= allocated(size) < size + 512,
{
}

/// Everything is read-only; all but files are directories, links too, since they
/// are shown as what they lead to; and size and date are what the tree tells.
pub proof fn law_what_is_told_of_an_entry(meta: Meta)
    ensures
        info_of(meta).attributes == if meta.kind is File {
            1int
        } else {
            1 + 0x10int
        },
        info_of(meta).file_size == meta.size,
        info_of(meta).allocation_size == allocated(meta.size),
        info_of(meta).time == ticks(meta.mtime),
{
}

/// What is answered to each failure.
pub proof fn law_failures_are_told_apart(f: TreeFault)
    ensures
        status_of(f) is NameNotFound <==> f is NotFound,
        status_of(f) is NotADirectory <==> f is NotADirectory,
        status_of(f) is FileInvalid <==> (f matches TreeFault::Read(r) && (r is MissingRecord
            || r is MissingDat)),
        status_of(f) is AccessDenied <==> (f matches TreeFault::Read(r) && (r is NoKey
            || r is NoWorkingKey)),
        status_of(f) is FileCorrupt <==> (f matches TreeFault::Read(r) && r is Format),
        status_of(f) is IoDevice <==> (f matches TreeFault::Read(r) && !(r is MissingRecord
            || r is MissingDat || r is NoKey || r is NoWorkingKey || r is Format)),
{
}

// ---- paths ----------------------------------------------------------------

/// The names of two paths with a backslash between them are those of the first and
/// then those of the second; a path without one is a single name; and an empty one
/// has none.
pub proof fn law_paths_are_put_together(a: Seq<char>, b: Seq<char>)
    ensures
        path::components(a + seq!['\\'] + b) == path::components(a) + path::components(b),
        !a.contains('\\') ==> path::components(a) == if a.len() == 0 {
            Seq::empty()
        } else {
            seq![a]
        },
    decreases a.len(),
{
    let p = a + seq!['\\'] + b;
    text_laws::law_split_is_at_the_first(a, '\\', a, b);
    if !a.contains('\\') {
        text_laws::law_split_is_at_the_first(p, '\\', a, b);
        assert(path::components(p) =~= path::components(a) + path::components(b));
    } else {
        let (x, y) = text::split_once(a, '\\')->0;
        text_laws::law_split_is_at_the_first(a, '\\', x, y);
        let rest = y + seq!['\\'] + b;
        assert(p =~= x + seq!['\\'] + rest);
        text_laws::law_split_is_at_the_first(p, '\\', x, rest);
        law_paths_are_put_together(y, b);
        assert(path::components(p) =~= path::components(a) + path::components(b));
    }
}

/// A name is found in a list, however it is spelled, at its first entry that
/// differs from it at most in the case of letters; and not at all only where there
/// is none.
pub proof fn law_spelling_does_not_matter(list: Seq<EntryView>, name: Seq<char>)
    ensures
        match first_folded(list, name) {
            Some(key) => exists|k: int|
                {
                    &&& 0 <= k < list.len()
                    &&& (#[trigger] list[k]).key == key
                    &&& path::folds_alike(text::lossy(list[k].name), name)
                    &&& forall|j: int|
                        0 <= j < k ==> !path::folds_alike(
                            text::lossy((#[trigger] list[j]).name),
                            name,
                        )
                },
            None => forall|k: int|
                0 <= k < list.len() ==> !path::folds_alike(
                    text::lossy((#[trigger] list[k]).name),
                    name,
                ),
        },
    decreases list.len(),
{
    if list.len() > 0 && !path::folds_alike(text::lossy(list[0].name), name) {
        let rest = list.skip(1);
        law_spelling_does_not_matter(rest, name);
        match first_folded(rest, name) {
            Some(key) => {
                let k = choose|k: int|
                    {
                        &&& 0 <= k < rest.len()
                        &&& (#[trigger] rest[k]).key == key
                        &&& path::folds_alike(text::lossy(rest[k].name), name)
                        &&& forall|j: int|
                            0 <= j < k ==> !path::folds_alike(
                                text::lossy((#[trigger] rest[j]).name),
                                name,
                            )
                    };
                assert(list[k + 1].key == key);
                assert forall|j: int| 0 <= j < k + 1 implies !path::folds_alike(
                    text::lossy((#[trigger] list[j]).name),
                    name,
                ) by {
                    if j > 0 {
                        assert(!path::folds_alike(text::lossy(rest[j - 1].name), name));
                    }
                }
            },
            None => {
                assert forall|k: int| 0 <= k < list.len() implies !path::folds_alike(
                    text::lossy((#[trigger] list[k]).name),
                    name,
                ) by {
                    if k > 0 {
                        assert(!path::folds_alike(text::lossy(rest[k - 1].name), name));
                    }
                }
            },
        }
    }
}

/// Letters fold alike in either case, and no other two characters do.
pub proof fn law_only_the_case_of_letters_folds(a: char, b: char)
    ensures
        path::folds_alike(seq![a], seq![b]) <==> {
            ||| a == b
            ||| 'A' <= a <= 'Z' && b as int == a as int + ('a' as int - 'A' as int)
            ||| 'A' <= b <= 'Z' && a as int == b as int + ('a' as int - 'A' as int)
        },
{
    let (x, y) = (seq![a], seq![b]);
    assert(x[0] == a && y[0] == b);
    if path::folds_alike(x, y) {
        assert(path::folded(x[0]) == path::folded(y[0]));
    }
}

/// A link is taken for the version it leads to: `latest` for that of the newest
/// blob, a link of a date for its own; and all else for itself.
pub proof fn law_links_are_followed(v: IndexView, key: Key)
    ensures
        resolved(v, key) == match key {
            Key::DateLink(b) => Key::Version(b),
            Key::Latest(d) => if v.latest(d) is Some {
                Key::Version(v.latest(d)->0)
            } else {
                key
            },
            _ => key,
        },
        !(key is DateLink) && !(key is Latest) ==> resolved(v, key) == key,
{
}

/// To follow a path is to follow its first part, and then the rest from where that
/// led.
pub proof fn law_a_path_is_followed_in_parts<B: Backend>(
    s: Setup<B>,
    key: Key,
    a: Seq<Seq<char>>,
    b: Seq<Seq<char>>,
    middle: Key,
    r: TreeOutcome<Key>,
)
    requires
        may_walk(s, key, a, Ok(middle)),
        may_walk(s, middle, b, r),
    ensures
        may_walk(s, key, a + b, r),
    decreases a.len(),
{
    reveal(may_walk);
    let all = a + b;
    if a.len() == 0 {
        assert(all =~= b);
    } else {
        let rest = a.skip(1);
        assert(all.skip(1) =~= rest + b);
        assert(all[0] == a[0]);
        if a[0] == "."@ {
            law_a_path_is_followed_in_parts(s, key, rest, b, middle, r);
        } else if a[0] == ".."@ {
            let up = choose|up: Key| #[trigger]
                tree::may_parent(s, key, up) && may_walk(s, up, rest, Ok(middle));
            law_a_path_is_followed_in_parts(s, up, rest, b, middle, r);
        } else {
            let from = resolved(s.index, key);
            let step = choose|step: TreeOutcome<Key>| #[trigger]
                may_step(s, from, a[0], step) && match step {
                    Err(f) => Ok::<Key, TreeFault>(middle) == Err::<Key, TreeFault>(f),
                    Ok(k) => may_walk(s, k, rest, Ok(middle)),
                };
            law_a_path_is_followed_in_parts(s, step->Ok_0, rest, b, middle, r);
        }
    }
}

/// A path of one name leads where that name does, a single dot nowhere else, and
/// two dots to the directory above.
pub proof fn law_one_step<B: Backend>(s: Setup<B>, key: Key, name: Seq<char>, r: TreeOutcome<Key>)
    ensures
        may_walk(s, key, Seq::empty(), r) <==> r == Ok::<Key, TreeFault>(key),
        may_walk(s, key, seq!["."@], r) <==> r == Ok::<Key, TreeFault>(key),
        may_walk(s, key, seq![".."@], r) <==> (r matches Ok(up) && tree::may_parent(s, key, up)),
        name != "."@ && name != ".."@ ==> (may_walk(s, key, seq![name], r) <==> may_step(
            s,
            resolved(s.index, key),
            name,
            r,
        )),
{
    reveal_with_fuel(may_walk, 3);
    let none = Seq::<Seq<char>>::empty();
    assert(seq!["."@].skip(1) =~= none);
    assert(seq![".."@].skip(1) =~= none);
    assert(seq![name].skip(1) =~= none);
    assert(seq![".."@][0] != "."@) by {
        reveal_strlit(".");
        reveal_strlit("..");
        assert("."@.len() != ".."@.len());
    }
    if r matches Ok(up) && tree::may_parent(s, key, up) {
        let up = r->Ok_0;
        assert(tree::may_parent(s, key, up) && may_walk(s, up, none, r));
    }
    if may_step(s, resolved(s.index, key), name, r) && name != "."@ && name != ".."@ {
        match r {
            Ok(k) => {
                assert(may_walk(s, k, none, r));
            },
            Err(_) => {},
        }
        assert(may_walk(s, key, seq![name], r));
    }
}

/// Over a steady backend, a name that is spelled as it is listed leads to that
/// entry, even where another differs from it only in case.
pub proof fn law_exact_names_come_first<B: Backend>(
    s: Setup<B>,
    dir: Key,
    name: Seq<char>,
    key: Key,
    r: TreeOutcome<Key>,
)
    requires
        setup::steady(s.backend),
        tree::may_lookup(s, dir, text::utf8(name), Ok(Some(key))),
        may_step(s, dir, name, r),
    ensures
        r == Ok::<Key, TreeFault>(key),
{
    reveal(may_step);
    let bytes = text::utf8(name);
    let found = choose|found: TreeOutcome<Option<Key>>| #[trigger]
        tree::may_lookup(s, dir, bytes, found) && match found {
            Err(f) => r == Err::<Key, TreeFault>(f),
            Ok(Some(k)) => r == Ok::<Key, TreeFault>(k),
            Ok(None) => super::may_find_folded(s, dir, name, r),
        };
    lemma_one_answer(s, dir, bytes, found, Ok(Some(key)));
}

proof fn lemma_one_answer<B: Backend>(
    s: Setup<B>,
    dir: Key,
    name: Seq<u8>,
    x: TreeOutcome<Option<Key>>,
    y: TreeOutcome<Option<Key>>,
)
    requires
        setup::steady(s.backend),
        tree::may_lookup(s, dir, name, x),
        tree::may_lookup(s, dir, name, y),
    ensures
        x == y,
{
    match dir {
        Key::Version(b) => lemma_one_node(s, b, dir, name, x, y),
        Key::Node(b, _) => lemma_one_node(s, b, dir, name, x, y),
        _ => {},
    }
}

proof fn lemma_one_node<B: Backend>(
    s: Setup<B>,
    b: crate::index::BlobId,
    dir: Key,
    name: Seq<u8>,
    x: TreeOutcome<Option<Key>>,
    y: TreeOutcome<Option<Key>>,
)
    requires
        setup::steady(s.backend),
        tree::may_lookup_node(s, b, dir, name, x),
        tree::may_lookup_node(s, b, dir, name, y),
    ensures
        x == y,
{
    let p = choose|o: Outcome<ParsedView>| #[trigger]
        s.may_parse(b, o) && x == match o {
            Err(f) => Err(TreeFault::Read(f)),
            Ok(p) => Ok(
                tree::listing::child_lookup(
                    b,
                    p.manifest,
                    tree::listing::node_index(dir, p.manifest)->0,
                    name,
                ),
            ),
        };
    let q = choose|o: Outcome<ParsedView>| #[trigger]
        s.may_parse(b, o) && y == match o {
            Err(f) => Err(TreeFault::Read(f)),
            Ok(p) => Ok(
                tree::listing::child_lookup(
                    b,
                    p.manifest,
                    tree::listing::node_index(dir, p.manifest)->0,
                    name,
                ),
            ),
        };
    setup::law_steady_blobs(s, b, p, q);
}

// ---- reading --------------------------------------------------------------

/// A read gives the bytes at its offset, as many as there is room for or as there
/// are up to the end of the file, and is told so where it begins behind that: each
/// is the one at its place of the block that it is in, which is what the dat holds
/// there, decoded; as long as every other file that was asked for has the same
/// blocks where it has any in their place.
pub proof fn law_a_read_gives_the_bytes_at_its_offset<B: Backend>(
    s: Setup<B>,
    past: Past,
    loc: LocView,
    c: Seq<u8>,
    offset: u64,
    room: usize,
    r: core::result::Result<Seq<u8>, Status>,
    k: int,
)
    requires
        loc.dat is Some,
        loc.fits(s.index),
        laws::is_file(s.backend, s.index.dat(loc.dat->0).path, c),
        forall|i: int| 0 <= i < loc.record.blocks.len() ==> #[trigger] setup::alike(past, loc, i),
        may_read(s, past, loc, offset, room, r),
    ensures
        offset >= loc.record.size ==> r == Err::<Seq<u8>, Status>(Status::EndOfFile),
        r matches Ok(out) ==> out.len() == if loc.record.size - offset < room {
            loc.record.size - offset
        } else {
            room as int
        },
        r matches Ok(out) ==> (0 <= k < out.len() ==> exists|b: Seq<u8>| #[trigger]
            laws::is_block(s, past, loc, c, (offset + k) / 0x8000, b) && out[k] == b[(offset + k)
                % 0x8000]),
{
    let end = setup::least(offset + room, loc.record.size as int);
    if r is Ok && offset < loc.record.size && room > 0 {
        let out = r->Ok_0;
        setup::law_reads_are_whole(s, past, loc, offset as int, end, out);
        if 0 <= k < out.len() {
            laws::law_read_bytes_are_decoded_from_the_dat(
                s,
                past,
                loc,
                c,
                offset as int,
                end,
                out,
                k,
            );
        }
    }
}

// ---- directories ----------------------------------------------------------

/// What is shown of a directory is what it lists, in order, each under its name, and as
/// what it leads to where it is a link; below the root the directory itself and the one
/// above stand before that.
pub proof fn law_a_directory_shows_what_it_lists<B: Backend>(
    s: Setup<B>,
    key: Key,
    lines: Seq<super::Line>,
) -> (list: Seq<EntryView>)
    requires
        super::may_directory(s, key, lines),
    ensures
        tree::may_list(s, key, Ok(list)),
        ({
            let dots = if key is Root {
                0int
            } else {
                2int
            };
            &&& lines.len() == list.len() + dots
            &&& dots == 2 ==> lines[0].0 == "."@ && tree::may_meta(s, key, Ok(lines[0].1))
            &&& dots == 2 ==> lines[1].0 == ".."@ && exists|up: Key| #[trigger]
                tree::may_parent(s, key, up) && (tree::may_meta(
                    s,
                    resolved(s.index, up),
                    Ok(lines[1].1),
                ) || lines[1].1 == lines[0].1)
            &&& forall|k: int|
                0 <= k < list.len() ==> (#[trigger] lines[k + dots]).0 == text::lossy(list[k].name)
                    && super::may_show(s, resolved(s.index, list[k].key), list[k].kind, lines[k
                    + dots].1)
        }),
{
    let list = choose|list: Seq<EntryView>| #[trigger]
        tree::may_list(s, key, Ok(list)) && if key == Key::Root {
            super::may_lines(s, list, lines)
        } else {
            &&& lines.len() >= 2
            &&& lines[0].0 == "."@
            &&& lines[1].0 == ".."@
            &&& super::may_dots(s, key, lines[0].1, lines[1].1)
            &&& super::may_lines(s, list, lines.skip(2))
        };
    let dots = if key is Root {
        0int
    } else {
        2int
    };
    assert forall|k: int| 0 <= k < list.len() implies (#[trigger] lines[k + dots]).0 == text::lossy(
        list[k].name,
    ) && super::may_show(s, resolved(s.index, list[k].key), list[k].kind, lines[k + dots].1) by {
        if key is Root {
            assert(super::may_line(s, list[k], lines[k]));
        } else {
            assert(super::may_line(s, list[k], lines.skip(2)[k]));
        }
    }
    list
}

/// What is shown of an entry is its metadata; where that cannot be had, its kind, no
/// bytes, and the first day of 1970.
pub proof fn law_what_is_shown_of_an_entry<B: Backend>(s: Setup<B>, key: Key, kind: Kind, m: Meta)
    requires
        super::may_show(s, key, kind, m),
    ensures
        tree::may_meta(s, key, Ok(m)) || (m == (Meta {
            kind,
            size: 0,
            mtime: Date { secs: 0, nanos: 0 },
        }) && exists|f: TreeFault| #[trigger] tree::may_meta(s, key, Err(f))),
{
}

/// A path is followed from the root, and leads to what it ends at, or to the version
/// that this links to.
pub proof fn law_paths_lead_from_the_root<B: Backend>(s: Setup<B>, p: Seq<char>, r: TreeOutcome<Key>)
    ensures
        super::may_resolve_path(s, p, r) <==> exists|end: TreeOutcome<Key>| #[trigger]
            may_walk(s, Key::Root, path::components(p), end) && match end {
                Ok(k) => r == Ok::<Key, TreeFault>(resolved(s.index, k)),
                Err(f) => r == Err::<Key, TreeFault>(f),
            },
{
    if super::may_resolve_path(s, p, r) {
        let end = choose|end: TreeOutcome<Key>| #[trigger]
            may_walk(s, Key::Root, path::components(p), end) && r == match end {
                Ok(k) => Ok(resolved(s.index, k)),
                Err(f) => Err(f),
            };
        assert(may_walk(s, Key::Root, path::components(p), end));
    }
}

} // verus!
