//! What the filesystem promises of its answers.

use vstd::prelude::*;

use super::xattr;
use super::xattr::XattrView;
use super::{attr_of, may_read, told, with_dots, FsFault};
use crate::backend::Backend;
use crate::store::contents::ParsedView;
use crate::store::error::{Outcome, ReadFault};
use crate::store::laws;
use crate::store::setup;
use crate::store::setup::{Past, Setup};
use crate::store::table::LocView;
use crate::text;
use crate::tree;
use crate::tree::listing::Attr;
use crate::tree::{EntryView, Key, Kind, Meta, TreeFault};

verus! {

/// What is answered of a node is what the tree tells of it, for its own inode and
/// owner; the blocks are as few units of 512 bytes as hold it; and nobody may write
/// to it: everyone may read it, and look into a directory.
pub proof fn law_attributes_tell_the_node(ino: u64, meta: Meta, uid: u32, gid: u32)
    ensures
        ({
            let a = attr_of(ino, meta, uid, gid);
            &&& a.ino == ino && a.uid == uid && a.gid == gid
            &&& a.size == meta.size && a.mtime == meta.mtime && a.kind == meta.kind
            &&& a.blocks * 512 >= meta.size
            &&& a.blocks > 0 ==> (a.blocks - 1) * 512 < meta.size
            &&& a.perm == match meta.kind {
                Kind::Dir => 5 * 64 + 5 * 8 + 5nat,
                Kind::File => 4 * 64 + 4 * 8 + 4,
                Kind::Symlink => 7 * 64 + 7 * 8 + 7,
            }
            &&& a.nlink == if meta.kind is Dir {
                2int
            } else {
                1int
            }
            &&& a.blksize == 0x1_0000
        }),
{
}

/// A directory is listed with itself and the directory it is in before all else,
/// and nothing of what it holds is left out, moved or changed.
pub proof fn law_a_listing_begins_with_the_dots(key: Key, parent: Key, list: Seq<EntryView>)
    ensures
        ({
            let all = with_dots(key, parent, list);
            &&& all.len() == list.len() + 2
            &&& all[0] == (EntryView { name: text::utf8("."@), key, kind: Kind::Dir })
            &&& all[1] == (EntryView { name: text::utf8(".."@), key: parent, kind: Kind::Dir })
            &&& forall|k: int| 0 <= k < list.len() ==> all[k + 2] == #[trigger] list[k]
        }),
{
}

/// What the tree refuses, the filesystem refuses for the same reason.
pub proof fn law_refusals_are_passed_on(f: TreeFault)
    ensures
        f is NotFound <==> told(f) is NoEntry,
        f is NotADirectory <==> told(f) is NotADirectory,
        f matches TreeFault::Read(x) ==> told(f) == FsFault::Read(x),
{
}

/// A read gives the bytes at its offset, as many as were asked for or as there are
/// up to the end of the file: each is the one at its place of the block that it is
/// in, which is what the dat holds there, decoded; as long as every other file that
/// was asked for has the same blocks where it has any in their place.
pub proof fn law_a_read_gives_the_bytes_at_its_offset<B: Backend>(
    s: Setup<B>,
    past: Past,
    loc: LocView,
    c: Seq<u8>,
    offset: u64,
    size: u32,
    out: Seq<u8>,
    k: int,
)
    requires
        loc.dat is Some,
        loc.fits(s.index),
        laws::is_file(s.backend, s.index.dat(loc.dat->0).path, c),
        forall|i: int| 0 <= i < loc.record.blocks.len() ==> #[trigger] setup::alike(past, loc, i),
        may_read(s, past, loc, offset, size, Ok(out)),
    ensures
        out.len() == if offset >= loc.record.size {
            0
        } else if loc.record.size - offset < size {
            loc.record.size - offset
        } else {
            size as int
        },
        0 <= k < out.len() ==> exists|b: Seq<u8>| #[trigger]
            laws::is_block(s, past, loc, c, (offset + k) / 0x8000, b) && out[k] == b[(offset + k)
                % 0x8000],
{
    let end = setup::least(offset + size, loc.record.size as int);
    if offset < loc.record.size && size > 0 {
        setup::law_reads_are_whole(s, past, loc, offset as int, end, out);
        if 0 <= k < out.len() {
            laws::law_read_bytes_are_decoded_from_the_dat(
                s,
                past,
                loc,
                c,
                offset as int,
                end,
                out,
                k,
            );
        }
    }
}

/// The value of an attribute is that of the first with its name, and there is none
/// only where none has the name.
pub proof fn law_attributes_are_found_by_name(attrs: Seq<Attr>, name: Seq<char>)
    ensures
        match xattr::value(attrs, name) {
            Some(v) => exists|k: int|
                0 <= k < attrs.len() && #[trigger] attrs[k] == (name, v) && forall|j: int|
                    0 <= j < k ==> (#[trigger] attrs[j]).0 != name,
            None => forall|k: int| 0 <= k < attrs.len() ==> (#[trigger] attrs[k]).0 != name,
        },
    decreases attrs.len(),
{
    if attrs.len() > 0 {
        let rest = attrs.skip(1);
        law_attributes_are_found_by_name(rest, name);
        if attrs[0].0 == name {
            assert(attrs[0] == (name, attrs[0].1));
        } else {
            match xattr::value(rest, name) {
                Some(v) => {
                    let k = choose|k: int|
                        0 <= k < rest.len() && #[trigger] rest[k] == (name, v) && forall|j: int|
                            0 <= j < k ==> (#[trigger] rest[j]).0 != name;
                    assert(attrs[k + 1] == (name, v));
                    assert forall|j: int| 0 <= j < k + 1 implies (#[trigger] attrs[j]).0
                        != name by {
                        if j > 0 {
                            assert(rest[j - 1].0 != name);
                        }
                    }
                },
                None => {
                    assert forall|k: int| 0 <= k < attrs.len() implies (#[trigger] attrs[k]).0
                        != name by {
                        if k > 0 {
                            assert(rest[k - 1].0 != name);
                        }
                    }
                },
            }
        }
    }
}

/// The names of attributes stand one behind the other, in order, each with a NUL
/// behind it.
pub proof fn law_names_stand_in_a_row(a: Seq<Attr>, x: Attr, b: Seq<Attr>)
    ensures
        xattr::names(Seq::empty()) == Seq::<u8>::empty(),
        xattr::names(seq![x]) == text::utf8(x.0) + seq![0u8],
        xattr::names(a + b) == xattr::names(a) + xattr::names(b),
    decreases b.len(),
{
    let x1 = seq![x];
    assert(x1.drop_last() =~= Seq::<Attr>::empty());
    assert(x1.last() == x);
    assert(xattr::names(x1) == xattr::names(x1.drop_last()) + text::utf8(x.0) + seq![0u8]);
    assert(xattr::names(x1) =~= text::utf8(x.0) + seq![0u8]);
    if b.len() == 0 {
        assert(a + b =~= a);
        assert(xattr::names(a + b) =~= xattr::names(a) + xattr::names(b));
    } else {
        law_names_stand_in_a_row(a, x, b.drop_last());
        assert((a + b).drop_last() =~= a + b.drop_last());
        assert((a + b).last() == b.last());
        assert(xattr::names(a + b) =~= xattr::names(a) + xattr::names(b));
    }
}

/// Who asks with no room is told how much it takes; who then asks with so much or
/// more gets all of it, and who asks with less is refused.
pub proof fn law_what_is_told_is_enough(bytes: Seq<u8>, room: u32)
    requires
        bytes.len() <= u32::MAX,
    ensures
        xattr::reply_of(bytes, 0) == XattrView::Size(bytes.len() as u32),
        0 < room < bytes.len() ==> xattr::reply_of(bytes, room) == XattrView::Range,
        0 < room && bytes.len() <= room ==> xattr::reply_of(bytes, room) == XattrView::Data(bytes),
{
}

/// What is answered of a key is what the tree tells of it, or why that cannot be told.
pub proof fn law_answers_are_of_the_key<B: Backend>(
    s: Setup<B>,
    key: Key,
    ino: u64,
    uid: u32,
    gid: u32,
    r: super::FsOutcome<super::FileAttr>,
)
    requires
        super::may_attr(s, key, ino, uid, gid, r),
    ensures
        match r {
            Ok(a) => a.ino == ino && exists|m: Meta| #[trigger]
                tree::may_meta(s, key, Ok(m)) && a == attr_of(ino, m, uid, gid),
            Err(f) => exists|x: TreeFault| #[trigger]
                tree::may_meta(s, key, Err(x)) && f == told(x),
        },
{
    let o = choose|m: tree::TreeOutcome<Meta>| #[trigger]
        tree::may_meta(s, key, m) && r == match m {
            Ok(m) => Ok(attr_of(ino, m, uid, gid)),
            Err(f) => Err(told(f)),
        };
    match o {
        Ok(m) => {
            assert(tree::may_meta(s, key, Ok(m)));
        },
        Err(x) => {
            assert(tree::may_meta(s, key, Err(x)));
        },
    }
}

/// The bytes of a file are looked for by the number that its own node has, in the
/// version that it is of; nothing else has bytes.
pub proof fn law_bytes_are_of_the_file<B: Backend>(
    s: Setup<B>,
    key: Key,
    p: ParsedView,
    loc: LocView,
)
    requires
        setup::steady(s.backend),
        super::may_locate(s, key, Ok(loc)),
        key matches Key::Node(b, _) ==> s.may_parse(b, Ok(p)),
    ensures
        key is Node,
        key->Node_1 < p.manifest.nodes.len(),
        tree::may_find(s, key->Node_0, p.manifest.nodes[key->Node_1 as int].file_id, Ok(loc)),
{
    let (b, idx) = (key->Node_0, key->Node_1);
    let r: Outcome<LocView> = Ok(loc);
    let o = choose|o: Outcome<ParsedView>| #[trigger]
        s.may_parse(b, o) && match o {
            Err(f) => r == Err::<LocView, ReadFault>(f),
            Ok(p) => if p.manifest.has(idx) {
                tree::may_find(s, b, p.manifest.nodes[idx as int].file_id, r)
            } else {
                r == Err::<LocView, ReadFault>(ReadFault::MissingRecord(idx))
            },
        };
    setup::law_steady_blobs(s, b, o, Ok(p));
}

} // verus!
