//! What a manifest promises of its tree, its names and its flags.

use vstd::prelude::*;

use super::flags;
use super::{until_nul, ManifestView};
use crate::text;

verus! {

// ---- names ----------------------------------------------------------------

/// What stands before the first NUL.
pub proof fn law_a_text_ends_at_its_nul(name: Seq<u8>, rest: Seq<u8>)
    requires
        !name.contains(0),
    ensures
        until_nul(name + seq![0u8] + rest) == name,
        until_nul(name) == name,
    decreases name.len(),
{
    let s = name + seq![0u8] + rest;
    if name.len() == 0 {
        assert(s[0] == 0);
        assert(until_nul(s) =~= name);
        assert(until_nul(name) =~= name);
    } else {
        let t = name.skip(1);
        if t.contains(0) {
            let i = choose|i: int| 0 <= i < t.len() && t[i] == 0;
            assert(name[i + 1] == 0);
        }
        law_a_text_ends_at_its_nul(t, rest);
        assert(s.skip(1) =~= t + seq![0u8] + rest);
        assert(name.contains(name[0]));
        assert(s[0] == name[0]);
        assert(name =~= seq![name[0]] + t);
    }
}

/// The name of a node is what stands at its place in the table of names, up to the
/// NUL behind it.
pub proof fn law_a_name_is_read_from_the_table(
    v: ManifestView,
    i: u32,
    before: Seq<u8>,
    name: Seq<u8>,
    rest: Seq<u8>,
)
    requires
        v.has(i),
        v.strings == before + name + seq![0u8] + rest,
        v.nodes[i as int].name_offset == before.len(),
        !name.contains(0),
    ensures
        v.name(i) == name,
{
    law_a_text_ends_at_its_nul(name, rest);
    assert(v.strings.skip(before.len() as int) =~= name + seq![0u8] + rest);
}

// ---- the tree -------------------------------------------------------------

/// A link leads nowhere.
pub open spec fn ends(link: u32) -> bool {
    link == 0 || link == 0xffff_ffff
}

proof fn lemma_links(v: ManifestView, next: u32, remaining: nat)
    requires
        v.sound(),
        ends(next) || v.has(next),
    ensures
        ({
            let s = v.siblings(next, remaining);
            &&& s.len() > 0 ==> s[0] == next && !ends(next)
            &&& s.len() == 0 ==> remaining == 0 || ends(next)
            &&& forall|k: int|
                0 <= k < s.len() - 1 ==> s[k + 1] == v.nodes[#[trigger] s[k] as int].next_sibling
            &&& forall|k: int| 0 <= k < s.len() ==> v.has(#[trigger] s[k])
            &&& 0 < s.len() < remaining ==> ends(v.nodes[s.last() as int].next_sibling)
        }),
    decreases remaining,
{
    let s = v.siblings(next, remaining);
    if s.len() > 0 {
        let link = v.nodes[next as int].next_sibling;
        let t = v.siblings(link, (remaining - 1) as nat);
        assert(v.node_problem(next as int) is None);
        lemma_links(v, link, (remaining - 1) as nat);
        assert(s == seq![next] + t);
        assert forall|k: int| 0 <= k < s.len() - 1 implies s[k + 1]
            == v.nodes[#[trigger] s[k] as int].next_sibling by {
            if k > 0 {
                assert(t[k - 1] == s[k]);
                assert(t[k - 1 + 1] == v.nodes[t[k - 1] as int].next_sibling);
            }
        }
        assert forall|k: int| 0 <= k < s.len() implies v.has(#[trigger] s[k]) by {
            if k > 0 {
                assert(t[k - 1] == s[k]);
            }
        }
        if t.len() > 0 {
            assert(s.last() == t.last());
        }
    }
}

/// The children of a directory are met by its first link and then each by the link
/// of the one before; they end where a link leads nowhere, or where there are as
/// many as the directory counts. A file has none.
pub proof fn law_children_follow_the_links(v: ManifestView, dir: u32)
    requires
        v.sound(),
        v.has(dir),
    ensures
        ({
            let n = v.nodes[dir as int];
            let s = v.children(dir);
            &&& n.file_id != 0xffff_ffff ==> s.len() == 0
            &&& s.len() <= n.count_or_size
            &&& s.len() > 0 ==> s[0] == n.first_child
            &&& forall|k: int|
                0 <= k < s.len() - 1 ==> s[k + 1] == v.nodes[#[trigger] s[k] as int].next_sibling
            &&& n.file_id == 0xffff_ffff && s.len() < n.count_or_size ==> ends(
                if s.len() == 0 {
                    n.first_child
                } else {
                    v.nodes[s.last() as int].next_sibling
                },
            )
        }),
{
    let n = v.nodes[dir as int];
    assert(v.node_problem(dir as int) is None);
    super::law_children_are_nodes(v, dir);
    if n.file_id == 0xffff_ffff {
        lemma_links(v, n.first_child, n.count_or_size as nat);
    }
}

/// The root is the first node without a parent.
pub proof fn law_the_root_has_no_parent(v: ManifestView, i: u32)
    requires
        v.has(i),
        v.nodes[i as int].parent == 0xffff_ffff,
    ensures
        v.has(v.root()),
        v.nodes[v.root() as int].parent == 0xffff_ffff,
        v.root() <= i,
    decreases i,
{
    if v.is_root(i) {
        let r = choose|r: u32| v.is_root(r);
        assert(v.is_root(r));
        if i < r {
            assert(v.nodes[i as int].parent != 0xffff_ffff);
        }
    } else {
        let j = choose|j: int| 0 <= j < i && (#[trigger] v.nodes[j]).parent == 0xffff_ffff;
        law_the_root_has_no_parent(v, j as u32);
    }
}

/// Where every node has a parent, the first one stands for the root.
pub proof fn law_some_node_is_the_root(v: ManifestView)
    requires
        forall|i: int|
            0 <= i < v.nodes.len() ==> (#[trigger] v.nodes[i]).parent != 0xffff_ffff,
    ensures
        v.root() == 0,
{
    if exists|i: u32| v.is_root(i) {
        let i = choose|i: u32| v.is_root(i);
        assert(v.nodes[i as int].parent != 0xffff_ffff);
    }
}

proof fn lemma_enough(v: ManifestView, i: u32, most: nat, more: nat)
    requires
        v.ancestors(i, most).len() < most <= more,
    ensures
        v.ancestors(i, more) == v.ancestors(i, most),
    decreases most,
{
    if v.has(i) && v.nodes[i as int].parent != 0xffff_ffff {
        lemma_enough(v, v.nodes[i as int].parent, (most - 1) as nat, (more - 1) as nat);
    }
}

/// The path of a node is that of its parent, a slash and its own name; where the
/// parent is at the top, it is the name alone; and a node at the top has none. This
/// holds of every node from which the parents lead to the top.
pub proof fn law_a_path_goes_on_from_the_parent(v: ManifestView, i: u32)
    requires
        v.sound(),
        v.has(i),
        v.ancestors(i, v.nodes.len()).len() < v.nodes.len(),
    ensures
        ({
            let p = v.nodes[i as int].parent;
            v.path(i) == if p == 0xffff_ffff {
                Seq::empty()
            } else if v.nodes[p as int].parent == 0xffff_ffff {
                v.name(i)
            } else {
                v.path(p) + seq!['/' as u8] + v.name(i)
            }
        }),
{
    let p = v.nodes[i as int].parent;
    let n = v.nodes.len();
    assert(v.node_problem(i as int) is None);
    let up = v.ancestors(i, n);
    let names = v.path_names(i);
    if p == 0xffff_ffff {
        assert(up.len() == 0);
        assert(v.path(i) =~= Seq::<u8>::empty());
    } else {
        let above = v.ancestors(p, (n - 1) as nat);
        assert(up == seq![i] + above);
        if above.len() < n - 1 {
            lemma_enough(v, p, (n - 1) as nat, n);
        }
        assert(names.drop_last() =~= v.path_names(p));
        assert(names.last() == v.name(i));
        if v.nodes[p as int].parent == 0xffff_ffff {
            assert(above.len() == 0);
            assert(names.len() == 1);
        } else {
            assert(above.len() > 0);
            assert(names.len() > 1);
        }
    }
}

// ---- flags ----------------------------------------------------------------

/// Names with a comma between each two.
pub open spec fn commas(names: Seq<Seq<char>>) -> Seq<char>
    decreases names.len(),
{
    if names.len() == 0 {
        Seq::empty()
    } else if names.len() == 1 {
        names[0]
    } else {
        commas(names.drop_last()) + ","@ + names.last()
    }
}

/// A name where all its bits are set, and none where not.
pub open spec fn named(v: u32, bits: u32, name: Seq<char>) -> Seq<Seq<char>> {
    if v & bits == bits {
        seq![name]
    } else {
        Seq::empty()
    }
}

/// The bits of `v` that are not among those of a name that it has.
pub open spec fn without(v: u32, left: u32) -> bool {
    let rest = !0x414bu32;
    &&& left & 0x4141 == 0
    &&& left & rest == v & rest
    &&& left & 0x000a == if v & 0x000a == 0x000a {
        0u32
    } else {
        v & 0x000a
    }
}

spec fn cleared(v: u32, bits: u32) -> u32 {
    if v & bits == bits {
        v & !bits
    } else {
        v
    }
}

proof fn lemma_bits(v: u32)
    ensures
        ({
            let a = cleared(v, 0x4000);
            let b = cleared(a, 0x0100);
            let c = cleared(b, 0x0040);
            let d = cleared(c, 0x000a);
            &&& a & 0x0100 == v & 0x0100
            &&& b & 0x0040 == v & 0x0040
            &&& c & 0x000a == v & 0x000a
            &&& d & 0x0001 == v & 0x0001
            &&& without(v, cleared(d, 0x0001))
        }),
{
    let a = cleared(v, 0x4000);
    let b = cleared(a, 0x0100);
    let c = cleared(b, 0x0040);
    let d = cleared(c, 0x000a);
    let e = cleared(d, 0x0001);
    assert(a & 0x0100 == v & 0x0100 && b & 0x0040 == v & 0x0040 && c & 0x000a == v & 0x000a && d
        & 0x0001 == v & 0x0001 && e & 0x4141 == 0 && e & !0x414bu32 == v & !0x414bu32 && e & 0x000a
        == (if v & 0x000a == 0x000a {
        0u32
    } else {
        v & 0x000a
    })) by (bit_vector)
        requires
            a == (if v & 0x4000 == 0x4000 {
                v & !0x4000u32
            } else {
                v
            }),
            b == (if a & 0x0100 == 0x0100 {
                a & !0x0100u32
            } else {
                a
            }),
            c == (if b & 0x0040 == 0x0040 {
                b & !0x0040u32
            } else {
                b
            }),
            d == (if c & 0x000a == 0x000a {
                c & !0x000au32
            } else {
                c
            }),
            e == (if d & 0x0001 == 0x0001 {
                d & !0x0001u32
            } else {
                d
            }),
    ;
}

proof fn lemma_one_more(names: Seq<Seq<char>>, v: u32, bits: u32, name: Seq<char>)
    requires
        name.len() > 0,
        names.len() > 0 ==> commas(names).len() > 0,
    ensures
        commas(names + named(v, bits, name)) == if v & bits == bits {
            flags::listed(commas(names), name)
        } else {
            commas(names)
        },
        (names + named(v, bits, name)).len() > 0 ==> commas(names + named(v, bits, name)).len() > 0,
{
    let all = names + named(v, bits, name);
    if v & bits == bits {
        assert(all.drop_last() =~= names);
        assert(all.last() == name);
    } else {
        assert(all =~= names);
    }
}

/// The names of the flags of a word.
pub open spec fn flag_names(v: u32) -> Seq<Seq<char>> {
    Seq::empty() + named(v, 0x4000, "file"@) + named(v, 0x0100, "encrypted"@) + named(
        v,
        0x0040,
        "backup_local"@,
    ) + named(v, 0x000a, "copy_local"@) + named(v, 0x0001, "copy_local_no_overwrite"@)
}

/// The flags of a word are named in order, each where all its bits are set; the
/// bits that no name accounts for follow in hexadecimal; and a word without any is
/// a directory's.
pub proof fn law_flags_are_named(v: u32, left: u32)
    requires
        without(v, left),
    ensures
        flags::described(v) == if left != 0 {
            commas(flag_names(v).push(text::prefixed_hex(left as nat, 0)))
        } else if flag_names(v).len() == 0 {
            "directory"@
        } else {
            commas(flag_names(v))
        },
{
    lemma_bits(v);
    let a = cleared(v, 0x4000);
    let b = cleared(a, 0x0100);
    let c = cleared(b, 0x0040);
    let d = cleared(c, 0x000a);
    let e = cleared(d, 0x0001);
    assert(e == left) by (bit_vector)
        requires
            e & 0x4141 == 0,
            e & !0x414bu32 == v & !0x414bu32,
            e & 0x000a == (if v & 0x000a == 0x000a {
                0u32
            } else {
                v & 0x000a
            }),
            left & 0x4141 == 0,
            left & !0x414bu32 == v & !0x414bu32,
            left & 0x000a == (if v & 0x000a == 0x000a {
                0u32
            } else {
                v & 0x000a
            }),
    ;
    reveal_strlit("file");
    reveal_strlit("encrypted");
    reveal_strlit("backup_local");
    reveal_strlit("copy_local");
    reveal_strlit("copy_local_no_overwrite");
    let s0 = Seq::<Seq<char>>::empty();
    let s1 = s0 + named(v, 0x4000, "file"@);
    let s2 = s1 + named(v, 0x0100, "encrypted"@);
    let s3 = s2 + named(v, 0x0040, "backup_local"@);
    let s4 = s3 + named(v, 0x000a, "copy_local"@);
    lemma_one_more(s0, v, 0x4000, "file"@);
    lemma_one_more(s1, v, 0x0100, "encrypted"@);
    lemma_one_more(s2, v, 0x0040, "backup_local"@);
    lemma_one_more(s3, v, 0x000a, "copy_local"@);
    lemma_one_more(s4, v, 0x0001, "copy_local_no_overwrite"@);
    let k = flags::known(v);
    assert(k == (left, commas(flag_names(v))));
    let names = flag_names(v);
    let hex = text::prefixed_hex(left as nat, 0);
    if left != 0 {
        let all = names.push(hex);
        assert(all.drop_last() =~= names);
        if names.len() > 0 {
            assert(commas(all) == commas(names) + ","@ + hex);
        } else {
            assert(commas(all) == hex);
        }
    }
}

} // verus!
