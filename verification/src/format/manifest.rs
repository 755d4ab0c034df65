//! Binary manifest (`CManifestBin`): the directory tree of one depot version.
//!
//! ```text
//! header (0x38 bytes, 14 x u32):
//!   version(3|4), app_id, version_id, num_nodes, num_files, block_size,
//!   binary_size, string_table_size, hash_buckets, num_mfp_nodes,
//!   num_user_config_nodes, depot_info, fingerprint, checksum
//! nodes (0x1c bytes each, 7 x u32):
//!   name_offset, count_or_size, file_id, flags, parent, next_sibling, first_child
//! string table (NUL-terminated names)
//! ... hash buckets / mfp / user config nodes (ignored here)
//! ```
//!
//! The checksum is adler32 (seed 0) of the whole buffer with the fingerprint
//! and checksum fields zeroed.
//!
//! Only `parent` uses 0xffffffff as "none"; `first_child` and `next_sibling`
//! use 0 (the root can never be a child or sibling).

use vstd::prelude::*;
use vstd::slice::slice_subrange;

use super::{malformed, words_at, Outcome, Problem, Result, BLOCK_SIZE};
use crate::codec;
use crate::sort;
use crate::sort::{Keyed, Rank};
use crate::text;

pub mod flags;
pub mod laws;

verus! {

pub const HEADER_SIZE: usize = 0x38;

pub const NODE_SIZE: usize = 0x1c;

pub const NO_NODE: u32 = 0xffff_ffff;

pub const NO_FILE: u32 = 0xffff_ffff;

#[derive(Debug, Clone, Copy, PartialEq, Eq, Structural)]
pub struct Node {
    pub name_offset: u32,
    /// Child count for directories, byte size for files.
    pub count_or_size: u32,
    pub file_id: u32,
    pub flags: u32,
    pub parent: u32,
    pub next_sibling: u32,
    pub first_child: u32,
}

impl Node {
    pub open spec fn dir(self) -> bool {
        self.file_id == NO_FILE
    }

    pub fn is_dir(&self) -> (r: bool)
        ensures
            r == self.dir(),
    {
        self.file_id == NO_FILE
    }
}

/// A manifest, as the contracts see it.
#[verifier::ext_equal]
pub struct ManifestView {
    pub format_version: u32,
    pub app_id: u32,
    pub version_id: u32,
    pub depot_info: u32,
    pub fingerprint: u32,
    pub nodes: Seq<Node>,
    pub strings: Seq<u8>,
}

#[derive(Debug)]
pub struct Manifest {
    pub format_version: u32,
    pub app_id: u32,
    pub version_id: u32,
    pub depot_info: u32,
    pub fingerprint: u32,
    pub tree: NodeTable,
}

/// The nodes of a manifest, and their names.
#[derive(Debug)]
pub struct NodeTable {
    nodes: Vec<Node>,
    string_table: Vec<u8>,
    /// Every node that has a parent, sorted by (parent, name), so a child
    /// can be found by binary search against the string table - without a
    /// second copy of every name, or an allocation per lookup.
    by_name: Vec<u32>,
}

impl NodeTable {
    pub closed spec fn all(&self) -> Seq<Node> {
        self.nodes@
    }

    pub closed spec fn strings(&self) -> Seq<u8> {
        self.string_table@
    }
}

impl View for Manifest {
    type V = ManifestView;

    open spec fn view(&self) -> ManifestView {
        ManifestView {
            format_version: self.format_version,
            app_id: self.app_id,
            version_id: self.version_id,
            depot_info: self.depot_info,
            fingerprint: self.fingerprint,
            nodes: self.tree.all(),
            strings: self.tree.strings(),
        }
    }
}

// ---- what a manifest says -------------------------------------------------

/// `s` up to its first NUL.
pub open spec fn until_nul(s: Seq<u8>) -> Seq<u8>
    decreases s.len(),
{
    if s.len() == 0 || s[0] == 0 {
        Seq::empty()
    } else {
        seq![s[0]] + until_nul(s.skip(1))
    }
}

/// Byte strings, with a slash between each two.
pub open spec fn slashed(parts: Seq<Seq<u8>>) -> Seq<u8>
    decreases parts.len(),
{
    if parts.len() == 0 {
        Seq::empty()
    } else if parts.len() == 1 {
        parts[0]
    } else {
        slashed(parts.drop_last()) + seq![0x2fu8] + parts.last()
    }
}

impl ManifestView {
    /// Whether `i` is the number of a node.
    pub open spec fn has(self, i: u32) -> bool {
        i < self.nodes.len()
    }

    /// The name of a node; empty for an unknown one.
    pub open spec fn name(self, i: u32) -> Seq<u8> {
        if self.has(i) {
            until_nul(self.strings.skip(self.nodes[i as int].name_offset as int))
        } else {
            Seq::empty()
        }
    }

    /// `i` is the first node without a parent.
    pub open spec fn is_root(self, i: u32) -> bool {
        &&& self.has(i)
        &&& self.nodes[i as int].parent == NO_NODE
        &&& forall|j: int| 0 <= j < i ==> (#[trigger] self.nodes[j]).parent != NO_NODE
    }

    /// The first node without a parent, or 0.
    pub open spec fn root(self) -> u32 {
        if exists|i: u32| self.is_root(i) {
            choose|i: u32| self.is_root(i)
        } else {
            0
        }
    }

    /// The nodes that are met from `next` on, following the sibling links for
    /// at most `remaining` nodes.
    pub open spec fn siblings(self, next: u32, remaining: nat) -> Seq<u32>
        decreases remaining,
    {
        if next == 0 || next == NO_NODE || remaining == 0 || !self.has(next) {
            Seq::empty()
        } else {
            seq![next] + self.siblings(
                self.nodes[next as int].next_sibling,
                (remaining - 1) as nat,
            )
        }
    }

    /// A directory's children in sibling order.
    pub open spec fn children(self, dir: u32) -> Seq<u32> {
        if self.has(dir) && self.nodes[dir as int].dir() {
            let n = self.nodes[dir as int];
            self.siblings(n.first_child, n.count_or_size as nat)
        } else {
            Seq::empty()
        }
    }

    /// Node `c` has the parent `dir` and the name `name`.
    pub open spec fn is_child(self, c: u32, dir: u32, name: Seq<u8>) -> bool {
        &&& self.has(c)
        &&& dir != NO_NODE
        &&& self.nodes[c as int].parent == dir
        &&& self.name(c) == name
    }

    pub open spec fn is_first_child(self, c: u32, dir: u32, name: Seq<u8>) -> bool {
        &&& self.is_child(c, dir, name)
        &&& forall|j: u32| j < c ==> !#[trigger] self.is_child(j, dir, name)
    }

    /// The first node with the parent `dir` and the name `name`.
    pub open spec fn child_named(self, dir: u32, name: Seq<u8>) -> Option<u32> {
        if exists|c: u32| self.is_first_child(c, dir, name) {
            Some(choose|c: u32| self.is_first_child(c, dir, name))
        } else {
            None
        }
    }

    /// `i` and what is above it, as long as there is a parent, at most `most`
    /// nodes.
    pub open spec fn ancestors(self, i: u32, most: nat) -> Seq<u32>
        decreases most,
    {
        if most == 0 || !self.has(i) || self.nodes[i as int].parent == NO_NODE {
            Seq::empty()
        } else {
            seq![i] + self.ancestors(self.nodes[i as int].parent, (most - 1) as nat)
        }
    }

    /// The names from the top down to node `i`.
    pub open spec fn path_names(self, i: u32) -> Seq<Seq<u8>> {
        let up = self.ancestors(i, self.nodes.len());
        Seq::new(up.len(), |k: int| self.name(up[up.len() - 1 - k]))
    }

    /// Full path of a node, without a leading slash.
    pub open spec fn path(self, i: u32) -> Seq<u8> {
        slashed(self.path_names(i))
    }

    /// What is wrong with node `i`, if anything is.
    pub open spec fn node_problem(self, i: int) -> Option<Problem> {
        let n = self.nodes[i];
        if n.name_offset >= self.strings.len() {
            Some(Problem::NodeName(i as u64))
        } else if n.parent != NO_NODE && !self.has(n.parent) {
            Some(Problem::NodeParent(i as u64))
        } else if n.first_child != 0 && n.first_child != NO_NODE && !self.has(n.first_child) {
            Some(Problem::NodeFirstChild { node: i as u64, link: n.first_child })
        } else if n.next_sibling != 0 && n.next_sibling != NO_NODE && !self.has(n.next_sibling) {
            Some(Problem::NodeNextSibling { node: i as u64, link: n.next_sibling })
        } else {
            None
        }
    }

    /// The first thing wrong with a node from `i` on, if anything is.
    pub open spec fn first_problem(self, i: int) -> Option<Problem>
        decreases self.nodes.len() - i,
    {
        if i >= self.nodes.len() {
            None
        } else if self.node_problem(i) is Some {
            self.node_problem(i)
        } else {
            self.first_problem(i + 1)
        }
    }

    /// Every name, parent and link of every node is in range.
    pub open spec fn sound(self) -> bool {
        &&& self.nodes.len() <= u32::MAX
        &&& forall|i: int|
            0 <= i < self.nodes.len() ==> (#[trigger] self.node_problem(i)) is None
    }

    /// What nodes are sorted by: parent, then name.
    pub open spec fn sort_key(self, i: u32) -> Seq<int> {
        let parent = if self.has(i) {
            self.nodes[i as int].parent
        } else {
            NO_NODE
        };
        child_key(parent, self.name(i))
    }
}

/// A parent and a name as a key.
pub open spec fn child_key(parent: u32, name: Seq<u8>) -> Seq<int> {
    seq![parent as int] + sort::byte_key(name)
}

// ---- the layout -----------------------------------------------------------

/// Node `i` of a manifest's bytes.
pub open spec fn node_at(d: Seq<u8>, i: int) -> Node {
    let base = HEADER_SIZE + i * NODE_SIZE;
    Node {
        name_offset: super::le32(d, base) as u32,
        count_or_size: super::le32(d, base + 4) as u32,
        file_id: super::le32(d, base + 8) as u32,
        flags: super::le32(d, base + 12) as u32,
        parent: super::le32(d, base + 16) as u32,
        next_sibling: super::le32(d, base + 20) as u32,
        first_child: super::le32(d, base + 24) as u32,
    }
}

/// Where the nodes end and the names begin.
pub open spec fn nodes_end(d: Seq<u8>) -> int {
    HEADER_SIZE + super::le32(d, 12) * NODE_SIZE
}

/// Where the names end.
pub open spec fn strings_end(d: Seq<u8>) -> int {
    nodes_end(d) + super::le32(d, 28)
}

/// What the fields and tables of a manifest hold.
pub open spec fn fields(d: Seq<u8>) -> ManifestView {
    ManifestView {
        format_version: super::le32(d, 0) as u32,
        app_id: super::le32(d, 4) as u32,
        version_id: super::le32(d, 8) as u32,
        depot_info: super::le32(d, 44) as u32,
        fingerprint: super::le32(d, 48) as u32,
        nodes: Seq::new(super::le32(d, 12), |i: int| node_at(d, i)),
        strings: d.subrange(nodes_end(d), strings_end(d)),
    }
}

/// The manifest in `d`, given the checksum of its bytes.
pub open spec fn manifest_with(d: Seq<u8>, actual: u32) -> Outcome<ManifestView> {
    if d.len() < HEADER_SIZE {
        super::bad(Problem::ManifestShort)
    } else if super::le32(d, 0) != 3 && super::le32(d, 0) != 4 {
        super::bad(Problem::ManifestVersion(super::le32(d, 0) as u32))
    } else if super::le32(d, 20) != BLOCK_SIZE {
        super::bad(Problem::ManifestBlockSize(super::le32(d, 20) as u32))
    } else if super::le32(d, 24) != d.len() {
        super::bad(
            Problem::ManifestSize { binary_size: super::le32(d, 24) as u64, len: d.len() as u64 },
        )
    } else if super::le32(d, 52) != actual {
        super::bad(Problem::ManifestChecksum { actual, expected: super::le32(d, 52) as u32 })
    } else if strings_end(d) > d.len() {
        super::bad(Problem::ManifestTables)
    } else {
        match fields(d).first_problem(0) {
            Some(p) => super::bad(p),
            None => Ok(fields(d)),
        }
    }
}

/// `d` with the fingerprint and checksum fields zeroed.
pub open spec fn zeroed(d: Seq<u8>) -> Seq<u8> {
    d.take(0x30) + seq![0u8, 0u8, 0u8, 0u8, 0u8, 0u8, 0u8, 0u8] + d.skip(0x38)
}

/// The manifest in `d`.
pub open spec fn manifest_of(d: Seq<u8>) -> Outcome<ManifestView> {
    manifest_with(d, codec::adler32(0, zeroed(d)))
}

/// adler32 with seed 0 over the buffer with the fingerprint (0x30) and
/// checksum (0x34) fields treated as zero.
pub fn checksum(data: &[u8]) -> (r: u32)
    requires
        data@.len() >= HEADER_SIZE,
    ensures
        r == codec::adler32(0, zeroed(data@)),
{
    let head = slice_subrange(data, 0, 0x30);
    let mut zeros: Vec<u8> = Vec::new();
    let mut i: usize = 0;
    while i < 8
        invariant
            i <= 8,
            zeros@ == Seq::new(i as nat, |j: int| 0u8),
        decreases 8 - i,
    {
        zeros.push(0);
        assert(zeros@ =~= Seq::new((i + 1) as nat, |j: int| 0u8));
        i += 1;
    }
    let tail = slice_subrange(data, 0x38, data.len());
    assert(zeros@ =~= seq![0u8, 0u8, 0u8, 0u8, 0u8, 0u8, 0u8, 0u8]);
    assert(head@ =~= data@.take(0x30));
    assert(tail@ =~= data@.skip(0x38));
    let a = codec::adler32_from(0, head);
    let b = codec::adler32_from(a, zeros.as_slice());
    let c = codec::adler32_from(b, tail);
    c
}

// ---- lemmas ---------------------------------------------------------------

proof fn lemma_until_nul(s: Seq<u8>, end: int)
    requires
        0 <= end <= s.len(),
        forall|j: int| 0 <= j < end ==> s[j] != 0,
        end < s.len() ==> s[end] == 0,
    ensures
        until_nul(s) == s.take(end),
    decreases s.len(),
{
    if end == 0 {
        assert(s.take(0) =~= Seq::<u8>::empty());
    } else {
        assert forall|j: int| 0 <= j < end - 1 implies s.skip(1)[j] != 0 by {
            assert(s.skip(1)[j] == s[j + 1]);
        }
        lemma_until_nul(s.skip(1), end - 1);
        assert(s.take(end) =~= seq![s[0]] + s.skip(1).take(end - 1));
    }
}

proof fn lemma_problem_free(v: ManifestView, from: int)
    requires
        0 <= from <= v.nodes.len(),
    ensures
        v.first_problem(from) is None <==> forall|i: int|
            from <= i < v.nodes.len() ==> (#[trigger] v.node_problem(i)) is None,
    decreases v.nodes.len() - from,
{
    if from < v.nodes.len() {
        lemma_problem_free(v, from + 1);
    }
}

/// The child that a search by name finds is there, and where there is a child
/// with the name one is found.
pub proof fn law_child_found(v: ManifestView, c: u32, dir: u32, name: Seq<u8>)
    requires
        v.is_child(c, dir, name),
    ensures
        v.child_named(dir, name) is Some,
        v.is_child(v.child_named(dir, name)->0, dir, name),
    decreases c,
{
    if !v.is_first_child(c, dir, name) {
        let j = choose|j: u32| j < c && #[trigger] v.is_child(j, dir, name);
        law_child_found(v, j, dir, name);
    }
}

/// Where no two children of a directory share a name, a search by a child's
/// name finds that child.
pub proof fn law_finds_every_child_by_name(v: ManifestView, c: u32)
    requires
        v.has(c),
        v.nodes[c as int].parent != NO_NODE,
        forall|j: u32|
            #[trigger] v.is_child(j, v.nodes[c as int].parent, v.name(c)) ==> j == c,
    ensures
        v.child_named(v.nodes[c as int].parent, v.name(c)) == Some(c),
{
    law_child_found(v, c, v.nodes[c as int].parent, v.name(c));
}

/// Every child that a directory lists is a node other than the first, and no
/// directory lists more children than it counts.
pub proof fn law_children_are_nodes(v: ManifestView, dir: u32)
    ensures
        forall|k: int|
            0 <= k < v.children(dir).len() ==> v.has(#[trigger] v.children(dir)[k]) && v.children(
                dir,
            )[k] != 0,
        v.has(dir) ==> v.children(dir).len() <= v.nodes[dir as int].count_or_size,
{
    if v.has(dir) && v.nodes[dir as int].dir() {
        let n = v.nodes[dir as int];
        lemma_siblings(v, n.first_child, n.count_or_size as nat);
    }
}

proof fn lemma_siblings(v: ManifestView, next: u32, remaining: nat)
    ensures
        v.siblings(next, remaining).len() <= remaining,
        forall|k: int|
            0 <= k < v.siblings(next, remaining).len() ==> v.has(
                #[trigger] v.siblings(next, remaining)[k],
            ) && v.siblings(next, remaining)[k] != 0,
    decreases remaining,
{
    if !(next == 0 || next == NO_NODE || remaining == 0 || !v.has(next)) {
        lemma_siblings(v, v.nodes[next as int].next_sibling, (remaining - 1) as nat);
    }
}

proof fn lemma_ancestors(v: ManifestView, i: u32, most: nat)
    ensures
        v.ancestors(i, most).len() <= most,
        forall|k: int|
            0 <= k < v.ancestors(i, most).len() ==> v.has(#[trigger] v.ancestors(i, most)[k]),
    decreases most,
{
    if !(most == 0 || !v.has(i) || v.nodes[i as int].parent == NO_NODE) {
        lemma_ancestors(v, v.nodes[i as int].parent, (most - 1) as nat);
    }
}

// ---- reading it -----------------------------------------------------------

impl Keyed for Manifest {
    open spec fn has(&self, i: u32) -> bool {
        self.searchable() && self@.has(i)
    }

    open spec fn key(&self, i: u32) -> Seq<int> {
        self@.sort_key(i)
    }

    fn compare(&self, a: u32, b: u32) -> (r: Rank) {
        let pa = self.tree.nodes[a as usize].parent;
        self.compare_child(b, pa, self.name(a), true)
    }
}

impl Manifest {
    /// Every name is in range.
    pub open spec fn searchable(&self) -> bool {
        self@.sound()
    }

    /// The nodes are sound, and `by_name` lists those that have a parent, in
    /// order.
    pub closed spec fn wf(&self) -> bool {
        &&& self.searchable()
        &&& self@.sound()
        &&& sort::in_order(self, self.tree.by_name@)
        &&& forall|i: u32|
            #![trigger self.tree.by_name@.contains(i)]
            self.tree.by_name@.contains(i) <==> self@.has(i) && self.tree.nodes@[i as int].parent != NO_NODE
    }

    /// A manifest that was read is sound.
    pub proof fn lemma_sound(&self)
        requires
            self.wf(),
        ensures
            self@.sound(),
    {
    }

    pub fn format_version(&self) -> (r: u32)
        ensures
            r == self@.format_version,
    {
        self.format_version
    }

    pub fn app_id(&self) -> (r: u32)
        ensures
            r == self@.app_id,
    {
        self.app_id
    }

    pub fn version_id(&self) -> (r: u32)
        ensures
            r == self@.version_id,
    {
        self.version_id
    }

    pub fn fingerprint(&self) -> (r: u32)
        ensures
            r == self@.fingerprint,
    {
        self.fingerprint
    }

    pub fn nodes(&self) -> (r: &[Node])
        ensures
            r@ == self@.nodes,
    {
        self.tree.nodes.as_slice()
    }

    pub fn node(&self, idx: u32) -> (r: Option<&Node>)
        ensures
            match r {
                Some(n) => self@.has(idx) && *n == self@.nodes[idx as int],
                None => !self@.has(idx),
            },
    {
        if (idx as u64) < self.tree.nodes.len() as u64 {
            Some(&self.tree.nodes[idx as usize])
        } else {
            None
        }
    }

    /// Raw name bytes of a node (names are not guaranteed to be UTF-8).
    /// Empty for an unknown node; `parse` has already range-checked every
    /// name offset, so a real node always has a name.
    pub fn name(&self, idx: u32) -> (r: &[u8])
        requires
            self.searchable(),
        ensures
            r@ == self@.name(idx),
    {
        if idx as u64 >= self.tree.nodes.len() as u64 {
            let none = slice_subrange(self.tree.string_table.as_slice(), 0, 0);
            assert(none@ =~= Seq::<u8>::empty());
            return none;
        }
        assert(self@.node_problem(idx as int) is None);
        let start: usize = self.tree.nodes[idx as usize].name_offset as usize;
        let rest = slice_subrange(self.tree.string_table.as_slice(), start, self.tree.string_table.len());
        assert(rest@ =~= self@.strings.skip(start as int));
        let mut end: usize = 0;
        while end < rest.len() && rest[end] != 0
            invariant
                end <= rest@.len(),
                forall|j: int| 0 <= j < end ==> rest@[j] != 0,
            decreases rest@.len() - end,
        {
            end += 1;
        }
        proof {
            lemma_until_nul(rest@, end as int);
        }
        let name = slice_subrange(rest, 0, end);
        assert(name@ =~= rest@.take(end as int));
        name
    }

    /// How the key of node `idx` stands to the parent `dir` and a name; the
    /// other way round where `swapped`.
    fn compare_child(&self, idx: u32, dir: u32, name: &[u8], swapped: bool) -> (r: Rank)
        requires
            self.searchable(),
            self@.has(idx),
        ensures
            !swapped ==> r == sort::rank(self@.sort_key(idx), child_key(dir, name@)),
            swapped ==> r == sort::rank(child_key(dir, name@), self@.sort_key(idx)),
    {
        let p = self.tree.nodes[idx as usize].parent;
        let own = self.name(idx);
        let ghost x = sort::byte_key(own@);
        let ghost y = sort::byte_key(name@);
        proof {
            assert((seq![p as int] + x)[0] == p);
            assert((seq![dir as int] + y)[0] == dir);
            if p == dir {
                sort::lemma_rank_step(p as int, x, y);
                sort::lemma_rank_step(p as int, y, x);
            }
        }
        if p == dir {
            if swapped {
                sort::compare_bytes(name, own)
            } else {
                sort::compare_bytes(own, name)
            }
        } else if (p < dir) == swapped {
            Rank::Greater
        } else {
            Rank::Less
        }
    }

    /// The root node index (parent == NO_NODE), normally 0.
    pub fn root(&self) -> (r: u32)
        requires
            self.wf(),
        ensures
            r == self@.root(),
    {
        let mut i: usize = 0;
        while i < self.tree.nodes.len()
            invariant
                i <= self@.nodes.len(),
                self@.nodes.len() <= u32::MAX,
                self@.nodes == self.tree.nodes@,
                forall|j: int| 0 <= j < i ==> (#[trigger] self@.nodes[j]).parent != NO_NODE,
            decreases self@.nodes.len() - i,
        {
            if self.tree.nodes[i].parent == NO_NODE {
                assert(self@.is_root(i as u32));
                proof {
                    let other = choose|k: u32| self@.is_root(k);
                    assert(self@.nodes[i as int].parent == NO_NODE);
                    assert(self@.nodes[other as int].parent == NO_NODE);
                }
                return i as u32;
            }
            i += 1;
        }
        proof {
            if exists|k: u32| self@.is_root(k) {
                let k = choose|k: u32| self@.is_root(k);
                assert(self@.nodes[k as int].parent != NO_NODE);
            }
        }
        0
    }

    /// Walk a directory's children in sibling order.
    pub fn children(&self, dir: u32) -> (r: Children<'_>)
        ensures
            r@ == self@.children(dir),
    {
        match self.node(dir) {
            Some(n) => Children {
                manifest: self,
                next: n.first_child,
                remaining: if n.is_dir() {
                    n.count_or_size
                } else {
                    0
                },
            },
            None => Children { manifest: self, next: 0, remaining: 0 },
        }
    }

    /// A child by name.
    pub fn child_by_name(&self, dir: u32, name: &[u8]) -> (r: Option<u32>)
        requires
            self.wf(),
        ensures
            r == self@.child_named(dir, name@),
    {
        let ghost target = child_key(dir, name@);
        let ghost s = self.tree.by_name@;
        let mut lo: usize = 0;
        let mut hi: usize = self.tree.by_name.len();
        while lo < hi
            invariant
                lo <= hi <= s.len(),
                s == self.tree.by_name@,
                self.wf(),
                target == child_key(dir, name@),
                forall|j: int|
                    0 <= j < lo ==> sort::rank(#[trigger] self@.sort_key(s[j]), target)
                        == Rank::Less,
                forall|j: int|
                    hi <= j < s.len() ==> sort::rank(#[trigger] self@.sort_key(s[j]), target)
                        != Rank::Less,
            decreases hi - lo,
        {
            let mid: usize = lo + (hi - lo) / 2;
            assert(s.contains(s[mid as int]));
            let at = self.compare_child(self.tree.by_name[mid], dir, name, false);
            if at == Rank::Less {
                assert forall|j: int| 0 <= j < mid + 1 implies sort::rank(
                    #[trigger] self@.sort_key(s[j]),
                    target,
                ) == Rank::Less by {
                    if j < mid {
                        self.lemma_before(j, mid as int, target);
                    }
                }
                lo = mid + 1;
            } else {
                assert forall|j: int| mid <= j < s.len() implies sort::rank(
                    #[trigger] self@.sort_key(s[j]),
                    target,
                ) != Rank::Less by {
                    if j > mid && sort::rank(self@.sort_key(s[j]), target) == Rank::Less {
                        self.lemma_before(mid as int, j, target);
                    }
                }
                hi = mid;
            }
        }
        if lo < self.tree.by_name.len() {
            assert(s.contains(s[lo as int]));
            let found: u32 = self.tree.by_name[lo];
            if self.compare_child(found, dir, name, false) == Rank::Same {
                proof {
                    self.lemma_found(lo as int, dir, name@);
                }
                return Some(found);
            }
        }
        proof {
            if exists|c: u32| self@.is_first_child(c, dir, name@) {
                let c = choose|c: u32| self@.is_first_child(c, dir, name@);
                assert(s.contains(c));
                let q = choose|q: int| 0 <= q < s.len() && s[q] == c;
                sort::lemma_rank_swaps(self@.sort_key(c), target);
                assert(self@.sort_key(s[q]) == target);
                assert(q >= lo);
                if q > lo {
                    assert(sort::precedes(self, s[lo as int], s[q]));
                    sort::lemma_rank_swaps(self@.sort_key(s[lo as int]), target);
                    assert(sort::rank(self@.sort_key(s[lo as int]), target) != Rank::Less);
                }
            }
        }
        None
    }

    /// What comes earlier in `by_name` ranks below what ranks above its
    /// successors.
    proof fn lemma_before(&self, i: int, j: int, target: Seq<int>)
        requires
            self.wf(),
            0 <= i < j < self.tree.by_name@.len(),
            sort::rank(self@.sort_key(self.tree.by_name@[j]), target) == Rank::Less,
        ensures
            sort::rank(self@.sort_key(self.tree.by_name@[i]), target) == Rank::Less,
    {
        let a = self.tree.by_name@[i];
        let b = self.tree.by_name@[j];
        assert(sort::precedes(self, a, b));
        sort::lemma_rank_swaps(self@.sort_key(a), self@.sort_key(b));
        if sort::rank(self@.sort_key(a), self@.sort_key(b)) == Rank::Less {
            sort::lemma_rank_chains(self@.sort_key(a), self@.sort_key(b), target);
        }
    }

    /// The first of `by_name` that does not rank below a parent and a name is
    /// the first child with the name, when it ranks the same.
    proof fn lemma_found(&self, p: int, dir: u32, name: Seq<u8>)
        requires
            self.wf(),
            0 <= p < self.tree.by_name@.len(),
            sort::rank(self@.sort_key(self.tree.by_name@[p]), child_key(dir, name)) == Rank::Same,
            forall|j: int|
                0 <= j < p ==> sort::rank(
                    #[trigger] self@.sort_key(self.tree.by_name@[j]),
                    child_key(dir, name),
                ) == Rank::Less,
        ensures
            self@.child_named(dir, name) == Some(self.tree.by_name@[p]),
    {
        let s = self.tree.by_name@;
        let found = s[p];
        let target = child_key(dir, name);
        assert(s.contains(found));
        sort::lemma_rank_swaps(self@.sort_key(found), target);
        lemma_same_key(self@.nodes[found as int].parent, self@.name(found), dir, name);
        assert(self@.is_child(found, dir, name));
        assert forall|j: u32| j < found implies !#[trigger] self@.is_child(j, dir, name) by {
            if self@.is_child(j, dir, name) {
                assert(s.contains(j));
                let q = choose|q: int| 0 <= q < s.len() && s[q] == j;
                assert(self@.sort_key(s[q]) == target);
                sort::lemma_rank_swaps(target, target);
                assert(q >= p);
                assert(sort::precedes(self, s[p], s[q]));
            }
        }
        assert(self@.is_first_child(found, dir, name));
        let other = choose|c: u32| self@.is_first_child(c, dir, name);
        assert(self@.is_first_child(other, dir, name));
    }

    /// Full path of a node, `/`-joined, without a leading slash. Parents that
    /// lead in a circle are followed once around at most.
    pub fn path(&self, idx: u32) -> (r: Vec<u8>)
        requires
            self.wf(),
        ensures
            r@ == self@.path(idx),
    {
        let ghost v = self@;
        let n: usize = self.tree.nodes.len();
        let mut up: Vec<u32> = Vec::new();
        let mut cur: u32 = idx;
        let mut left: usize = n;
        assert(Seq::<u32>::empty() + v.ancestors(idx, n as nat) =~= v.ancestors(idx, n as nat));
        while left > 0 && (cur as u64) < n as u64 && self.tree.nodes[cur as usize].parent != NO_NODE
            invariant
                self.tree.nodes@ == v.nodes,
                v == self@,
                n == v.nodes.len(),
                left <= n,
                up@ + v.ancestors(cur, left as nat) == v.ancestors(idx, n as nat),
            decreases left,
        {
            let parent: u32 = self.tree.nodes[cur as usize].parent;
            proof {
                assert(up@ + (seq![cur] + v.ancestors(parent, (left - 1) as nat)) =~= up@.push(cur)
                    + v.ancestors(parent, (left - 1) as nat));
            }
            up.push(cur);
            cur = parent;
            left -= 1;
        }
        assert(up@ =~= v.ancestors(idx, n as nat));
        let mut out: Vec<u8> = Vec::new();
        let mut k: usize = 0;
        let ghost names = v.path_names(idx);
        assert(slashed(names.take(0)) =~= Seq::<u8>::empty());
        while k < up.len()
            invariant
                self.searchable(),
                v == self@,
                k <= up@.len(),
                up@ == v.ancestors(idx, v.nodes.len()),
                names == v.path_names(idx),
                out@ == slashed(names.take(k as int)),
            decreases up@.len() - k,
        {
            let name = self.name(up[up.len() - 1 - k]);
            proof {
                assert(names.take(k + 1).drop_last() =~= names.take(k as int));
                assert(names.take(k + 1).last() == name@);
            }
            if k > 0 {
                out.push(0x2f);
            }
            out.extend_from_slice(name);
            assert(out@ =~= slashed(names.take(k + 1)));
            k += 1;
        }
        assert(names.take(names.len() as int) =~= names);
        out
    }

    /// Read a manifest.
    pub fn parse(data: &[u8]) -> (r: Result<Manifest>)
        ensures
            super::agree(r, manifest_of(data@)),
            r matches Ok(m) ==> m.wf(),
    {
        if data.len() < HEADER_SIZE {
            return Err(malformed(Problem::ManifestShort));
        }
        let actual = checksum(data);
        Manifest::parse_with(data, actual)
    }

    /// Read a manifest, given the checksum of its bytes.
    pub fn parse_with(data: &[u8], actual: u32) -> (r: Result<Manifest>)
        ensures
            super::agree(r, manifest_with(data@, actual)),
            r matches Ok(m) ==> m.wf(),
    {
        if data.len() < HEADER_SIZE {
            return Err(malformed(Problem::ManifestShort));
        }
        let header = match words_at(data, 0, 14) {
            Ok(v) => v,
            Err(e) => {
                return Err(e);
            },
        };
        let format_version: u32 = header[0];
        if format_version != 3 && format_version != 4 {
            return Err(malformed(Problem::ManifestVersion(format_version)));
        }
        if header[5] as u64 != BLOCK_SIZE {
            return Err(malformed(Problem::ManifestBlockSize(header[5])));
        }
        if header[6] as u64 != data.len() as u64 {
            return Err(
                malformed(
                    Problem::ManifestSize { binary_size: header[6] as u64, len: data.len() as u64 },
                ),
            );
        }
        if header[13] != actual {
            return Err(malformed(Problem::ManifestChecksum { actual, expected: header[13] }));
        }
        let nodes_end: u64 = 0x38 + header[3] as u64 * 0x1c;
        let strings_end: u64 = nodes_end + header[7] as u64;
        if strings_end > data.len() as u64 {
            return Err(malformed(Problem::ManifestTables));
        }
        let nodes = match read_nodes(data, header[3]) {
            Ok(v) => v,
            Err(e) => {
                return Err(e);
            },
        };
        let string_table = text::copy_bytes(
            slice_subrange(data, nodes_end as usize, strings_end as usize),
        );
        let m = Manifest {
            format_version,
            app_id: header[1],
            version_id: header[2],
            depot_info: header[11],
            fingerprint: header[12],
            tree: NodeTable { nodes, string_table, by_name: Vec::new() },
        };
        assert(m@ =~= fields(data@));
        match m.check_nodes() {
            Some(p) => Err(malformed(p)),
            None => Ok(m.with_names()),
        }
    }

    /// The first thing wrong with a node, if anything is.
    fn check_nodes(&self) -> (r: Option<Problem>)
        requires
            self@.nodes.len() <= u32::MAX,
        ensures
            r == self@.first_problem(0),
            r is None ==> self@.sound(),
    {
        let n: u64 = self.tree.nodes.len() as u64;
        let mut i: usize = 0;
        while i < self.tree.nodes.len()
            invariant
                i <= self@.nodes.len(),
                n == self@.nodes.len(),
                self@.nodes == self.tree.nodes@,
                self@.strings == self.tree.string_table@,
                self@.first_problem(0) == self@.first_problem(i as int),
            decreases self@.nodes.len() - i,
        {
            let node = self.tree.nodes[i];
            if node.name_offset as u64 >= self.tree.string_table.len() as u64 {
                return Some(Problem::NodeName(i as u64));
            }
            if node.parent != NO_NODE && node.parent as u64 >= n {
                return Some(Problem::NodeParent(i as u64));
            }
            // `first_child`/`next_sibling` terminate at 0 (and, defensively,
            // at NO_NODE); anything else must be a real node, or walking the
            // tree would leave the table.
            if node.first_child != 0 && node.first_child != NO_NODE && node.first_child as u64 >= n
            {
                return Some(
                    Problem::NodeFirstChild { node: i as u64, link: node.first_child },
                );
            }
            if node.next_sibling != 0 && node.next_sibling != NO_NODE && node.next_sibling as u64
                >= n {
                return Some(
                    Problem::NodeNextSibling { node: i as u64, link: node.next_sibling },
                );
            }
            i += 1;
        }
        proof {
            lemma_problem_free(self@, 0);
        }
        None
    }

    /// Fill in the order by name.
    fn with_names(self) -> (r: Manifest)
        requires
            self@.sound(),
        ensures
            r@ == self@,
            r.wf(),
    {
        let mut ids: Vec<u32> = Vec::new();
        let mut i: usize = 0;
        let ghost v = self@;
        while i < self.tree.nodes.len()
            invariant
                v == self@,
                v.nodes == self.tree.nodes@,
                v.sound(),
                i <= v.nodes.len() <= u32::MAX,
                forall|k: int|
                    0 <= k < ids@.len() ==> (#[trigger] ids@[k]) < i
                        && v.nodes[ids@[k] as int].parent != NO_NODE,
                forall|k: int, l: int| 0 <= k < l < ids@.len() ==> ids@[k] < ids@[l],
                forall|j: u32|
                    #![trigger ids@.contains(j)]
                    j < i && v.nodes[j as int].parent != NO_NODE ==> ids@.contains(j),
            decreases v.nodes.len() - i,
        {
            if self.tree.nodes[i].parent != NO_NODE {
                let ghost before = ids@;
                ids.push(i as u32);
                proof {
                    assert forall|j: u32|
                        #![trigger ids@.contains(j)]
                        j < i + 1 && v.nodes[j as int].parent != NO_NODE implies ids@.contains(
                        j,
                    ) by {
                        if j < i {
                            assert(before.contains(j));
                            let k = choose|k: int| 0 <= k < before.len() && before[k] == j;
                            assert(ids@[k] == j);
                        } else {
                            assert(ids@[before.len() as int] == j);
                        }
                    }
                }
            }
            i += 1;
        }
        let by_name = sort::sorted(&self, &ids);
        let ghost old_self = self;
        let r = Manifest {
            format_version: self.format_version,
            app_id: self.app_id,
            version_id: self.version_id,
            depot_info: self.depot_info,
            fingerprint: self.fingerprint,
            tree: NodeTable {
                nodes: self.tree.nodes,
                string_table: self.tree.string_table,
                by_name,
            },
        };
        proof {
            assert(r@ == v);
            assert forall|a: int, b: int| 0 <= a < b < by_name@.len() implies sort::precedes(
                &r,
                #[trigger] by_name@[a],
                #[trigger] by_name@[b],
            ) by {
                assert(sort::precedes(&old_self, by_name@[a], by_name@[b]));
            }
            assert forall|j: u32|
                #![trigger r.tree.by_name@.contains(j)]
                r.tree.by_name@.contains(j) <==> r@.has(j) && r.tree.nodes@[j as int].parent != NO_NODE by {
                assert(by_name@.contains(j) <==> ids@.contains(j));
                if ids@.contains(j) {
                    let k = choose|k: int| 0 <= k < ids@.len() && ids@[k] == j;
                    assert(ids@[k] == j);
                }
            }
        }
        r
    }
}

proof fn lemma_same_key(p: u32, a: Seq<u8>, q: u32, b: Seq<u8>)
    requires
        child_key(p, a) == child_key(q, b),
    ensures
        p == q,
        a == b,
{
    let x = child_key(p, a);
    let y = child_key(q, b);
    assert(x[0] == p as int);
    assert(y[0] == q as int);
    assert(x.len() == a.len() + 1);
    assert(y.len() == b.len() + 1);
    assert forall|i: int| 0 <= i < a.len() implies a[i] == b[i] by {
        assert(x[i + 1] == a[i] as int);
        assert(y[i + 1] == b[i] as int);
    }
    assert(a =~= b);
}

/// Read the node table.
fn read_nodes(data: &[u8], num_nodes: u32) -> (r: Result<Vec<Node>>)
    requires
        HEADER_SIZE + num_nodes * NODE_SIZE <= data@.len(),
    ensures
        match r {
            Ok(v) => v@ == Seq::new(num_nodes as nat, |i: int| node_at(data@, i)),
            Err(_) => false,
        },
{
    let mut nodes: Vec<Node> = Vec::new();
    let mut i: u32 = 0;
    while i < num_nodes
        invariant
            i <= num_nodes,
            HEADER_SIZE + num_nodes * NODE_SIZE <= data@.len(),
            nodes@.len() == i,
            forall|j: int| 0 <= j < i ==> nodes@[j] == node_at(data@, j),
        decreases num_nodes - i,
    {
        let base: u64 = 0x38 + i as u64 * 0x1c;
        match words_at(data, base, 7) {
            Err(e) => {
                return Err(e);
            },
            Ok(w) => {
                assert(w@[0] == super::le32(data@, base as int));
                nodes.push(
                    Node {
                        name_offset: w[0],
                        count_or_size: w[1],
                        file_id: w[2],
                        flags: w[3],
                        parent: w[4],
                        next_sibling: w[5],
                        first_child: w[6],
                    },
                );
            },
        }
        i += 1;
    }
    assert(nodes@ =~= Seq::new(num_nodes as nat, |i: int| node_at(data@, i)));
    Ok(nodes)
}

/// A walk over a directory's children. Its view is what is still to come.
pub struct Children<'a> {
    manifest: &'a Manifest,
    next: u32,
    /// Bounded by the directory's child count so a corrupt chain cannot loop.
    remaining: u32,
}

impl<'a> View for Children<'a> {
    type V = Seq<u32>;

    closed spec fn view(&self) -> Seq<u32> {
        self.manifest@.siblings(self.next, self.remaining as nat)
    }
}

impl<'a> Children<'a> {
    /// The next child.
    pub fn next(&mut self) -> (r: Option<u32>)
        ensures
            match r {
                Some(c) => old(self)@.len() > 0 && c == old(self)@[0] && final(self)@
                    == old(self)@.skip(1),
                None => old(self)@.len() == 0 && final(self)@.len() == 0,
            },
    {
        if self.next == 0 || self.next == NO_NODE || self.remaining == 0 {
            return None;
        }
        let cur = self.next;
        let ghost v = self.manifest@;
        let ghost left = self.remaining;
        match self.manifest.node(cur) {
            None => {
                self.next = 0;
                None
            },
            Some(node) => {
                self.remaining = self.remaining - 1;
                self.next = node.next_sibling;
                proof {
                    let rest = v.siblings(node.next_sibling, (left - 1) as nat);
                    assert((seq![cur] + rest).skip(1) =~= rest);
                }
                Some(cur)
            },
        }
    }

    /// All the children that are still to come.
    pub fn collect(self) -> (r: Vec<u32>)
        ensures
            r@ == self@,
    {
        let mut walk = self;
        let mut out: Vec<u32> = Vec::new();
        let ghost all = self@;
        assert(out@ + walk@ =~= all);
        loop
            invariant
                out@ + walk@ == all,
            ensures
                out@ == all,
            decreases walk@.len(),
        {
            let ghost before = walk@;
            match walk.next() {
                None => {
                    assert(out@ + before =~= out@);
                    break ;
                },
                Some(c) => {
                    assert(out@ + before =~= out@.push(c) + before.skip(1));
                    out.push(c);
                },
            }
        }
        out
    }

    /// How many children are still to come.
    pub fn count(self) -> (r: usize)
        ensures
            r == self@.len(),
    {
        self.collect().len()
    }
}

} // verus!
