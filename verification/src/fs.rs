//! What the FUSE frontend answers: inode numbers, attributes, listings with
//! handles, links, reads and extended attributes over the tree.

use std::collections::HashMap;
use std::sync::Arc;
use vstd::prelude::*;

use crate::backend::{Backend, TroubleView};
use crate::calendar::Date;
use crate::index::BlobId;
use crate::recent;
use crate::store::contents::ParsedView;
use crate::store::error::{other, Outcome, ReadError, ReadFault};
use crate::store::notes;
use crate::store::notes::Note;
use crate::store::setup;
use crate::store::setup::{Past, Setup};
use crate::store::table::{FileLoc, LocView};
use crate::store::Store;
use crate::text;
use crate::tree;
use crate::tree::listing;
use crate::tree::{Entry, EntryView, Key, Kind, Meta, Tree, TreeError, TreeFault, TreeOutcome};

pub mod inodes;
pub mod laws;
pub mod xattr;

use inodes::Inodes;
use xattr::XattrReply;

verus! {

broadcast use vstd::std_specs::hash::group_hash_axioms;

/// How long the kernel may keep what it is told, in seconds: a dump does not
/// change while it is mounted.
pub const TTL_SECS: u64 = 3600;

/// Why a request is refused.
#[derive(Debug)]
pub enum FsError {
    /// `ENOENT`
    NoEntry,
    /// `ENOTDIR`
    NotADirectory,
    /// `EISDIR`
    IsADirectory,
    /// `EINVAL`
    Invalid,
    /// `ENODATA`
    NoData,
    /// `ERANGE`
    Range,
    /// The number of the kind of failure.
    Read(ReadError),
}

/// An `FsError`, as the contracts see it.
pub enum FsFault {
    NoEntry,
    NotADirectory,
    IsADirectory,
    Invalid,
    NoData,
    Range,
    Read(ReadFault),
}

impl View for FsError {
    type V = FsFault;

    open spec fn view(&self) -> FsFault {
        match self {
            FsError::NoEntry => FsFault::NoEntry,
            FsError::NotADirectory => FsFault::NotADirectory,
            FsError::IsADirectory => FsFault::IsADirectory,
            FsError::Invalid => FsFault::Invalid,
            FsError::NoData => FsFault::NoData,
            FsError::Range => FsFault::Range,
            FsError::Read(e) => FsFault::Read(e@),
        }
    }
}

/// What a request is answered, as the contracts see it.
pub type FsOutcome<T> = core::result::Result<T, FsFault>;

/// A failure of the tree, as the kernel is told of it.
pub open spec fn told(f: TreeFault) -> FsFault {
    match f {
        TreeFault::NotFound => FsFault::NoEntry,
        TreeFault::NotADirectory => FsFault::NotADirectory,
        TreeFault::Read(f) => FsFault::Read(f),
    }
}

/// A request is refused, and why.
pub open spec fn refused<T>(r: core::result::Result<T, FsError>, f: FsFault) -> bool {
    r matches Err(e) && e@ == f
}

fn tell(e: TreeError) -> (r: FsError)
    ensures
        r@ == told(e@),
{
    match e {
        TreeError::NotFound => FsError::NoEntry,
        TreeError::NotADirectory => FsError::NotADirectory,
        TreeError::Read(e) => FsError::Read(e),
    }
}

/// The attributes of a node.
#[derive(Debug, Clone, Copy, PartialEq, Eq, Structural)]
pub struct FileAttr {
    pub ino: u64,
    pub size: u64,
    /// In units of 512 bytes.
    pub blocks: u64,
    /// Every time that there is.
    pub mtime: Date,
    pub kind: Kind,
    pub perm: u16,
    pub nlink: u32,
    pub uid: u32,
    pub gid: u32,
    pub blksize: u32,
}

/// How many units of 512 bytes it takes to hold `size`.
pub open spec fn blocks_for(size: u64) -> u64 {
    (size / 512 + if size % 512 == 0 {
        0int
    } else {
        1
    }) as u64
}

/// The attributes of a node, from what the tree says of it.
pub open spec fn attr_of(ino: u64, meta: Meta, uid: u32, gid: u32) -> FileAttr {
    FileAttr {
        ino,
        size: meta.size,
        blocks: blocks_for(meta.size),
        mtime: meta.mtime,
        kind: meta.kind,
        perm: match meta.kind {
            Kind::Dir => 0x16d,
            Kind::Symlink => 0x1ff,
            Kind::File => 0x124,
        },
        nlink: if meta.kind == Kind::Dir {
            2
        } else {
            1
        },
        uid,
        gid,
        blksize: 65536,
    }
}

/// The attributes of a node, from what the tree says of it: a directory can be
/// read and entered, a file read, and a link does as it likes.
pub fn attr(ino: u64, meta: Meta, uid: u32, gid: u32) -> (r: FileAttr)
    ensures
        r == attr_of(ino, meta, uid, gid),
{
    FileAttr {
        ino,
        size: meta.size,
        blocks: if meta.size % 512 == 0 {
            meta.size / 512
        } else {
            meta.size / 512 + 1
        },
        mtime: meta.mtime,
        kind: meta.kind,
        // r-xr-xr-x, rwxrwxrwx and r--r--r--.
        perm: match meta.kind {
            Kind::Dir => 0x16d,
            Kind::Symlink => 0x1ff,
            Kind::File => 0x124,
        },
        nlink: if meta.kind == Kind::Dir {
            2
        } else {
            1
        },
        uid,
        gid,
        blksize: 65536,
    }
}

/// One entry of a listing, as the kernel is told of it.
#[derive(Debug)]
pub struct DirItem<'a> {
    pub ino: u64,
    /// Where the listing goes on behind it.
    pub next: u64,
    pub kind: Kind,
    pub name: &'a [u8],
}

// ---- what a request may come to -------------------------------------------

/// The listing of a directory, with itself and the directory it is in.
pub open spec fn with_dots(key: Key, parent: Key, list: Seq<EntryView>) -> Seq<EntryView> {
    seq![
        EntryView { name: text::utf8("."@), key, kind: Kind::Dir },
        EntryView { name: text::utf8(".."@), key: parent, kind: Kind::Dir },
    ] + list
}

/// The full listing of a directory may come to `r`.
pub open spec fn may_list<B: Backend>(s: Setup<B>, key: Key, r: FsOutcome<Seq<EntryView>>) -> bool {
    exists|parent: Key, list: TreeOutcome<Seq<EntryView>>|
        #![trigger tree::may_parent(s, key, parent), tree::may_list(s, key, list)]
        tree::may_parent(s, key, parent) && tree::may_list(s, key, list) && r == match list {
            Ok(l) => Ok(with_dots(key, parent, l)),
            Err(f) => Err(told(f)),
        }
}

/// The attributes of a key may come to `r`.
pub open spec fn may_attr<B: Backend>(
    s: Setup<B>,
    key: Key,
    ino: u64,
    uid: u32,
    gid: u32,
    r: FsOutcome<FileAttr>,
) -> bool {
    exists|m: TreeOutcome<Meta>| #[trigger]
        tree::may_meta(s, key, m) && r == match m {
            Ok(m) => Ok(attr_of(ino, m, uid, gid)),
            Err(f) => Err(told(f)),
        }
}

/// Where the bytes of the file that a key names are may come to `r`.
pub open spec fn may_locate<B: Backend>(s: Setup<B>, key: Key, r: Outcome<LocView>) -> bool {
    match key {
        Key::Node(b, idx) => exists|o: Outcome<ParsedView>| #[trigger]
            s.may_parse(b, o) && match o {
                Err(f) => r == Err::<LocView, ReadFault>(f),
                Ok(p) => if p.manifest.has(idx) {
                    tree::may_find(s, b, p.manifest.nodes[idx as int].file_id, r)
                } else {
                    r == Err::<LocView, ReadFault>(ReadFault::MissingRecord(idx))
                },
            },
        _ => r == Err::<LocView, ReadFault>(ReadFault::Other(TroubleView::plain("not a file"@))),
    }
}

/// Reading a file may come to `r`, given where it is.
pub open spec fn may_read<B: Backend>(
    s: Setup<B>,
    past: Past,
    loc: LocView,
    offset: u64,
    size: u32,
    r: FsOutcome<Seq<u8>>,
) -> bool {
    let end = setup::least(offset + size, loc.record.size as int);
    if offset >= loc.record.size || size == 0 {
        r == Ok::<Seq<u8>, FsFault>(Seq::empty())
    } else {
        match r {
            Ok(v) => s.may_file(past, loc, offset as int, end, v),
            Err(f) => f matches FsFault::Read(x) && s.may_read_fail(
                past,
                loc,
                offset as int,
                end,
                x,
            ),
        }
    }
}

/// Every entry of a listing names something in the index.
pub open spec fn all_known<B: Backend>(s: Setup<B>, list: Seq<Entry>) -> bool {
    forall|k: int| 0 <= k < list.len() ==> listing::known(s.index, (#[trigger] list[k]).key)
}

/// Every key that has an inode names something in the index.
spec fn keys_known<B: Backend>(s: Setup<B>, keys: Seq<Key>) -> bool {
    forall|k: int| 0 <= k < keys.len() ==> listing::known(s.index, #[trigger] keys[k])
}

/// Every listing that is open names things in the index.
spec fn handles_known<B: Backend>(s: Setup<B>, open: Map<u64, Arc<Vec<Entry>>>) -> bool {
    forall|h: u64| #[trigger] open.contains_key(h) ==> all_known(s, open[h]@)
}

// ---- the filesystem -------------------------------------------------------

/// The filesystem that is mounted.
#[verifier::reject_recursive_types(B)]
pub struct Steam2Fs<B: Backend> {
    tree: Tree<B>,
    inodes: Inodes,
    /// The last handle that was given out.
    next: u64,
    /// Listings built by `opendir`, so that paging through a big directory
    /// does not rebuild it once per `readdir` call.
    open: HashMap<u64, Arc<Vec<Entry>>>,
    uid: u32,
    gid: u32,
}

impl<B: Backend> Steam2Fs<B> {
    /// What the filesystem works on.
    pub closed spec fn setup(&self) -> Setup<B> {
        self.tree.setup()
    }

    /// What the store has been through.
    pub closed spec fn past(&self) -> Past {
        self.tree.store.past()
    }

    /// The keys that have an inode, in the order of their numbers, which begin
    /// at 1.
    pub closed spec fn keys(&self) -> Seq<Key> {
        self.inodes@
    }

    /// The listings that are open, by handle.
    pub closed spec fn handles(&self) -> Map<u64, Arc<Vec<Entry>>> {
        self.open@
    }

    /// The last handle that was given out.
    pub closed spec fn last_handle(&self) -> u64 {
        self.next
    }

    /// Whom everything belongs to.
    pub closed spec fn owner(&self) -> (u32, u32) {
        (self.uid, self.gid)
    }

    pub closed spec fn wf(&self) -> bool {
        &&& self.tree.wf()
        &&& self.inodes.wf()
        &&& keys_known(self.setup(), self.inodes@)
        &&& handles_known(self.setup(), self.open@)
    }

    /// All but the inodes is as it was, and no inode has changed.
    pub open spec fn same_but_inodes(&self, before: &Self) -> bool {
        &&& self.wf()
        &&& self.setup() == before.setup()
        &&& self.past() == before.past()
        &&& self.handles() == before.handles()
        &&& self.last_handle() == before.last_handle()
        &&& self.owner() == before.owner()
    }

    /// Nothing that was given out has changed.
    pub open spec fn same(&self, before: &Self) -> bool {
        self.same_but_inodes(before) && self.keys() == before.keys()
    }

    pub fn new(store: Store<B>, uid: u32, gid: u32) -> (r: Self)
        requires
            store.wf(),
        ensures
            r.wf(),
            r.setup() == store.setup(),
            r.past() == store.past(),
            r.keys() == seq![Key::Root],
            r.handles() == Map::<u64, Arc<Vec<Entry>>>::empty(),
            r.last_handle() == 0,
            r.owner() == (uid, gid),
    {
        let mut inodes = Inodes::new();
        let _ = inodes.intern(Key::Root);
        assert(inodes@ =~= seq![Key::Root]);
        Steam2Fs { tree: Tree::new(store), inodes, next: 0, open: HashMap::new(), uid, gid }
    }

    /// The inode of a key, which gets one if it has none.
    pub fn ino(&mut self, key: Key) -> (r: u64)
        requires
            old(self).wf(),
            listing::known(old(self).setup().index, key),
        ensures
            final(self).same_but_inodes(old(self)),
            final(self).keys() == inodes::after(old(self).keys(), key),
            r == inodes::number(final(self).keys(), key),
    {
        let r = self.inodes.intern(key);
        proof {
            inodes::lemma_after(old(self).keys(), key);
        }
        r
    }

    /// The key of an inode.
    pub fn key(&self, ino: u64) -> (r: Option<Key>)
        requires
            self.wf(),
        ensures
            r == inodes::key_at(self.keys(), ino),
            r matches Some(k) ==> listing::known(self.setup().index, k),
    {
        self.inodes.key(ino)
    }

    /// The attributes of a key.
    pub fn attr_for(&mut self, key: Key) -> (r: core::result::Result<FileAttr, FsError>)
        requires
            old(self).wf(),
            listing::known(old(self).setup().index, key),
        ensures
            final(self).same_but_inodes(old(self)),
            final(self).keys() == inodes::after(old(self).keys(), key),
            ({
                let ino = inodes::number(final(self).keys(), key);
                let (uid, gid) = old(self).owner();
                match r {
                    Ok(a) => may_attr(old(self).setup(), key, ino, uid, gid, Ok(a)),
                    Err(e) => may_attr(old(self).setup(), key, ino, uid, gid, Err(e@)),
                }
            }),
    {
        let ino: u64 = self.ino(key);
        let ghost s = self.setup();
        match self.tree.meta(key) {
            Ok(m) => {
                let ghost o: TreeOutcome<Meta> = Ok(m);
                assert(tree::may_meta(s, key, o));
                Ok(attr(ino, m, self.uid, self.gid))
            },
            Err(e) => {
                let ghost o: TreeOutcome<Meta> = Err(e@);
                assert(tree::may_meta(s, key, o));
                Err(tell(e))
            },
        }
    }

    /// One child of a directory, by name.
    pub fn lookup(&mut self, parent: u64, name: &[u8]) -> (r: core::result::Result<
        FileAttr,
        FsError,
    >)
        requires
            old(self).wf(),
        ensures
            final(self).same_but_inodes(old(self)),
            match inodes::key_at(old(self).keys(), parent) {
                None => final(self).keys() == old(self).keys() && refused(r, FsFault::NoEntry),
                Some(dir) => exists|found: TreeOutcome<Option<Key>>| #[trigger]
                    tree::may_lookup(old(self).setup(), dir, name@, found) && match found {
                        Ok(Some(k)) => {
                            let ino = inodes::number(final(self).keys(), k);
                            let (uid, gid) = old(self).owner();
                            final(self).keys() == inodes::after(old(self).keys(), k) && match r {
                                Ok(a) => may_attr(old(self).setup(), k, ino, uid, gid, Ok(a)),
                                Err(e) => may_attr(old(self).setup(), k, ino, uid, gid, Err(e@)),
                            }
                        },
                        Ok(None) => final(self).keys() == old(self).keys() && refused(r, FsFault::NoEntry),
                        Err(f) => final(self).keys() == old(self).keys() && refused(r, told(f)),
                    },
            },
    {
        let dir = match self.key(parent) {
            Some(k) => k,
            None => {
                return Err(FsError::NoEntry);
            },
        };
        let ghost s = self.setup();
        match self.tree.lookup(dir, name) {
            Ok(Some(k)) => {
                let ghost found: TreeOutcome<Option<Key>> = Ok(Some(k));
                assert(tree::may_lookup(s, dir, name@, found));
                self.attr_for(k)
            },
            Ok(None) => {
                let ghost found: TreeOutcome<Option<Key>> = Ok(None);
                assert(tree::may_lookup(s, dir, name@, found));
                Err(FsError::NoEntry)
            },
            Err(e) => {
                let ghost found: TreeOutcome<Option<Key>> = Err(e@);
                assert(tree::may_lookup(s, dir, name@, found));
                Err(tell(e))
            },
        }
    }

    /// The attributes of an inode.
    pub fn getattr(&mut self, ino: u64) -> (r: core::result::Result<FileAttr, FsError>)
        requires
            old(self).wf(),
        ensures
            final(self).same(old(self)),
            match inodes::key_at(old(self).keys(), ino) {
                None => refused(r, FsFault::NoEntry),
                Some(k) => {
                    let (uid, gid) = old(self).owner();
                    match r {
                        Ok(a) => may_attr(old(self).setup(), k, ino, uid, gid, Ok(a)),
                        Err(e) => may_attr(old(self).setup(), k, ino, uid, gid, Err(e@)),
                    }
                },
            },
    {
        match self.key(ino) {
            Some(k) => {
                proof {
                    self.inodes.lemma_number(ino);
                }
                self.attr_for(k)
            },
            None => Err(FsError::NoEntry),
        }
    }

    /// The version that an inode is of, if it is of one.
    pub fn version(&self, ino: u64) -> (r: Option<BlobId>)
        requires
            self.wf(),
        ensures
            r == (match inodes::key_at(self.keys(), ino) {
                Some(Key::Version(b)) => Some(b),
                Some(Key::Node(b, _)) => Some(b),
                _ => None,
            }),
    {
        match self.key(ino) {
            Some(Key::Version(b)) => Some(b),
            Some(Key::Node(b, _)) => Some(b),
            _ => None,
        }
    }

    /// How many keys are resolved.
    pub fn resolved_count(&self) -> (r: usize)
        ensures
            r == self.past().keys.len(),
    {
        self.tree.store.resolved_count()
    }

    /// What there is to say of the version that an inode is of.
    pub fn notes(&mut self, ino: u64) -> (r: Vec<Note>)
        requires
            old(self).wf(),
        ensures
            final(self).same(old(self)),
            match inodes::key_at(old(self).keys(), ino) {
                Some(k) => tree::may_say(
                    old(self).setup(),
                    old(self).past().keys,
                    k,
                    notes::note_views(r@),
                ),
                None => r@.len() == 0,
            },
    {
        match self.key(ino) {
            Some(k) => self.tree.notes(k),
            None => Vec::new(),
        }
    }

    /// Where a link points.
    pub fn readlink(&self, ino: u64) -> (r: core::result::Result<String, FsError>)
        requires
            self.wf(),
        ensures
            ({
                let target = match inodes::key_at(self.keys(), ino) {
                    Some(k) => listing::link_target(self.setup().index, k),
                    None => None,
                };
                match target {
                    Some(t) => r matches Ok(x) && x@ == t,
                    None => refused(r, FsFault::Invalid),
                }
            }),
    {
        match self.key(ino) {
            Some(k) => match self.tree.link_target(k) {
                Some(t) => Ok(t),
                None => Err(FsError::Invalid),
            },
            None => Err(FsError::Invalid),
        }
    }

    /// The full listing of a directory, built once per `opendir`.
    fn dir_entries(&mut self, key: Key) -> (r: core::result::Result<Vec<Entry>, FsError>)
        requires
            old(self).wf(),
            listing::known(old(self).setup().index, key),
        ensures
            final(self).same(old(self)),
            match r {
                Ok(v) => may_list(old(self).setup(), key, Ok(tree::entry_views(v@))) && all_known(
                    old(self).setup(),
                    v@,
                ),
                Err(e) => may_list(old(self).setup(), key, Err(e@)),
            },
    {
        let ghost s = self.setup();
        let parent = self.tree.parent(key);
        let mut rest = match self.tree.entries(key) {
            Ok(v) => v,
            Err(e) => {
                let ghost list: TreeOutcome<Seq<EntryView>> = Err(e@);
                assert(tree::may_parent(s, key, parent) && tree::may_list(s, key, list));
                return Err(tell(e));
            },
        };
        let ghost list: TreeOutcome<Seq<EntryView>> = Ok(tree::entry_views(rest@));
        let ghost listed = rest@;
        let here = Entry { name: text::bytes_of("."), key, kind: Kind::Dir };
        let above = Entry { name: text::bytes_of(".."), key: parent, kind: Kind::Dir };
        let ghost dots = seq![here, above];
        let mut out: Vec<Entry> = Vec::new();
        out.push(here);
        out.push(above);
        out.append(&mut rest);
        proof {
            assert(out@ =~= dots + listed);
            assert(tree::entry_views(out@) =~= with_dots(key, parent, tree::entry_views(listed)));
            assert(tree::may_parent(s, key, parent) && tree::may_list(s, key, list));
            assert forall|k: int| 0 <= k < out@.len() implies listing::known(
                s.index,
                (#[trigger] out@[k]).key,
            ) by {
                if k >= 2 {
                    assert(out@[k] == listed[k - 2]);
                }
            }
        }
        Ok(out)
    }

    /// Open a directory: its listing is kept until it is released.
    pub fn opendir(&mut self, ino: u64) -> (r: core::result::Result<u64, FsError>)
        requires
            old(self).wf(),
        ensures
            final(self).wf(),
            final(self).setup() == old(self).setup(),
            final(self).past() == old(self).past(),
            final(self).owner() == old(self).owner(),
            final(self).keys() == old(self).keys(),
            match r {
                Ok(h) => h == final(self).last_handle() && h == (if old(self).last_handle()
                    == u64::MAX {
                    0
                } else {
                    old(self).last_handle() + 1
                }) && final(self).handles().dom() == old(self).handles().dom().insert(h) && (forall|
                    x: u64,
                | #[trigger]
                    old(self).handles().contains_key(x) && x != h ==> final(self).handles()[x]
                        == old(self).handles()[x]) && (inodes::key_at(
                    old(self).keys(),
                    ino,
                ) matches Some(k) && may_list(
                    old(self).setup(),
                    k,
                    Ok(tree::entry_views(final(self).handles()[h]@)),
                )),
                Err(e) => final(self).same(old(self)) && match inodes::key_at(
                    old(self).keys(),
                    ino,
                ) {
                    Some(k) => may_list(old(self).setup(), k, Err(e@)),
                    None => e@ == FsFault::NoEntry,
                },
            },
    {
        let key = match self.key(ino) {
            Some(k) => k,
            None => {
                return Err(FsError::NoEntry);
            },
        };
        let entries = match self.dir_entries(key) {
            Ok(v) => Arc::new(v),
            Err(e) => {
                return Err(e);
            },
        };
        let h: u64 = if self.next == u64::MAX {
            0
        } else {
            self.next + 1
        };
        self.next = h;
        let ghost before = self.open@;
        let _ = self.open.insert(h, entries);
        proof {
            assert forall|x: u64|
                #![trigger self.open@.contains_key(x)]
                self.open@.contains_key(x) implies all_known(self.setup(), self.open@[x]@) by {
                if x != h {
                    assert(before.contains_key(x));
                }
            }
            assert(self.open@.dom() =~= before.dom().insert(h));
        }
        Ok(h)
    }

    /// The listing for an open directory handle, rebuilt from the inode if
    /// the kernel reads a directory it did not open through us.
    pub fn dir_list(&mut self, ino: u64, handle: u64) -> (r: core::result::Result<
        Arc<Vec<Entry>>,
        FsError,
    >)
        requires
            old(self).wf(),
        ensures
            final(self).same(old(self)),
            r matches Ok(v) ==> all_known(old(self).setup(), v@),
            if old(self).handles().contains_key(handle) {
                r == Ok::<Arc<Vec<Entry>>, FsError>(old(self).handles()[handle])
            } else {
                match inodes::key_at(old(self).keys(), ino) {
                    None => refused(r, FsFault::NoEntry),
                    Some(k) => match r {
                        Ok(v) => may_list(old(self).setup(), k, Ok(tree::entry_views(v@))),
                        Err(e) => may_list(old(self).setup(), k, Err(e@)),
                    },
                }
            },
    {
        match self.open.get(&handle) {
            Some(v) => {
                return Ok(recent::share(v));
            },
            None => {},
        }
        match self.key(ino) {
            Some(k) => match self.dir_entries(k) {
                Ok(v) => Ok(Arc::new(v)),
                Err(e) => Err(e),
            },
            None => Err(FsError::NoEntry),
        }
    }

    /// Entry `i` of a listing, as `readdir` tells of it.
    pub fn entry<'a>(&mut self, list: &'a Vec<Entry>, i: u64) -> (r: Option<DirItem<'a>>)
        requires
            old(self).wf(),
            all_known(old(self).setup(), list@),
        ensures
            final(self).same_but_inodes(old(self)),
            if i < list@.len() {
                let e = list@[i as int]@;
                &&& final(self).keys() == inodes::after(old(self).keys(), e.key)
                &&& r matches Some(d)
                &&& d.ino == inodes::number(final(self).keys(), e.key)
                &&& d.next == i + 1
                &&& d.kind == e.kind
                &&& d.name@ == e.name
            } else {
                final(self).keys() == old(self).keys() && r is None
            },
    {
        if i >= list.len() as u64 {
            return None;
        }
        let e = &list[i as usize];
        let ino: u64 = self.ino(e.key);
        Some(DirItem { ino, next: i + 1, kind: e.kind, name: e.name.as_slice() })
    }

    /// The attributes of an entry of a listing, as `readdirplus` tells of
    /// them. An entry that was listed should always have attributes; if it
    /// does not, the name is still shown rather than dropped from the listing,
    /// and a later stat reports the error.
    pub fn entry_attr(&mut self, e: &Entry) -> (r: FileAttr)
        requires
            old(self).wf(),
            listing::known(old(self).setup().index, e.key),
        ensures
            final(self).same_but_inodes(old(self)),
            final(self).keys() == inodes::after(old(self).keys(), e.key),
            ({
                let ino = inodes::number(final(self).keys(), e.key);
                let (uid, gid) = old(self).owner();
                let blank = Meta { kind: e.kind, size: 0, mtime: listing::epoch() };
                ||| may_attr(old(self).setup(), e.key, ino, uid, gid, Ok(r))
                ||| r == attr_of(ino, blank, uid, gid) && exists|f: FsFault| #[trigger]
                    may_attr(old(self).setup(), e.key, ino, uid, gid, Err(f))
            }),
    {
        let ghost s = self.setup();
        match self.attr_for(e.key) {
            Ok(a) => a,
            Err(f) => {
                let ghost ino = inodes::number(self.keys(), e.key);
                assert(may_attr(s, e.key, ino, self.uid, self.gid, Err(f@)));
                let n: u64 = self.ino(e.key);
                proof {
                    inodes::lemma_after_again(old(self).keys(), e.key);
                }
                attr(n, Meta { kind: e.kind, size: 0, mtime: Date::epoch() }, self.uid, self.gid)
            },
        }
    }

    /// Forget the listing of a handle.
    pub fn releasedir(&mut self, handle: u64)
        requires
            old(self).wf(),
        ensures
            final(self).wf(),
            final(self).setup() == old(self).setup(),
            final(self).past() == old(self).past(),
            final(self).keys() == old(self).keys(),
            final(self).last_handle() == old(self).last_handle(),
            final(self).owner() == old(self).owner(),
            final(self).handles() == old(self).handles().remove(handle),
    {
        let ghost before = self.open@;
        let _ = self.open.remove(&handle);
        proof {
            assert(self.open@ =~= before.remove(handle));
            assert forall|x: u64|
                #![trigger self.open@.contains_key(x)]
                self.open@.contains_key(x) implies all_known(self.setup(), self.open@[x]@) by {
                assert(before.contains_key(x));
            }
        }
    }

    /// Whether an inode can be opened as a file.
    pub fn open(&self, ino: u64) -> (r: core::result::Result<(), FsError>)
        requires
            self.wf(),
        ensures
            match inodes::key_at(self.keys(), ino) {
                Some(Key::Node(..)) => r is Ok,
                Some(_) => refused(r, FsFault::IsADirectory),
                None => refused(r, FsFault::NoEntry),
            },
    {
        match self.key(ino) {
            Some(Key::Node(_, _)) => Ok(()),
            Some(_) => Err(FsError::IsADirectory),
            None => Err(FsError::NoEntry),
        }
    }

    fn locate(&mut self, key: Key) -> (r: core::result::Result<Arc<FileLoc>, ReadError>)
        requires
            old(self).wf(),
            listing::known(old(self).setup().index, key),
        ensures
            final(self).same(old(self)),
            match r {
                Ok(l) => may_locate(old(self).setup(), key, Ok(l@)) && l@.fits(
                    old(self).setup().index,
                ),
                Err(e) => may_locate(old(self).setup(), key, Err(e@)),
            },
    {
        let (b, idx) = match key {
            Key::Node(b, idx) => (b, idx),
            _ => {
                return Err(other("not a file"));
            },
        };
        let p = match self.tree.store.parsed(b) {
            Ok(p) => p,
            Err(e) => {
                return Err(e);
            },
        };
        match p.manifest.node(idx) {
            Some(n) => self.tree.store.locate(b, n.file_id),
            None => Err(ReadError::MissingRecord(idx)),
        }
    }

    /// Read a file.
    pub fn read(&mut self, ino: u64, offset: u64, size: u32) -> (r: core::result::Result<
        Vec<u8>,
        FsError,
    >)
        requires
            old(self).wf(),
        ensures
            final(self).wf(),
            final(self).setup() == old(self).setup(),
            final(self).keys() == old(self).keys(),
            final(self).handles() == old(self).handles(),
            final(self).last_handle() == old(self).last_handle(),
            final(self).owner() == old(self).owner(),
            final(self).past().covers(old(self).past()),
            match inodes::key_at(old(self).keys(), ino) {
                None => refused(r, FsFault::NoEntry),
                Some(k) => exists|at: Outcome<LocView>| #[trigger]
                    may_locate(old(self).setup(), k, at) && match at {
                        Ok(loc) => match r {
                            Ok(v) => may_read(
                                old(self).setup(),
                                final(self).past(),
                                loc,
                                offset,
                                size,
                                Ok(v@),
                            ),
                            Err(e) => may_read(
                                old(self).setup(),
                                final(self).past(),
                                loc,
                                offset,
                                size,
                                Err(e@),
                            ),
                        },
                        Err(f) => refused(r, FsFault::Read(f)),
                    },
            },
    {
        let key = match self.key(ino) {
            Some(k) => k,
            None => {
                return Err(FsError::NoEntry);
            },
        };
        let ghost s = self.setup();
        let loc = match self.locate(key) {
            Ok(l) => l,
            Err(e) => {
                let ghost at: Outcome<LocView> = Err(e@);
                assert(may_locate(s, key, at));
                return Err(FsError::Read(e));
            },
        };
        let ghost at: Outcome<LocView> = Ok(loc@);
        assert(may_locate(s, key, at));
        match self.tree.store.read(&*loc, offset, size as usize) {
            Ok(v) => {
                assert(v@.len() == 0 ==> v@ =~= Seq::<u8>::empty());
                Ok(v)
            },
            Err(e) => Err(FsError::Read(e)),
        }
    }

    /// An extended attribute by name. The kernel and tools ask for attributes
    /// in other namespaces constantly (`security.*`, `system.*`); those are
    /// answered without building every attribute that is served.
    pub fn getxattr(&mut self, ino: u64, name: &[u8], size: u32) -> (r: core::result::Result<
        XattrReply,
        FsError,
    >)
        requires
            old(self).wf(),
        ensures
            final(self).same(old(self)),
            match inodes::key_at(old(self).keys(), ino) {
                None => refused(r, FsFault::NoEntry),
                Some(k) => if text::strip_start(text::lossy(name@), "user.steam2."@) is None {
                    refused(r, FsFault::NoData)
                } else {
                    exists|attrs: Seq<listing::Attr>| #[trigger]
                        tree::may_xattrs(old(self).setup(), k, attrs) && match xattr::value(
                            attrs,
                            text::lossy(name@),
                        ) {
                            None => refused(r, FsFault::NoData),
                            Some(v) => replied(r, text::utf8(v), size),
                        }
                },
            },
    {
        let key = match self.key(ino) {
            Some(k) => k,
            None => {
                return Err(FsError::NoEntry);
            },
        };
        let wanted = text::from_utf8_lossy(name);
        let chars = text::chars_of(wanted.as_str());
        let prefix = text::chars_of("user.steam2.");
        if text::strip_beginning(chars.as_slice(), prefix.as_slice()).is_none() {
            return Err(FsError::NoData);
        }
        let attrs = self.tree.xattrs(key);
        match xattr::find(&attrs, wanted.as_str()) {
            Some(v) => answer(text::bytes_of(v.as_str()), size),
            None => Err(FsError::NoData),
        }
    }

    /// The names of the extended attributes.
    pub fn listxattr(&mut self, ino: u64, size: u32) -> (r: core::result::Result<
        XattrReply,
        FsError,
    >)
        requires
            old(self).wf(),
        ensures
            final(self).same(old(self)),
            match inodes::key_at(old(self).keys(), ino) {
                None => refused(r, FsFault::NoEntry),
                Some(k) => exists|attrs: Seq<listing::Attr>| #[trigger]
                    tree::may_xattrs(old(self).setup(), k, attrs) && replied(
                        r,
                        xattr::names(attrs),
                        size,
                    ),
            },
    {
        let key = match self.key(ino) {
            Some(k) => k,
            None => {
                return Err(FsError::NoEntry);
            },
        };
        let attrs = self.tree.xattrs(key);
        answer(xattr::name_list(&attrs), size)
    }

    /// How many files the filesystem says that it has: one for each blob.
    pub fn files(&self) -> (r: u64)
        requires
            self.wf(),
        ensures
            r == self.setup().index.blobs.len(),
    {
        self.tree.store.index().blob_count()
    }
}

/// A request for attributes was answered with `bytes`, as far as there was
/// room.
pub open spec fn replied(
    r: core::result::Result<XattrReply, FsError>,
    bytes: Seq<u8>,
    size: u32,
) -> bool {
    match xattr::reply_of(bytes, size) {
        xattr::XattrView::Size(n) => r matches Ok(XattrReply::Size(x)) && x == n,
        xattr::XattrView::Data(d) => r matches Ok(XattrReply::Data(x)) && x@ == d,
        xattr::XattrView::Range => refused(r, FsFault::Range),
    }
}

fn answer(bytes: Vec<u8>, size: u32) -> (r: core::result::Result<XattrReply, FsError>)
    ensures
        replied(r, bytes@, size),
{
    match xattr::reply(bytes, size) {
        Some(x) => Ok(x),
        None => Err(FsError::Range),
    }
}

} // verus!
