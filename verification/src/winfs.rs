//! What the WinFsp frontend answers.
//!
//! Windows has no symlinks worth serving here, so the two link entries are
//! shown as the directories they point at: `\<depot>\latest\...` and
//! `\<depot>\by-date\<stamp>_v<N>\...` are the version trees themselves.
//! Extended attributes are not served at all.

use vstd::prelude::*;

use crate::backend::Backend;
use crate::calendar::Date;
use crate::index::{Index, IndexView};
use crate::store::error::{ErrorClass, ReadFault};
use crate::store::setup;
use crate::store::setup::{Past, Setup};
use crate::store::table::LocView;
use crate::store::Store;
use crate::text;
use crate::tree;
use crate::tree::listing;
use crate::tree::{Entry, EntryView, Key, Kind, Meta, Tree, TreeError, TreeFault, TreeOutcome};

pub mod laws;
pub mod path;

verus! {

pub const SECTOR_SIZE: u16 = 512;

pub const SECTORS_PER_ALLOCATION_UNIT: u16 = 1;

pub const ALLOCATION_UNIT: u64 = 512;

/// 1970-01-01 in ticks of 100ns from 1601-01-01.
pub const UNIX_EPOCH_IN_TICKS: u64 = 116_444_736_000_000_000;

/// `FILE_ATTRIBUTE_READONLY`.
pub const READONLY: u32 = 1;

/// `FILE_ATTRIBUTE_DIRECTORY | FILE_ATTRIBUTE_READONLY`.
pub const READONLY_DIRECTORY: u32 = 17;

/// What a request that fails is answered.
#[derive(Debug, Clone, Copy, PartialEq, Eq, Structural)]
pub enum Status {
    /// `STATUS_OBJECT_NAME_NOT_FOUND`
    NameNotFound,
    /// `STATUS_NOT_A_DIRECTORY`
    NotADirectory,
    /// `STATUS_FILE_INVALID`: the record is fine but its bytes are not in this
    /// dump.
    FileInvalid,
    /// `STATUS_ACCESS_DENIED`: no known key decrypts it; "denied" is the
    /// closest thing Windows says out loud.
    AccessDenied,
    /// `STATUS_IO_DEVICE_ERROR`
    IoDevice,
    /// `STATUS_FILE_CORRUPT_ERROR`
    FileCorrupt,
    /// `STATUS_END_OF_FILE`
    EndOfFile,
}

/// What a failure of the tree is answered.
pub open spec fn status_of(f: TreeFault) -> Status {
    match f {
        TreeFault::NotFound => Status::NameNotFound,
        TreeFault::NotADirectory => Status::NotADirectory,
        TreeFault::Read(r) => match r.class() {
            ErrorClass::Missing => Status::FileInvalid,
            ErrorClass::NoKey => Status::AccessDenied,
            ErrorClass::Io => Status::IoDevice,
            ErrorClass::BadData => Status::FileCorrupt,
        },
    }
}

/// What a failure of the tree is answered.
pub fn status(e: &TreeError) -> (r: Status)
    ensures
        r == status_of(e@),
{
    match e {
        TreeError::NotFound => Status::NameNotFound,
        TreeError::NotADirectory => Status::NotADirectory,
        TreeError::Read(r) => match r.class() {
            ErrorClass::Missing => Status::FileInvalid,
            ErrorClass::NoKey => Status::AccessDenied,
            ErrorClass::Io => Status::IoDevice,
            ErrorClass::BadData => Status::FileCorrupt,
        },
    }
}

/// A moment in ticks of 100ns from 1601; past what 64 bits can tell, the
/// greatest number stands for all.
pub open spec fn ticks(t: Date) -> u64 {
    let n = UNIX_EPOCH_IN_TICKS + t.secs * 10_000_000 + t.nanos / 100;
    if n <= u64::MAX {
        n as u64
    } else {
        u64::MAX
    }
}

/// Windows counts 100ns ticks from 1601; the tree counts from 1970.
pub fn filetime(t: Date) -> (r: u64)
    ensures
        r == ticks(t),
{
    let since: u128 = t.secs as u128 * 10_000_000 + (t.nanos / 100) as u128;
    let n: u128 = UNIX_EPOCH_IN_TICKS as u128 + since;
    if n <= u64::MAX as u128 {
        n as u64
    } else {
        u64::MAX
    }
}

/// What Windows wants to know of a file.
#[derive(Debug, Clone, Copy, PartialEq, Eq, Structural)]
pub struct FileInfo {
    pub attributes: u32,
    pub file_size: u64,
    pub allocation_size: u64,
    /// Every time that there is.
    pub time: u64,
}

pub open spec fn attributes_of(kind: Kind) -> u32 {
    match kind {
        Kind::File => READONLY,
        _ => READONLY_DIRECTORY,
    }
}

/// `size` rounded up to whole allocation units, as far as 64 bits go.
pub open spec fn allocated(size: u64) -> u64 {
    let n = (size + 511) / 512 * 512;
    if n <= u64::MAX {
        n as u64
    } else {
        u64::MAX
    }
}

pub open spec fn info_of(meta: Meta) -> FileInfo {
    FileInfo {
        attributes: attributes_of(meta.kind),
        file_size: meta.size,
        allocation_size: allocated(meta.size),
        time: ticks(meta.mtime),
    }
}

/// The attributes of a node: nothing can be written.
pub fn attributes(meta: &Meta) -> (r: u32)
    ensures
        r == attributes_of(meta.kind),
{
    match meta.kind {
        Kind::File => READONLY,
        Kind::Dir => READONLY_DIRECTORY,
        Kind::Symlink => READONLY_DIRECTORY,
    }
}

/// What Windows wants to know of a node.
pub fn fill_info(meta: &Meta) -> (r: FileInfo)
    ensures
        r == info_of(*meta),
{
    let units: u128 = (meta.size as u128 + 511) / 512;
    let n: u128 = units * 512;
    FileInfo {
        attributes: attributes(meta),
        file_size: meta.size,
        allocation_size: if n <= u64::MAX as u128 {
            n as u64
        } else {
            u64::MAX
        },
        time: filetime(meta.mtime),
    }
}

/// Symlinks become the thing they point at.
pub open spec fn resolved(v: IndexView, key: Key) -> Key {
    match key {
        Key::Latest(d) => match v.latest(d) {
            Some(b) => Key::Version(b),
            None => key,
        },
        Key::DateLink(b) => Key::Version(b),
        _ => key,
    }
}

/// Symlinks become the thing they point at, since reparse points are not
/// served.
pub fn resolve(ix: &Index, key: Key) -> (r: Key)
    requires
        ix.wf(),
    ensures
        r == resolved(ix@, key),
        listing::known(ix@, key) ==> listing::known(ix@, r),
{
    match key {
        Key::Latest(d) => match ix.latest(d) {
            Some(b) => Key::Version(b),
            None => key,
        },
        Key::DateLink(b) => Key::Version(b),
        _ => key,
    }
}

/// What a link is resolved to is a directory of the tree, and is never a link
/// again.
pub proof fn law_links_are_gone(v: IndexView, key: Key)
    ensures
        resolved(v, resolved(v, key)) == resolved(v, key),
        !(resolved(v, key) is DateLink),
        resolved(v, key) matches Key::Latest(d) ==> v.latest(d) is None,
{
}

// ---- what a request may come to -------------------------------------------

/// The first entry with a name, however it is spelled.
pub open spec fn first_folded(list: Seq<EntryView>, name: Seq<char>) -> Option<Key>
    decreases list.len(),
{
    if list.len() == 0 {
        None
    } else if path::folds_alike(text::lossy(list[0].name), name) {
        Some(list[0].key)
    } else {
        first_folded(list.skip(1), name)
    }
}

/// A search that does not care about case may come to `r`.
pub open spec fn may_find_folded<B: Backend>(
    s: Setup<B>,
    dir: Key,
    name: Seq<char>,
    r: TreeOutcome<Key>,
) -> bool {
    exists|list: TreeOutcome<Seq<EntryView>>| #[trigger]
        tree::may_list(s, dir, list) && r == match list {
            Err(f) => Err(f),
            Ok(l) => match first_folded(l, name) {
                Some(k) => Ok(k),
                None => Err(TreeFault::NotFound),
            },
        }
}

/// A step down to a name may come to `r`.
#[verifier::opaque]
pub open spec fn may_step<B: Backend>(
    s: Setup<B>,
    dir: Key,
    name: Seq<char>,
    r: TreeOutcome<Key>,
) -> bool {
    exists|found: TreeOutcome<Option<Key>>| #[trigger]
        tree::may_lookup(s, dir, text::utf8(name), found) && match found {
            Err(f) => r == Err::<Key, TreeFault>(f),
            Ok(Some(k)) => r == Ok::<Key, TreeFault>(k),
            Ok(None) => may_find_folded(s, dir, name, r),
        }
}

/// Walking on from `key` along `names` may come to `r`.
#[verifier::opaque]
pub open spec fn may_walk<B: Backend>(
    s: Setup<B>,
    key: Key,
    names: Seq<Seq<char>>,
    r: TreeOutcome<Key>,
) -> bool
    decreases names.len(),
{
    if names.len() == 0 {
        r == Ok::<Key, TreeFault>(key)
    } else if names[0] == "."@ {
        may_walk(s, key, names.skip(1), r)
    } else if names[0] == ".."@ {
        exists|up: Key| #[trigger]
            tree::may_parent(s, key, up) && may_walk(s, up, names.skip(1), r)
    } else {
        exists|step: TreeOutcome<Key>| #[trigger]
            may_step(s, resolved(s.index, key), names[0], step) && match step {
                Err(f) => r == Err::<Key, TreeFault>(f),
                Ok(k) => may_walk(s, k, names.skip(1), r),
            }
    }
}

/// The key that a path names may come to `r`.
pub open spec fn may_resolve_path<B: Backend>(
    s: Setup<B>,
    p: Seq<char>,
    r: TreeOutcome<Key>,
) -> bool {
    exists|end: TreeOutcome<Key>| #[trigger]
        may_walk(s, Key::Root, path::components(p), end) && r == match end {
            Ok(k) => Ok(resolved(s.index, k)),
            Err(f) => Err(f),
        }
}

/// `key` has been reached: whatever the walk on from it along `rest` may come
/// to, the whole walk may.
#[verifier::opaque]
spec fn reached<B: Backend>(
    s: Setup<B>,
    names: Seq<Seq<char>>,
    key: Key,
    rest: Seq<Seq<char>>,
) -> bool {
    forall|r: TreeOutcome<Key>| #[trigger]
        may_walk(s, key, rest, r) ==> may_walk(s, Key::Root, names, r)
}

proof fn lemma_reached_end<B: Backend>(s: Setup<B>, names: Seq<Seq<char>>, key: Key)
    requires
        reached(s, names, key, Seq::empty()),
    ensures
        may_walk(s, Key::Root, names, Ok(key)),
{
    reveal(reached);
    reveal(may_walk);
    assert(may_walk(s, key, Seq::empty(), Ok(key)));
}

proof fn lemma_reached_up<B: Backend>(
    s: Setup<B>,
    names: Seq<Seq<char>>,
    key: Key,
    rest: Seq<Seq<char>>,
    up: Key,
)
    requires
        reached(s, names, key, rest),
        rest.len() > 0,
        (rest[0] == "."@ && up == key) || (rest[0] == ".."@ && rest[0] != "."@ && tree::may_parent(
            s,
            key,
            up,
        )),
    ensures
        reached(s, names, up, rest.skip(1)),
{
    reveal(reached);
    reveal(may_walk);
    assert forall|r: TreeOutcome<Key>| #[trigger]
        may_walk(s, up, rest.skip(1), r) implies may_walk(s, Key::Root, names, r) by {
        assert(may_walk(s, key, rest, r));
    }
}

proof fn lemma_reached_down<B: Backend>(
    s: Setup<B>,
    names: Seq<Seq<char>>,
    key: Key,
    rest: Seq<Seq<char>>,
    step: TreeOutcome<Key>,
)
    requires
        reached(s, names, key, rest),
        rest.len() > 0,
        rest[0] != "."@,
        rest[0] != ".."@,
        may_step(s, resolved(s.index, key), rest[0], step),
    ensures
        match step {
            Ok(k) => reached(s, names, k, rest.skip(1)),
            Err(f) => may_walk(s, Key::Root, names, Err(f)),
        },
{
    reveal(reached);
    reveal(may_walk);
    match step {
        Ok(k) => {
            assert forall|r: TreeOutcome<Key>| #[trigger]
                may_walk(s, k, rest.skip(1), r) implies may_walk(s, Key::Root, names, r) by {
                assert(may_walk(s, key, rest, r));
            }
        },
        Err(f) => {
            assert(may_walk(s, key, rest, Err(f)));
        },
    }
}

/// Reading a file from `pos` to `end` may be answered with a failure.
pub open spec fn may_read_fail<B: Backend>(
    s: Setup<B>,
    past: Past,
    loc: LocView,
    pos: int,
    end: int,
    st: Status,
) -> bool {
    exists|f: ReadFault| #[trigger]
        s.may_read_fail(past, loc, pos, end, f) && st == status_of(TreeFault::Read(f))
}

/// Reading what fits in `room` bytes of a file may come to `r`.
pub open spec fn may_read<B: Backend>(
    s: Setup<B>,
    past: Past,
    loc: LocView,
    offset: u64,
    room: usize,
    r: core::result::Result<Seq<u8>, Status>,
) -> bool {
    let end = setup::least(offset + room, loc.record.size as int);
    if offset >= loc.record.size {
        r == Err::<Seq<u8>, Status>(Status::EndOfFile)
    } else if room == 0 {
        r == Ok::<Seq<u8>, Status>(Seq::empty())
    } else {
        match r {
            Ok(v) => s.may_file(past, loc, offset as int, end, v) && v.len() <= room,
            Err(st) => may_read_fail(s, past, loc, offset as int, end, st),
        }
    }
}

/// What is shown of an entry may be `meta`: its metadata, or little where that
/// will not load.
pub open spec fn may_show<B: Backend>(s: Setup<B>, key: Key, kind: Kind, meta: Meta) -> bool {
    ||| tree::may_meta(s, key, Ok(meta))
    ||| meta == (Meta { kind, size: 0, mtime: listing::epoch() }) && exists|f: TreeFault| #[trigger]
        tree::may_meta(s, key, Err(f))
}

/// One line of a directory, as the contracts see it.
pub type Line = (Seq<char>, Meta);

pub open spec fn lines_of(v: Seq<(String, Meta)>) -> Seq<Line> {
    v.map_values(|l: (String, Meta)| (l.0@, l.1))
}

/// What is listed of a directory may be `lines`.
pub open spec fn may_lines<B: Backend>(s: Setup<B>, list: Seq<EntryView>, lines: Seq<Line>) -> bool {
    &&& lines.len() == list.len()
    &&& forall|k: int| 0 <= k < list.len() ==> #[trigger] may_line(s, list[k], lines[k])
}

pub open spec fn may_line<B: Backend>(s: Setup<B>, e: EntryView, line: Line) -> bool {
    line.0 == text::lossy(e.name) && may_show(s, resolved(s.index, e.key), e.kind, line.1)
}

/// The first two lines of a directory below the root: itself, and the
/// directory it is in, which looks like itself where it will not load.
pub open spec fn may_dots<B: Backend>(s: Setup<B>, key: Key, this: Meta, above: Meta) -> bool {
    &&& tree::may_meta(s, key, Ok(this))
    &&& exists|up: Key| #[trigger]
        tree::may_parent(s, key, up) && (tree::may_meta(s, resolved(s.index, up), Ok(above)) || (
        above == this && exists|f: TreeFault| #[trigger]
            tree::may_meta(s, resolved(s.index, up), Err(f))))
}

// ---- the filesystem -------------------------------------------------------

/// The filesystem that is mounted.
#[verifier::reject_recursive_types(B)]
pub struct Steam2WinFs<B: Backend> {
    pub tree: Tree<B>,
}

impl<B: Backend> Steam2WinFs<B> {
    pub open spec fn wf(&self) -> bool {
        self.tree.wf()
    }

    /// What the filesystem works on.
    pub open spec fn setup(&self) -> Setup<B> {
        self.tree.setup()
    }

    pub fn new(store: Store<B>) -> (r: Self)
        ensures
            r.tree.store == store,
    {
        Steam2WinFs { tree: Tree::new(store) }
    }

    fn lookup_insensitive(&mut self, parent: Key, name: &str) -> (r: core::result::Result<
        Key,
        TreeError,
    >)
        requires
            old(self).wf(),
            old(self).tree.knows(parent),
        ensures
            final(self).wf(),
            final(self).setup() == old(self).setup(),
            final(self).tree.store.past() == old(self).tree.store.past(),
            match r {
                Ok(k) => may_find_folded(old(self).setup(), parent, name@, Ok(k)),
                Err(e) => may_find_folded(old(self).setup(), parent, name@, Err(e@)),
            },
            r matches Ok(k) ==> old(self).tree.knows(k),
    {
        let ghost s = self.setup();
        let list = match self.tree.entries(parent) {
            Ok(v) => v,
            Err(e) => {
                let ghost o: TreeOutcome<Seq<EntryView>> = Err(e@);
                assert(tree::may_list(s, parent, o));
                return Err(e);
            },
        };
        let ghost views = tree::entry_views(list@);
        let ghost o: TreeOutcome<Seq<EntryView>> = Ok(views);
        assert(tree::may_list(s, parent, o));
        assert(views.skip(0) =~= views);
        let mut i: usize = 0;
        while i < list.len()
            invariant
                i <= list@.len(),
                views == tree::entry_views(list@),
                o == Ok::<Seq<EntryView>, TreeFault>(views),
                tree::may_list(s, parent, o),
                self.wf(),
                self.setup() == s,
                s == old(self).setup(),
                self.tree.store.past() == old(self).tree.store.past(),
                forall|k: int|
                    0 <= k < list@.len() ==> old(self).tree.knows((#[trigger] list@[k]).key),
                first_folded(views, name@) == first_folded(views.skip(i as int), name@),
            decreases list@.len() - i,
        {
            proof {
                assert(views.skip(i as int)[0] == list@[i as int]@);
                assert(views.skip(i as int).skip(1) =~= views.skip(i + 1));
            }
            let shown = text::from_utf8_lossy(list[i].name.as_slice());
            if path::same_folded(shown.as_str(), name) {
                return Ok(list[i].key);
            }
            i += 1;
        }
        Err(TreeError::NotFound)
    }

    fn step(&mut self, dir: Key, name: &str) -> (r: core::result::Result<Key, TreeError>)
        requires
            old(self).wf(),
            old(self).tree.knows(dir),
        ensures
            final(self).wf(),
            final(self).setup() == old(self).setup(),
            final(self).tree.store.past() == old(self).tree.store.past(),
            match r {
                Ok(k) => may_step(old(self).setup(), dir, name@, Ok(k)),
                Err(e) => may_step(old(self).setup(), dir, name@, Err(e@)),
            },
            r matches Ok(k) ==> old(self).tree.knows(k),
    {
        proof {
            reveal(may_step);
        }
        let ghost s = self.setup();
        let bytes = text::bytes_of(name);
        match self.tree.lookup(dir, bytes.as_slice()) {
            Ok(Some(k)) => {
                let ghost o: TreeOutcome<Option<Key>> = Ok(Some(k));
                assert(tree::may_lookup(s, dir, text::utf8(name@), o));
                Ok(k)
            },
            Ok(None) => {
                let ghost o: TreeOutcome<Option<Key>> = Ok(None);
                assert(tree::may_lookup(s, dir, text::utf8(name@), o));
                self.lookup_insensitive(dir, name)
            },
            Err(e) => {
                let ghost o: TreeOutcome<Option<Key>> = Err(e@);
                assert(tree::may_lookup(s, dir, text::utf8(name@), o));
                Err(e)
            },
        }
    }

    /// Walk a `\`-separated path from the root. Lookups are exact first and
    /// case-insensitive second, because Windows callers expect to be able to
    /// spell a name any way they like.
    pub fn resolve_path(&mut self, file_name: &str) -> (r: core::result::Result<Key, TreeError>)
        requires
            old(self).wf(),
        ensures
            final(self).wf(),
            final(self).setup() == old(self).setup(),
            final(self).tree.store.past() == old(self).tree.store.past(),
            match r {
                Ok(k) => may_resolve_path(old(self).setup(), file_name@, Ok(k)),
                Err(e) => may_resolve_path(old(self).setup(), file_name@, Err(e@)),
            },
            r matches Ok(k) ==> old(self).tree.knows(k),
    {
        let ghost s = self.setup();
        let names = path::split(file_name);
        let ghost all = path::components(file_name@);
        let mut key = Key::Root;
        let mut i: usize = 0;
        proof {
            reveal(reached);
            assert(all.skip(0) =~= all);
            assert(reached(s, all, key, all.skip(0)));
        }
        while i < names.len()
            invariant
                i <= names@.len(),
                all == path::components(file_name@),
                all == path::texts(names@),
                self.wf(),
                self.setup() == s,
                s == old(self).setup(),
                self.tree.store.past() == old(self).tree.store.past(),
                self.tree.knows(key),
                reached(s, all, key, all.skip(i as int)),
            decreases names@.len() - i,
        {
            let name = names[i].as_str();
            let ghost rest = all.skip(i as int);
            proof {
                assert(rest[0] == name@);
                assert(rest.skip(1) =~= all.skip(i + 1));
            }
            if text::same_text(name, ".") {
                proof {
                    lemma_reached_up(s, all, key, rest, key);
                }
            } else if text::same_text(name, "..") {
                let up = self.tree.parent(key);
                proof {
                    lemma_reached_up(s, all, key, rest, up);
                }
                key = up;
            } else {
                let dir = resolve(self.tree.store.index(), key);
                match self.step(dir, name) {
                    Ok(k) => {
                        proof {
                            lemma_reached_down(s, all, key, rest, Ok(k));
                        }
                        key = k;
                    },
                    Err(e) => {
                        proof {
                            lemma_reached_down(s, all, key, rest, Err(e@));
                            let end: TreeOutcome<Key> = Err(e@);
                            assert(may_walk(s, Key::Root, all, end));
                        }
                        return Err(e);
                    },
                }
            }
            i += 1;
        }
        proof {
            assert(all.skip(i as int) =~= Seq::<Seq<char>>::empty());
            lemma_reached_end(s, all, key);
            let end: TreeOutcome<Key> = Ok(key);
            assert(may_walk(s, Key::Root, all, end));
        }
        Ok(resolve(self.tree.store.index(), key))
    }

    /// Open what a path names: its key, and what Windows wants to know of it.
    pub fn open(&mut self, file_name: &str) -> (r: core::result::Result<(Key, Meta), Status>)
        requires
            old(self).wf(),
        ensures
            final(self).wf(),
            final(self).setup() == old(self).setup(),
            final(self).tree.store.past() == old(self).tree.store.past(),
            match r {
                Ok((k, m)) => may_resolve_path(old(self).setup(), file_name@, Ok(k))
                    && tree::may_meta(old(self).setup(), k, Ok(m)) && old(self).tree.knows(k),
                Err(st) => exists|f: TreeFault| #[trigger]
                    status_of(f) == st && (may_resolve_path(
                        old(self).setup(),
                        file_name@,
                        Err(f),
                    ) || exists|k: Key| #[trigger]
                        may_resolve_path(old(self).setup(), file_name@, Ok(k)) && tree::may_meta(
                            old(self).setup(),
                            k,
                            Err(f),
                        )),
            },
    {
        let ghost s = self.setup();
        let key = match self.resolve_path(file_name) {
            Ok(k) => k,
            Err(e) => {
                assert(may_resolve_path(s, file_name@, Err(e@)));
                assert(status_of(e@) == status_of(e@));
                return Err(status(&e));
            },
        };
        assert(may_resolve_path(s, file_name@, Ok(key)));
        match self.tree.meta(key) {
            Ok(m) => Ok((key, m)),
            Err(e) => {
                assert(tree::may_meta(s, key, Err(e@)));
                Err(status(&e))
            },
        }
    }

    /// What Windows wants to know of an open file.
    pub fn get_file_info(&mut self, key: Key) -> (r: core::result::Result<FileInfo, Status>)
        requires
            old(self).wf(),
            old(self).tree.knows(key),
        ensures
            final(self).wf(),
            final(self).setup() == old(self).setup(),
            final(self).tree.store.past() == old(self).tree.store.past(),
            exists|m: TreeOutcome<Meta>| #[trigger]
                tree::may_meta(old(self).setup(), key, m) && r == match m {
                    Ok(m) => Ok(info_of(m)),
                    Err(f) => Err(status_of(f)),
                },
    {
        let ghost s = self.setup();
        match self.tree.meta(key) {
            Ok(m) => {
                let ghost o: TreeOutcome<Meta> = Ok(m);
                assert(tree::may_meta(s, key, o));
                Ok(fill_info(&m))
            },
            Err(e) => {
                let ghost o: TreeOutcome<Meta> = Err(e@);
                assert(tree::may_meta(s, key, o));
                Err(status(&e))
            },
        }
    }

    /// Read what fits in a buffer of `room` bytes.
    pub fn read(&mut self, key: Key, room: usize, offset: u64) -> (r: core::result::Result<
        Vec<u8>,
        Status,
    >)
        requires
            old(self).wf(),
            old(self).tree.knows(key),
        ensures
            final(self).wf(),
            final(self).setup() == old(self).setup(),
            final(self).tree.store.past().covers(old(self).tree.store.past()),
            exists|at: TreeOutcome<LocView>| #[trigger]
                tree::may_locate(old(self).setup(), key, at) && match at {
                    Err(f) => r == Err::<Vec<u8>, Status>(status_of(f)),
                    Ok(loc) => may_read(
                        old(self).setup(),
                        final(self).tree.store.past(),
                        loc,
                        offset,
                        room,
                        match r {
                            Ok(v) => Ok(v@),
                            Err(st) => Err(st),
                        },
                    ),
                },
    {
        let ghost s = self.setup();
        let loc = match self.tree.locate(key) {
            Ok(l) => l,
            Err(e) => {
                let ghost at: TreeOutcome<LocView> = Err(e@);
                assert(tree::may_locate(s, key, at));
                return Err(status(&e));
            },
        };
        let ghost at: TreeOutcome<LocView> = Ok(loc@);
        assert(tree::may_locate(s, key, at));
        if offset >= loc.record.size {
            return Err(Status::EndOfFile);
        }
        let left: u64 = loc.record.size - offset;
        let want: usize = if (room as u64) <= left {
            room
        } else {
            left as usize
        };
        match self.tree.read(&*loc, offset, want) {
            Ok(v) => {
                proof {
                    if want > 0 {
                        setup::law_reads_are_whole(
                            s,
                            self.tree.store.past(),
                            loc@,
                            offset as int,
                            offset + want,
                            v@,
                        );
                    } else {
                        assert(v@ =~= Seq::<u8>::empty());
                    }
                }
                Ok(v)
            },
            Err(e) => Err(status(&e)),
        }
    }

    /// The metadata that is shown for an entry: one that was listed should
    /// still appear even if its own metadata will not load, and a later open
    /// reports the error.
    fn shown(&mut self, key: Key, kind: Kind) -> (r: Meta)
        requires
            old(self).wf(),
            old(self).tree.knows(key),
        ensures
            final(self).wf(),
            final(self).setup() == old(self).setup(),
            final(self).tree.store.past() == old(self).tree.store.past(),
            may_show(old(self).setup(), key, kind, r),
    {
        match self.tree.meta(key) {
            Ok(m) => m,
            Err(_) => Meta { kind, size: 0, mtime: Date::epoch() },
        }
    }

    /// The lines of a directory but the first two.
    fn entry_lines(&mut self, list: &Vec<Entry>) -> (out: Vec<(String, Meta)>)
        requires
            old(self).wf(),
            forall|k: int|
                0 <= k < list@.len() ==> old(self).tree.knows((#[trigger] list@[k]).key),
        ensures
            final(self).wf(),
            final(self).setup() == old(self).setup(),
            final(self).tree.store.past() == old(self).tree.store.past(),
            may_lines(old(self).setup(), tree::entry_views(list@), lines_of(out@)),
    {
        let ghost s = self.setup();
        let ghost views = tree::entry_views(list@);
        let mut out: Vec<(String, Meta)> = Vec::new();
        let mut i: usize = 0;
        while i < list.len()
            invariant
                i <= list@.len(),
                views == tree::entry_views(list@),
                self.wf(),
                self.setup() == s,
                s == old(self).setup(),
                self.tree.store.past() == old(self).tree.store.past(),
                forall|k: int|
                    0 <= k < list@.len() ==> old(self).tree.knows((#[trigger] list@[k]).key),
                out@.len() == i,
                forall|k: int|
                    0 <= k < i ==> #[trigger] may_line(s, views[k], lines_of(out@)[k]),
            decreases list@.len() - i,
        {
            let e = &list[i];
            let key = resolve(self.tree.store.index(), e.key);
            let name = text::from_utf8_lossy(e.name.as_slice());
            let meta = self.shown(key, e.kind);
            let ghost before = lines_of(out@);
            let ghost line = (name@, meta);
            out.push((name, meta));
            proof {
                assert(lines_of(out@) =~= before.push(line));
                assert(views[i as int] == e@);
                assert(may_line(s, views[i as int], line));
                assert forall|k: int| 0 <= k < i + 1 implies #[trigger] may_line(
                    s,
                    views[k],
                    lines_of(out@)[k],
                ) by {
                    if k < i {
                        assert(may_line(s, views[k], before[k]));
                    }
                }
            }
            i += 1;
        }
        out
    }

    /// The lines of a directory: below the root, itself and the directory it
    /// is in come first.
    pub fn read_directory(&mut self, key: Key, kind: Kind) -> (r: core::result::Result<
        Vec<(String, Meta)>,
        Status,
    >)
        requires
            old(self).wf(),
            old(self).tree.knows(key),
        ensures
            final(self).wf(),
            final(self).setup() == old(self).setup(),
            final(self).tree.store.past() == old(self).tree.store.past(),
            if kind != Kind::Dir {
                r == Err::<Vec<(String, Meta)>, Status>(Status::NotADirectory)
            } else {
                match r {
                    Ok(v) => may_directory(old(self).setup(), key, lines_of(v@)),
                    Err(st) => may_refuse_directory(old(self).setup(), key, st),
                }
            },
    {
        if kind != Kind::Dir {
            return Err(Status::NotADirectory);
        }
        let ghost s = self.setup();
        let list = match self.tree.entries(key) {
            Ok(v) => v,
            Err(e) => {
                assert(tree::may_list(s, key, Err(e@)));
                return Err(status(&e));
            },
        };
        let ghost views = tree::entry_views(list@);
        assert(tree::may_list(s, key, Ok(views)));
        if key == Key::Root {
            return Ok(self.entry_lines(&list));
        }
        let this = match self.tree.meta(key) {
            Ok(m) => m,
            Err(e) => {
                assert(tree::may_meta(s, key, Err(e@)));
                return Err(status(&e));
            },
        };
        let up = self.tree.parent(key);
        let parent = resolve(self.tree.store.index(), up);
        let above = match self.tree.meta(parent) {
            Ok(m) => m,
            Err(_) => this,
        };
        assert(tree::may_parent(s, key, up));
        assert(may_dots(s, key, this, above));
        let mut rest = self.entry_lines(&list);
        let ghost lines = lines_of(rest@);
        let mut out: Vec<(String, Meta)> = Vec::new();
        out.push((text::owned("."), this));
        out.push((text::owned(".."), above));
        out.append(&mut rest);
        proof {
            assert(lines_of(out@) =~= seq![("."@, this), (".."@, above)] + lines);
            assert(lines_of(out@).skip(2) =~= lines);
        }
        Ok(out)
    }
}

/// What is listed of a directory may be `lines`.
pub open spec fn may_directory<B: Backend>(s: Setup<B>, key: Key, lines: Seq<Line>) -> bool {
    exists|list: Seq<EntryView>| #[trigger]
        tree::may_list(s, key, Ok(list)) && if key == Key::Root {
            may_lines(s, list, lines)
        } else {
            &&& lines.len() >= 2
            &&& lines[0].0 == "."@
            &&& lines[1].0 == ".."@
            &&& may_dots(s, key, lines[0].1, lines[1].1)
            &&& may_lines(s, list, lines.skip(2))
        }
}

/// A directory may be refused: it cannot be listed, or it has no metadata.
pub open spec fn may_refuse_directory<B: Backend>(s: Setup<B>, key: Key, st: Status) -> bool {
    ||| exists|f: TreeFault| #[trigger]
        tree::may_list(s, key, Err(f)) && st == status_of(f)
    ||| key != Key::Root && exists|f: TreeFault| #[trigger]
        tree::may_meta(s, key, Err(f)) && st == status_of(f)
}

} // verus!
