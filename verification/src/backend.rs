//! Where the dump's bytes come from. Everything above this layer only ever
//! lists directories and reads byte ranges, so a backend can be a local
//! directory, an SFTP host, or anything else with random access.

use vstd::prelude::*;
use vstd::slice::slice_subrange;

use crate::text;

pub mod handles;
pub mod laws;
pub mod login;
pub mod sftp;
pub mod transfer;

verus! {

/// One entry of a directory of the dump.
#[derive(Debug, PartialEq, Eq)]
pub struct DirEntry {
    pub name: String,
    pub size: u64,
    pub is_dir: bool,
}

/// A `DirEntry`, as the contracts see it.
#[verifier::ext_equal]
pub struct DirView {
    pub name: Seq<char>,
    pub size: u64,
    pub is_dir: bool,
}

impl View for DirEntry {
    type V = DirView;

    open spec fn view(&self) -> DirView {
        DirView { name: self.name@, size: self.size, is_dir: self.is_dir }
    }
}

pub open spec fn dir_views(v: Seq<DirEntry>) -> Seq<DirView> {
    v.map_values(|e: DirEntry| e@)
}

/// What went wrong: in brief, and as a whole, with what it came from.
#[derive(Debug, PartialEq, Eq)]
pub struct Trouble {
    pub brief: String,
    pub whole: String,
}

/// A `Trouble`, as the contracts see it.
#[verifier::ext_equal]
pub struct TroubleView {
    pub brief: Seq<char>,
    pub whole: Seq<char>,
}

impl View for Trouble {
    type V = TroubleView;

    open spec fn view(&self) -> TroubleView {
        TroubleView { brief: self.brief@, whole: self.whole@ }
    }
}

impl TroubleView {
    /// Trouble that comes from nothing else.
    pub open spec fn plain(s: Seq<char>) -> TroubleView {
        TroubleView { brief: s, whole: s }
    }

    /// Trouble that comes from something else, which `cause` describes.
    pub open spec fn from_cause(s: Seq<char>, cause: Seq<char>) -> TroubleView {
        TroubleView { brief: s, whole: s + ": "@ + cause }
    }
}

impl Trouble {
    /// Trouble that comes from nothing else.
    pub fn plain(s: &str) -> (r: Trouble)
        ensures
            r@ == TroubleView::plain(s@),
    {
        Trouble { brief: text::owned(s), whole: text::owned(s) }
    }

    /// Trouble that comes from something else, which `cause` describes.
    pub fn from_cause(s: &str, cause: &str) -> (r: Trouble)
        ensures
            r@ == TroubleView::from_cause(s@, cause@),
    {
        let mut whole = text::owned(s);
        text::push_text(&mut whole, ": ");
        text::push_text(&mut whole, cause);
        Trouble { brief: text::owned(s), whole }
    }
}

/// What a backend answers: what was asked for, or why not.
pub type Reply<T> = core::result::Result<T, Trouble>;

/// A reply, as the contracts see it.
pub type ReplyView<T> = core::result::Result<T, TroubleView>;

/// A reply with bytes, as the contracts see it.
pub open spec fn bytes_view(r: Reply<Vec<u8>>) -> ReplyView<Seq<u8>> {
    match r {
        Ok(v) => Ok(v@),
        Err(e) => Err(e@),
    }
}

/// A reply with a listing, as the contracts see it.
pub open spec fn listing_view(r: Reply<Vec<DirEntry>>) -> ReplyView<Seq<DirView>> {
    match r {
        Ok(v) => Ok(dir_views(v@)),
        Err(e) => Err(e@),
    }
}

/// A place that a dump is read from. What it answers is its own affair; the
/// three relations only name the answers that it may give, any at all unless
/// the backend says more.
pub trait Backend {
    open spec fn may_list(&self, rel: Seq<char>, r: ReplyView<Seq<DirView>>) -> bool {
        true
    }

    open spec fn may_read_at(
        &self,
        rel: Seq<char>,
        offset: u64,
        len: usize,
        r: ReplyView<Seq<u8>>,
    ) -> bool {
        true
    }

    open spec fn may_read_all(&self, rel: Seq<char>, r: ReplyView<Seq<u8>>) -> bool {
        true
    }

    /// Human-readable description for logs.
    fn describe(&self) -> String;

    /// List one directory, relative to the dump root (`""` for the root).
    fn list_dir(&self, rel: &str) -> (r: Reply<Vec<DirEntry>>)
        ensures
            self.may_list(rel@, listing_view(r)),
    ;

    /// Read up to `len` bytes at `offset`. Short reads only happen at EOF.
    fn read_at(&self, rel: &str, offset: u64, len: usize) -> (r: Reply<Vec<u8>>)
        ensures
            self.may_read_at(rel@, offset, len, bytes_view(r)),
    ;

    /// Read a whole (small) file.
    fn read_all(&self, rel: &str) -> (r: Reply<Vec<u8>>)
        ensures
            self.may_read_all(rel@, bytes_view(r)),
    ;
}

/// How a source string was interpreted.
#[derive(Debug, PartialEq, Eq)]
pub enum Source {
    Local(String),
    /// `destination` is what `ssh` accepts: `host`, `user@host`, `ssh://user@host:port`.
    Sftp { destination: String, path: String },
}

/// A `Source`, as the contracts see it.
pub enum SourceView {
    Local(Seq<char>),
    Sftp { destination: Seq<char>, path: Seq<char> },
}

impl View for Source {
    type V = SourceView;

    open spec fn view(&self) -> SourceView {
        match self {
            Source::Local(p) => SourceView::Local(p@),
            Source::Sftp { destination, path } => SourceView::Sftp {
                destination: destination@,
                path: path@,
            },
        }
    }
}

/// What a string names: a local path, `sftp://[user@]host[:port]/abs/path`,
/// or the scp style `[user@]host:/path`. What exists is always local.
pub open spec fn source_of(s: Seq<char>, exists_locally: bool) -> SourceView {
    if exists_locally {
        SourceView::Local(s)
    } else {
        match text::strip_start(s, "sftp://"@) {
            Some(rest) => match text::find(rest, '/') {
                Some(i) => SourceView::Sftp {
                    destination: "ssh://"@ + rest.take(i),
                    path: rest.skip(i),
                },
                None => SourceView::Sftp { destination: "ssh://"@ + rest, path: "/"@ },
            },
            None => match text::split_once(s, ':') {
                Some((host, path)) => if host.len() > 0 && text::find(host, '/') is None {
                    SourceView::Sftp {
                        destination: host,
                        path: if path.len() == 0 {
                            "."@
                        } else {
                            path
                        },
                    }
                } else {
                    SourceView::Local(s)
                },
                None => SourceView::Local(s),
            },
        }
    }
}

/// Accepts a local path, `sftp://[user@]host[:port]/abs/path`, or the scp
/// style `[user@]host:/path`. A string naming an existing local path, which
/// `exists_locally` tells, is always treated as local.
pub fn parse_source(s: &str, exists_locally: bool) -> (r: Source)
    ensures
        r@ == source_of(s@, exists_locally),
{
    if exists_locally {
        return Source::Local(text::owned(s));
    }
    let v = text::chars_of(s);
    let scheme = text::chars_of("sftp://");
    match text::strip_beginning(v.as_slice(), scheme.as_slice()) {
        Some(rest) => {
            let mut destination = text::owned("ssh://");
            match text::find_char(rest, '/') {
                Some(i) => {
                    let host = slice_subrange(rest, 0, i);
                    let path = slice_subrange(rest, i, rest.len());
                    assert(host@ =~= rest@.take(i as int));
                    assert(path@ =~= rest@.skip(i as int));
                    text::push_chars(&mut destination, host);
                    Source::Sftp { destination, path: text::string_of(path) }
                },
                None => {
                    text::push_chars(&mut destination, rest);
                    Source::Sftp { destination, path: text::owned("/") }
                },
            }
        },
        None => match text::split_once_at(v.as_slice(), ':') {
            Some((host, path)) => {
                let plain = match text::find_char(host, '/') {
                    Some(_) => false,
                    None => true,
                };
                if host.len() > 0 && plain {
                    let path = if path.len() == 0 {
                        text::owned(".")
                    } else {
                        text::string_of(path)
                    };
                    Source::Sftp { destination: text::string_of(host), path }
                } else {
                    Source::Local(text::owned(s))
                }
            },
            None => Source::Local(text::owned(s)),
        },
    }
}

} // verus!
