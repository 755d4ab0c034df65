//! What the command line prints.

use vstd::prelude::*;

use crate::index::{BlobId, Index, IndexView};
use crate::store::error::{ReadError, ReadFault};
use crate::text;

pub mod audit;
pub mod discovered;
pub mod inspect;
pub mod laws;
pub mod open;
pub mod verify;

verus! {

/// Why a command fails.
#[derive(Debug)]
pub enum CommandError {
    NoDepot(u32),
    NoVersion { depot: u32, version: String },
    Read(ReadError),
    /// So many files failed verification.
    Failed(u64),
}

/// A `CommandError`, as the contracts see it.
pub enum CommandFault {
    NoDepot(u32),
    NoVersion { depot: u32, version: Seq<char> },
    Read(ReadFault),
    Failed(u64),
}

impl View for CommandError {
    type V = CommandFault;

    open spec fn view(&self) -> CommandFault {
        match self {
            CommandError::NoDepot(d) => CommandFault::NoDepot(*d),
            CommandError::NoVersion { depot, version } => CommandFault::NoVersion {
                depot: *depot,
                version: version@,
            },
            CommandError::Read(e) => CommandFault::Read(e@),
            CommandError::Failed(n) => CommandFault::Failed(*n),
        }
    }
}

impl CommandFault {
    /// The message that describes the failure.
    pub open spec fn text(self) -> Seq<char> {
        match self {
            CommandFault::NoDepot(d) => "depot "@ + text::dec(d as nat) + " is not in the dump"@,
            CommandFault::NoVersion { depot, version } => "depot "@ + text::dec(depot as nat)
                + " has no version "@ + text::quoted(version),
            CommandFault::Read(f) => f.whole_text(),
            CommandFault::Failed(n) => text::dec(n as nat) + " files failed verification"@,
        }
    }
}

impl CommandError {
    /// The message that describes the failure.
    pub fn message(&self) -> (r: String)
        ensures
            r@ == self@.text(),
    {
        match self {
            CommandError::NoDepot(d) => {
                let mut s = text::owned("depot ");
                text::push_dec(&mut s, *d as u64);
                text::push_text(&mut s, " is not in the dump");
                s
            },
            CommandError::NoVersion { depot, version } => {
                let mut s = text::owned("depot ");
                text::push_dec(&mut s, *depot as u64);
                text::push_text(&mut s, " has no version ");
                let name = text::quote(version.as_str());
                text::push_text(&mut s, name.as_str());
                s
            },
            CommandError::Read(e) => e.whole_message(),
            CommandError::Failed(n) => {
                let mut s = String::new();
                text::push_dec(&mut s, *n);
                text::push_text(&mut s, " files failed verification");
                assert(s@ =~= self@.text());
                s
            },
        }
    }
}

/// What a command comes to, as the contracts see it.
pub type CommandOutcome<T> = core::result::Result<T, CommandFault>;

/// A command's result, as the contracts see it.
pub open spec fn shown(r: core::result::Result<(), CommandError>) -> CommandOutcome<()> {
    match r {
        Ok(_) => Ok(()),
        Err(e) => Err(e@),
    }
}

/// The blob that a version directory name of a depot names.
pub open spec fn version_of(v: IndexView, depot: u32, version: Seq<char>) -> CommandOutcome<BlobId> {
    if !v.has_depot(depot) {
        Err(CommandFault::NoDepot(depot))
    } else {
        match v.depot(depot).named(version) {
            Some(b) => Ok(b),
            None => Err(CommandFault::NoVersion { depot, version }),
        }
    }
}

/// The blob that a version directory name of a depot names.
pub fn resolve_version(ix: &Index, depot: u32, version: &str) -> (r: core::result::Result<
    BlobId,
    CommandError,
>)
    requires
        ix.wf(),
    ensures
        match r {
            Ok(b) => version_of(ix@, depot, version@) == Ok::<BlobId, CommandFault>(b)
                && ix@.in_depot(depot, b.0),
            Err(e) => version_of(ix@, depot, version@) == Err::<BlobId, CommandFault>(e@),
        },
{
    match ix.depot(depot) {
        None => Err(CommandError::NoDepot(depot)),
        Some(d) => match d.lookup_name(version) {
            Some(b) => {
                proof {
                    let names = ix@.depot(depot).names;
                    let blobs = ix@.depot(depot).blobs;
                    ix.lemma_listings(depot);
                    crate::index::lemma_last_index(names, version@);
                    let k = crate::index::last_index(names, version@)->0;
                    assert(blobs.contains(blobs[k]));
                    assert(ix@.in_depot(depot, blobs[k]));
                }
                Ok(b)
            },
            None => Err(CommandError::NoVersion { depot, version: text::owned(version) }),
        },
    }
}

/// Lines of text, as the contracts see them.
pub open spec fn line_views(v: Seq<String>) -> Seq<Seq<char>> {
    v.map_values(|s: String| s@)
}

/// Put out one more line.
pub(crate) fn put_line(out: &mut Vec<String>, line: String)
    ensures
        line_views(final(out)@) == line_views(old(out)@).push(line@),
{
    let ghost seen = line@;
    out.push(line);
    assert(line_views(out@) =~= line_views(old(out)@).push(seen));
}

/// `s`, with as many spaces behind it as it takes to be `width` long.
pub open spec fn left(s: Seq<char>, width: nat) -> Seq<char> {
    if s.len() >= width {
        s
    } else {
        s + Seq::new((width - s.len()) as nat, |i: int| ' ')
    }
}

/// Append a text, with as many spaces behind it as it takes to be `width` long.
pub(crate) fn push_left(out: &mut String, s: &str, width: usize)
    ensures
        final(out)@ == old(out)@ + left(s@, width as nat),
{
    let n: usize = text::chars_of(s).len();
    let ghost before = out@;
    text::push_text(out, s);
    let mut i: usize = n;
    assert(out@ =~= before + s@ + Seq::new(0, |i: int| ' '));
    while i < width
        invariant
            n <= i,
            i <= width || i == n,
            n == s@.len(),
            out@ == before + s@ + Seq::new((i - n) as nat, |i: int| ' '),
        decreases width - i,
    {
        out.push(' ');
        i += 1;
        assert(out@ =~= before + s@ + Seq::new((i - n) as nat, |i: int| ' '));
    }
    assert(out@ =~= before + left(s@, width as nat));
}

} // verus!
