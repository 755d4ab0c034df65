//! What a dump on an SFTP host is asked for, and what its answers mean.

use vstd::prelude::*;
use vstd::slice::slice_subrange;

use super::{DirEntry, DirView};
use crate::text;

verus! {

/// Open remote file handles to keep around. The dump is read in small windows
/// all over a handful of dats, so re-opening per read would cost a round trip
/// every time.
pub const HANDLE_CACHE: usize = 64;

/// The largest SFTP read to ask for in one packet. Servers commonly cap a
/// single read at 256 KiB; anything bigger comes back short.
pub const MAX_READ: usize = 0x1_0000;

/// How many of those to keep in flight at once. The store's window is a
/// megabyte, so this covers a whole window in one round trip's worth of
/// waiting.
pub const MAX_IN_FLIGHT: usize = 16;

// ---- destinations ---------------------------------------------------------

/// A user, a host and a port, as the contracts see them.
pub type DestinationView = (Option<Seq<char>>, Seq<char>, Option<u16>);

/// What stands before and behind the last `c`.
pub open spec fn rsplit_once(s: Seq<char>, c: char) -> Option<(Seq<char>, Seq<char>)>
    decreases s.len(),
{
    if s.len() == 0 {
        None
    } else if s.last() == c {
        Some((s.drop_last(), Seq::empty()))
    } else {
        match rsplit_once(s.drop_last(), c) {
            Some((a, b)) => Some((a, b.push(s.last()))),
            None => None,
        }
    }
}

/// The host and the port that a text names; what is no port is part of the
/// host.
pub open spec fn host_port(s: Seq<char>) -> (Seq<char>, Option<u16>) {
    match rsplit_once(s, ':') {
        Some((h, p)) => match text::unsigned(p, 10, u16::MAX as nat) {
            Some(n) => (h, Some(n as u16)),
            None => (s, None),
        },
        None => (s, None),
    }
}

/// `host`, `user@host`, or `ssh://[user@]host[:port]`.
pub open spec fn destination_of(s: Seq<char>) -> DestinationView {
    let rest = match text::strip_start(s, "ssh://"@) {
        Some(r) => r,
        None => s,
    };
    match text::split_once(rest, '@') {
        Some((u, h)) => (Some(u), host_port(h).0, host_port(h).1),
        None => (None, host_port(rest).0, host_port(rest).1),
    }
}

proof fn lemma_rsplit(s: Seq<char>, c: char, i: int)
    requires
        0 <= i < s.len(),
        s[i] == c,
        forall|j: int| i < j < s.len() ==> s[j] != c,
    ensures
        rsplit_once(s, c) == Some((s.take(i), s.skip(i + 1))),
    decreases s.len(),
{
    if i == s.len() - 1 {
        assert(s.take(i) =~= s.drop_last());
        assert(s.skip(i + 1) =~= Seq::<char>::empty());
    } else {
        lemma_rsplit(s.drop_last(), c, i);
        assert(s.drop_last().take(i) =~= s.take(i));
        assert(s.drop_last().skip(i + 1).push(s.last()) =~= s.skip(i + 1));
    }
}

proof fn lemma_rsplit_none(s: Seq<char>, c: char)
    requires
        forall|j: int| 0 <= j < s.len() ==> s[j] != c,
    ensures
        rsplit_once(s, c) is None,
    decreases s.len(),
{
    if s.len() > 0 {
        lemma_rsplit_none(s.drop_last(), c);
    }
}

fn rsplit_once_at<'a>(s: &'a [char], c: char) -> (r: Option<(&'a [char], &'a [char])>)
    ensures
        match r {
            Some(p) => rsplit_once(s@, c) == Some((p.0@, p.1@)),
            None => rsplit_once(s@, c) is None,
        },
{
    let mut i: usize = s.len();
    while i > 0
        invariant
            i <= s@.len(),
            forall|j: int| i <= j < s@.len() ==> s@[j] != c,
        decreases i,
    {
        if s[i - 1] == c {
            let a = slice_subrange(s, 0, i - 1);
            let b = slice_subrange(s, i, s.len());
            proof {
                lemma_rsplit(s@, c, i - 1);
                assert(a@ =~= s@.take(i - 1));
                assert(b@ =~= s@.skip(i as int));
            }
            return Some((a, b));
        }
        i = i - 1;
    }
    proof {
        lemma_rsplit_none(s@, c);
    }
    None
}

fn split_host_port(s: &[char]) -> (r: (String, Option<u16>))
    ensures
        host_port(s@) == (r.0@, r.1),
{
    match rsplit_once_at(s, ':') {
        Some((h, p)) => match text::parse_unsigned(p, 10, u16::MAX as u64) {
            Some(n) => (text::string_of(h), Some(n as u16)),
            None => (text::string_of(s), None),
        },
        None => (text::string_of(s), None),
    }
}

/// `host`, `user@host`, or `ssh://[user@]host[:port]`.
pub fn split_destination(destination: &str) -> (r: (Option<String>, String, Option<u16>))
    ensures
        destination_of(destination@) == (
            match r.0 {
                Some(u) => Some(u@),
                None => None,
            },
            r.1@,
            r.2,
        ),
{
    let all = text::chars_of(destination);
    let scheme = text::chars_of("ssh://");
    let rest = match text::strip_beginning(all.as_slice(), scheme.as_slice()) {
        Some(r) => r,
        None => all.as_slice(),
    };
    match text::split_once_at(rest, '@') {
        Some((u, h)) => {
            let (host, port) = split_host_port(h);
            (Some(text::string_of(u)), host, port)
        },
        None => {
            let (host, port) = split_host_port(rest);
            (None, host, port)
        },
    }
}

// ---- host keys ------------------------------------------------------------

/// What `known_hosts` says of the key that a server presents.
#[derive(Debug, Clone, Copy, PartialEq, Eq, Structural)]
pub enum HostKey {
    /// A certificate, which would need the CA to be configured.
    Certificate,
    /// The recorded key.
    Recorded,
    /// Keys are recorded for the host, and none of this kind.
    Mismatch,
    /// The key changed since `known_hosts` was written.
    Changed,
    /// Nothing is recorded for the host.
    Unrecorded,
}

pub open spec fn is_accepted(k: HostKey) -> bool {
    k == HostKey::Recorded || k == HostKey::Unrecorded
}

/// Accepts whatever host key the server presents if `known_hosts` has nothing
/// to say, rather than making the dump unreadable, and refuses one that
/// disagrees with what is recorded.
pub fn accept_host_key(k: HostKey) -> (r: bool)
    ensures
        r == is_accepted(k),
{
    match k {
        HostKey::Recorded | HostKey::Unrecorded => true,
        HostKey::Certificate | HostKey::Mismatch | HostKey::Changed => false,
    }
}

// ---- paths ----------------------------------------------------------------

/// `s` without the slashes at its end.
pub open spec fn without_slashes(s: Seq<char>) -> Seq<char>
    decreases s.len(),
{
    if s.len() > 0 && s.last() == '/' {
        without_slashes(s.drop_last())
    } else {
        s
    }
}

/// The root of the dump, without the slashes at its end.
pub fn trim_root(root: &str) -> (r: String)
    ensures
        r@ == without_slashes(root@),
{
    let chars = text::chars_of(root);
    let mut n: usize = chars.len();
    assert(chars@.take(n as int) =~= chars@);
    while n > 0 && chars[n - 1] == '/'
        invariant
            n <= chars@.len(),
            without_slashes(chars@.take(n as int)) == without_slashes(chars@),
        decreases n,
    {
        assert(chars@.take(n as int).drop_last() =~= chars@.take(n - 1));
        n = n - 1;
    }
    let kept = slice_subrange(chars.as_slice(), 0, n);
    assert(kept@ =~= chars@.take(n as int));
    text::string_of(kept)
}

/// Where `rel` is, under a root.
pub open spec fn path_of(root: Seq<char>, rel: Seq<char>) -> Seq<char> {
    if rel.len() == 0 {
        if root.len() == 0 {
            "."@
        } else {
            root
        }
    } else if root.len() == 0 {
        rel
    } else {
        root + "/"@ + rel
    }
}

/// Where `rel` is, under a root.
pub fn path(root: &str, rel: &str) -> (r: String)
    ensures
        r@ == path_of(root@, rel@),
{
    if is_blank(rel) {
        if is_blank(root) {
            text::owned(".")
        } else {
            text::owned(root)
        }
    } else if is_blank(root) {
        text::owned(rel)
    } else {
        let mut p = text::owned(root);
        text::push_text(&mut p, "/");
        text::push_text(&mut p, rel);
        p
    }
}

fn is_blank(s: &str) -> (r: bool)
    ensures
        r == (s@.len() == 0),
{
    text::chars_of(s).len() == 0
}

/// What a backend calls itself.
pub fn describe(destination: &str, root: &str) -> (r: String)
    ensures
        r@ == "sftp:"@ + destination@ + ":"@ + root@,
{
    let mut s = text::owned("sftp:");
    text::push_text(&mut s, destination);
    text::push_text(&mut s, ":");
    text::push_text(&mut s, root);
    s
}

// ---- listing a directory by `find` ----------------------------------------

/// `s` as it stands between single quotes: a quote closes them, stands alone
/// behind a backslash, and opens them again.
pub open spec fn escaped(s: Seq<char>) -> Seq<char>
    decreases s.len(),
{
    if s.len() == 0 {
        Seq::empty()
    } else {
        escaped(s.drop_last()) + if s.last() == '\'' {
            seq!['\'', '\\', '\'', '\'']
        } else {
            seq![s.last()]
        }
    }
}

/// The command that lists a directory in one round trip.
pub open spec fn find_line(path: Seq<char>) -> Seq<char> {
    "find -L '"@ + escaped(path) + "' -mindepth 1 -maxdepth 1 -printf '%y\\t%s\\t%f\\n'"@
}

/// The command that lists a directory in one round trip instead of one per few
/// hundred entries: the dump's `blobs/` and `dats/` hold ~60k files each.
pub fn find_command(path: &str) -> (r: String)
    ensures
        r@ == find_line(path@),
{
    let chars = text::chars_of(path);
    let mut s = text::owned("find -L '");
    let ghost head = s@;
    let mut i: usize = 0;
    assert(s@ =~= head + escaped(chars@.take(0)));
    while i < chars.len()
        invariant
            i <= chars@.len(),
            s@ == head + escaped(chars@.take(i as int)),
        decreases chars@.len() - i,
    {
        proof {
            assert(chars@.take(i + 1).drop_last() =~= chars@.take(i as int));
            assert(chars@.take(i + 1).last() == chars@[i as int]);
        }
        let c = chars[i];
        let ghost before = s@;
        if c == '\'' {
            s.push('\'');
            s.push('\\');
            s.push('\'');
            s.push('\'');
            assert(s@ =~= before + seq!['\'', '\\', '\'', '\'']);
        } else {
            s.push(c);
            assert(s@ =~= before + seq![c]);
        }
        assert(s@ =~= head + escaped(chars@.take(i + 1)));
        i += 1;
    }
    assert(chars@.take(i as int) =~= chars@);
    text::push_text(&mut s, "' -mindepth 1 -maxdepth 1 -printf '%y\\t%s\\t%f\\n'");
    s
}

/// Why the answer of a command is not to be used, if it is not.
pub open spec fn find_fault(status: Option<u32>) -> Option<Seq<char>> {
    match status {
        Some(0) => None,
        Some(n) => Some("remote find exited with Some("@ + text::dec(n as nat) + ")"@),
        None => Some("remote find exited with None"@),
    }
}

/// Whether the answer of a command is to be used: only if it exited well.
pub fn check_find(status: Option<u32>) -> (r: core::result::Result<(), String>)
    ensures
        match find_fault(status) {
            None => r is Ok,
            Some(e) => r matches Err(x) && x@ == e,
        },
{
    match status {
        Some(n) => {
            if n == 0 {
                Ok(())
            } else {
                let mut s = text::owned("remote find exited with Some(");
                text::push_dec(&mut s, n as u64);
                text::push_text(&mut s, ")");
                Err(s)
            }
        },
        None => Err(text::owned("remote find exited with None")),
    }
}

/// The entry that a line of the answer tells of: type, size and name, with a
/// tab between.
pub open spec fn found_entry(line: Seq<char>) -> Option<DirView> {
    match text::split_once(line, '\t') {
        None => None,
        Some((ty, rest)) => match text::split_once(rest, '\t') {
            None => None,
            Some((size, name)) => Some(
                DirView {
                    name,
                    size: match text::unsigned(size, 10, u64::MAX as nat) {
                        Some(n) => n as u64,
                        None => 0,
                    },
                    is_dir: ty == "d"@,
                },
            ),
        },
    }
}

/// The entries that some lines tell of; the others do not count.
pub open spec fn found_entries(lines: Seq<Seq<char>>) -> Seq<DirView>
    decreases lines.len(),
{
    if lines.len() == 0 {
        Seq::empty()
    } else {
        let before = found_entries(lines.drop_last());
        match found_entry(lines.last()) {
            Some(e) => before.push(e),
            None => before,
        }
    }
}

fn read_found(line: &[char]) -> (r: Option<DirEntry>)
    ensures
        match r {
            Some(e) => found_entry(line@) == Some(e@),
            None => found_entry(line@) is None,
        },
{
    match text::split_once_at(line, '\t') {
        None => None,
        Some((ty, rest)) => match text::split_once_at(rest, '\t') {
            None => None,
            Some((size, name)) => {
                let d = text::chars_of("d");
                Some(
                    DirEntry {
                        name: text::string_of(name),
                        size: match text::parse_unsigned(size, 10, u64::MAX) {
                            Some(n) => n,
                            None => 0,
                        },
                        is_dir: text::same_chars(ty, d.as_slice()),
                    },
                )
            },
        },
    }
}

/// The entries that the answer of the command tells of.
pub fn parse_find(stdout: &[u8]) -> (r: Vec<DirEntry>)
    ensures
        super::dir_views(r@) == found_entries(text::lines(text::lossy(stdout@))),
{
    let shown = text::from_utf8_lossy(stdout);
    let chars = text::chars_of(shown.as_str());
    let lines = text::lines_of(chars.as_slice());
    let ghost all = text::views(lines@);
    let mut out: Vec<DirEntry> = Vec::new();
    let mut i: usize = 0;
    assert(super::dir_views(out@) =~= found_entries(all.take(0)));
    while i < lines.len()
        invariant
            i <= lines@.len(),
            all == text::views(lines@),
            super::dir_views(out@) == found_entries(all.take(i as int)),
        decreases lines@.len() - i,
    {
        proof {
            assert(all.take(i + 1).drop_last() =~= all.take(i as int));
            assert(all.take(i + 1).last() == lines@[i as int]@);
        }
        match read_found(lines[i].as_slice()) {
            Some(e) => {
                let ghost before = super::dir_views(out@);
                let ghost seen = e@;
                out.push(e);
                assert(super::dir_views(out@) =~= before.push(seen));
            },
            None => {},
        }
        i += 1;
    }
    assert(all.take(i as int) =~= all);
    out
}

// ---- listing a directory by packets ---------------------------------------

/// A directory's own entries do not count.
pub open spec fn is_listed(name: Seq<char>) -> bool {
    name != "."@ && name != ".."@
}

/// The entry that a packet tells of, unless it is the directory itself or the
/// one above it.
pub fn packet_entry(name: String, size: Option<u64>, is_dir: bool) -> (r: Option<DirEntry>)
    ensures
        match r {
            Some(e) => is_listed(name@) && e@ == (DirView {
                name: name@,
                size: match size {
                    Some(n) => n,
                    None => 0,
                },
                is_dir,
            }),
            None => !is_listed(name@),
        },
{
    if text::same_text(name.as_str(), ".") || text::same_text(name.as_str(), "..") {
        None
    } else {
        Some(
            DirEntry {
                name,
                size: match size {
                    Some(n) => n,
                    None => 0,
                },
                is_dir,
            },
        )
    }
}

} // verus!
