//! What the ways to a dump promise: how a place is named, how a remote directory
//! is listed, how a login goes on, and in which pieces a file is fetched.

use vstd::prelude::*;

use super::handles::HandlesView;
use super::login::{agent_offers, identity_files_of, offers, turn_after, Credential, Turn};
use super::sftp::{
    destination_of, escaped, find_fault, find_line, found_entries, found_entry, host_port, is_accepted,
    is_listed, path_of, rsplit_once, without_slashes, HostKey,
};
use super::transfer::{absorbed, plan, PieceView, Progress, Transfer};
use super::{source_of, DirView, SourceView};
use crate::recent;
use crate::text;
use crate::text::laws;

verus! {

// ---- places ---------------------------------------------------------------

/// What exists is local, whatever it looks like, and so is what has no colon.
pub proof fn law_local_places(s: Seq<char>)
    ensures
        source_of(s, true) == SourceView::Local(s),
        !s.contains(':') ==> source_of(s, false) == SourceView::Local(s),
{
    laws::law_split_is_at_the_first(s, ':', s, s);
    if !s.contains(':') {
        reveal_strlit("sftp://");
        match text::strip_start(s, "sftp://"@) {
            Some(rest) => {
                laws::law_ends_are_taken_off(s, "sftp://"@, rest);
                assert(s[4] == ':');
            },
            None => {},
        }
    }
}

/// An address with a scheme leads to its host, and there to the path from its
/// first slash on, or to the top where it has none.
pub proof fn law_places_with_a_scheme(host: Seq<char>, path: Seq<char>)
    requires
        !host.contains('/'),
    ensures
        source_of("sftp://"@ + host, false) == (SourceView::Sftp {
            destination: "ssh://"@ + host,
            path: "/"@,
        }),
        source_of("sftp://"@ + host + seq!['/'] + path, false) == (SourceView::Sftp {
            destination: "ssh://"@ + host,
            path: seq!['/'] + path,
        }),
{
    laws::law_ends_are_taken_off("sftp://"@ + host, "sftp://"@, host);
    text::lemma_find(host, '/');
    let rest = host + seq!['/'] + path;
    let s = "sftp://"@ + host + seq!['/'] + path;
    assert(s =~= "sftp://"@ + rest);
    laws::law_ends_are_taken_off(s, "sftp://"@, rest);
    let i = host.len() as int;
    assert forall|j: int| 0 <= j < i implies rest[j] != '/' by {
        assert(rest[j] == host[j]);
        assert(host.contains(host[j]));
    }
    text::lemma_find_is(rest, '/', i);
    assert(rest.take(i) =~= host);
    assert(rest.skip(i) =~= seq!['/'] + path);
}

/// A host, a colon and a path lead to that path on the host, or to where one
/// arrives there; but not where the host is empty or has a slash in it, which is a
/// local path with a colon.
pub proof fn law_places_behind_a_host(host: Seq<char>, path: Seq<char>)
    requires
        !host.contains(':'),
        text::strip_start(host + seq![':'] + path, "sftp://"@) is None,
    ensures
        source_of(host + seq![':'] + path, false) == if host.len() == 0 || host.contains('/') {
            SourceView::Local(host + seq![':'] + path)
        } else {
            SourceView::Sftp {
                destination: host,
                path: if path.len() == 0 {
                    "."@
                } else {
                    path
                },
            }
        },
{
    laws::law_split_is_at_the_first(host + seq![':'] + path, ':', host, path);
    text::lemma_find(host, '/');
}

/// A text is split at its last separator: what is put together from a front, a
/// separator and a part without one comes apart into these two.
pub proof fn law_split_is_at_the_last(s: Seq<char>, c: char, a: Seq<char>, b: Seq<char>)
    ensures
        rsplit_once(s, c) == Some((a, b)) <==> s == a + seq![c] + b && !b.contains(c),
        rsplit_once(s, c) is None <==> !s.contains(c),
    decreases s.len(),
{
    if s.len() == 0 {
        assert(a + seq![c] + b != s) by {
            assert((a + seq![c] + b).len() > 0);
        }
    } else {
        let front = s.drop_last();
        let x = s.last();
        if x == c {
            assert(s[s.len() - 1] == c);
            assert(s =~= front + seq![c] + Seq::empty());
            if s == a + seq![c] + b && !b.contains(c) {
                if b.len() > 0 {
                    assert(s.last() == b.last());
                    assert(b[b.len() - 1] == c);
                }
                assert(b =~= Seq::empty());
                assert(a =~= front);
            }
        } else {
            assert(s.contains(c) <==> front.contains(c)) by {
                if s.contains(c) {
                    let i = choose|i: int| 0 <= i < s.len() && s[i] == c;
                    assert(front[i] == c);
                }
                if front.contains(c) {
                    let i = choose|i: int| 0 <= i < front.len() && front[i] == c;
                    assert(s[i] == c);
                }
            }
            if b.len() > 0 {
                law_split_is_at_the_last(front, c, a, b.drop_last());
                let t = b.drop_last();
                if s == a + seq![c] + b && !b.contains(c) {
                    assert(front =~= a + seq![c] + t);
                    if t.contains(c) {
                        let i = choose|i: int| 0 <= i < t.len() && t[i] == c;
                        assert(b[i] == c);
                    }
                    assert(b.last() == x);
                    assert(b =~= t.push(x));
                }
                if rsplit_once(s, c) == Some((a, b)) {
                    let (p, q) = rsplit_once(front, c)->0;
                    assert(b == q.push(x));
                    assert(t =~= q);
                    assert(rsplit_once(front, c) == Some((a, t)));
                    assert(front == a + seq![c] + t);
                    assert(s =~= front.push(x));
                    assert(s =~= a + seq![c] + b);
                    if b.contains(c) {
                        let i = choose|i: int| 0 <= i < b.len() && b[i] == c;
                        if i < t.len() {
                            assert(t[i] == c);
                        }
                    }
                }
            } else {
                law_split_is_at_the_last(front, c, a, b);
                if s == a + seq![c] + b {
                    assert(s.last() == c);
                }
            }
        }
    }
}

/// A port is read behind the last colon where it is one; what is none belongs to
/// the host.
pub proof fn law_ports_stand_behind_the_last_colon(host: Seq<char>, port: Seq<char>)
    requires
        !port.contains(':'),
    ensures
        !host.contains(':') ==> host_port(host) == (host, None::<u16>),
        host_port(host + seq![':'] + port) == match text::unsigned(port, 10, 0xffff) {
            Some(n) => (host, Some(n as u16)),
            None => (host + seq![':'] + port, None),
        },
{
    law_split_is_at_the_last(host, ':', host, host);
    law_split_is_at_the_last(host + seq![':'] + port, ':', host, port);
}

/// A destination is a host and port, with a user before the first `@` where there
/// is one, and the same with the scheme before it.
pub proof fn law_destinations(user: Seq<char>, host: Seq<char>, s: Seq<char>)
    requires
        !user.contains('@'),
        text::strip_start(s, "ssh://"@) is None,
    ensures
        destination_of("ssh://"@ + s) == destination_of(s),
        s == user + seq!['@'] + host ==> destination_of(s) == (
            Some(user),
            host_port(host).0,
            host_port(host).1,
        ),
        !s.contains('@') ==> destination_of(s) == (
            None::<Seq<char>>,
            host_port(s).0,
            host_port(s).1,
        ),
{
    laws::law_ends_are_taken_off("ssh://"@ + s, "ssh://"@, s);
    laws::law_split_is_at_the_first(s, '@', user, host);
}

/// Slashes at the end do not count: what is left of a root has none, and only
/// slashes were behind it.
pub proof fn law_slashes_at_the_end_do_not_count(s: Seq<char>) -> (n: nat)
    ensures
        s == without_slashes(s) + Seq::new(n, |i: int| '/'),
        without_slashes(s).len() > 0 ==> without_slashes(s).last() != '/',
    decreases s.len(),
{
    if s.len() > 0 && s.last() == '/' {
        let n = law_slashes_at_the_end_do_not_count(s.drop_last());
        let some = Seq::new(n, |i: int| '/');
        assert(s =~= s.drop_last().push('/'));
        assert(s.drop_last() == without_slashes(s) + some);
        assert(Seq::new(n + 1, |i: int| '/') =~= some.push('/'));
        assert(s =~= without_slashes(s) + Seq::new(n + 1, |i: int| '/'));
        n + 1
    } else {
        assert(s =~= s + Seq::new(0nat, |i: int| '/'));
        0
    }
}

/// A path below a root is the two with a slash between them; where one of them is
/// empty, the other; and where both are, the directory one is in.
pub proof fn law_paths_below_a_root(root: Seq<char>, rel: Seq<char>)
    requires
        root.len() > 0,
        rel.len() > 0,
    ensures
        path_of(root, rel) == root + "/"@ + rel,
        path_of(root, Seq::empty()) == root,
        path_of(Seq::empty(), rel) == rel,
        path_of(Seq::empty(), Seq::empty()) == "."@,
{
}

// ---- listing --------------------------------------------------------------

/// What a shell makes of a word: inside quotes every character but the closing
/// quote stands for itself, and outside of them a backslash takes away what the
/// next one means.
pub open spec fn word(t: Seq<char>, quoted: bool) -> Seq<char>
    decreases t.len(),
{
    if t.len() == 0 {
        Seq::empty()
    } else if t[0] == '\'' {
        word(t.skip(1), !quoted)
    } else if t[0] == '\\' && !quoted && t.len() > 1 {
        seq![t[1]] + word(t.skip(2), quoted)
    } else {
        seq![t[0]] + word(t.skip(1), quoted)
    }
}

proof fn lemma_word_goes_on(s: Seq<char>, t: Seq<char>)
    ensures
        word(escaped(s) + t, true) == s + word(t, true),
    decreases s.len(),
{
    if s.len() == 0 {
        assert(escaped(s) + t =~= t);
        assert(s + word(t, true) =~= word(t, true));
    } else {
        let front = s.drop_last();
        let c = s.last();
        if c == '\'' {
            let q = seq!['\'', '\\', '\'', '\''];
            let all = q + t;
            assert(escaped(s) + t =~= escaped(front) + all);
            lemma_word_goes_on(front, all);
            let t1 = all.skip(1);
            let t3 = t1.skip(2);
            assert(t3.skip(1) =~= t);
            assert(t3[0] == '\'');
            assert(t1[0] == '\\' && t1[1] == '\'');
            assert(word(all, true) == word(t1, false));
            assert(word(t1, false) == seq!['\''] + word(t3, false));
            assert(word(t3, false) == word(t, true));
            assert(s + word(t, true) =~= front + (seq!['\''] + word(t, true)));
        } else {
            let all = seq![c] + t;
            assert(escaped(s) + t =~= escaped(front) + all);
            lemma_word_goes_on(front, all);
            assert(all.skip(1) =~= t);
            assert(word(all, true) == seq![c] + word(t, true));
            assert(s + word(t, true) =~= front + (seq![c] + word(t, true)));
        }
    }
}

/// The command that lists a directory names that very directory, whatever is in
/// its name: a shell reads the quoted word back as the path.
pub proof fn law_a_shell_reads_the_path_back(path: Seq<char>) -> (quoted: Seq<char>)
    ensures
        word(quoted, false) == path,
        find_line(path) == "find -L "@ + quoted
            + " -mindepth 1 -maxdepth 1 -printf '%y\\t%s\\t%f\\n'"@,
{
    let end = seq!['\''];
    let quoted = end + escaped(path) + end;
    lemma_word_goes_on(path, end);
    assert(quoted.skip(1) =~= escaped(path) + end);
    assert(quoted[0] == '\'');
    assert(end.skip(1) =~= Seq::<char>::empty());
    assert(word(end, true) == word(end.skip(1), false));
    assert(word(end.skip(1), false) =~= Seq::<char>::empty());
    assert(path + word(end, true) =~= path);
    reveal_strlit("find -L '");
    reveal_strlit("find -L ");
    reveal_strlit("' -mindepth 1 -maxdepth 1 -printf '%y\\t%s\\t%f\\n'");
    reveal_strlit(" -mindepth 1 -maxdepth 1 -printf '%y\\t%s\\t%f\\n'");
    assert("find -L '"@ =~= "find -L "@ + end);
    assert("' -mindepth 1 -maxdepth 1 -printf '%y\\t%s\\t%f\\n'"@ =~= end
        + " -mindepth 1 -maxdepth 1 -printf '%y\\t%s\\t%f\\n'"@);
    assert(find_line(path) =~= "find -L "@ + quoted
        + " -mindepth 1 -maxdepth 1 -printf '%y\\t%s\\t%f\\n'"@);
    quoted
}

/// A line with a kind, a size and a name is the entry that it tells of; a name may
/// hold anything, even a tab.
pub proof fn law_listed_lines_are_entries(kind: Seq<char>, size: u64, name: Seq<char>)
    requires
        !kind.contains('\t'),
    ensures
        found_entry(kind + seq!['\t'] + (text::dec(size as nat) + seq!['\t'] + name)) == Some(
            (DirView { name, size, is_dir: kind == "d"@ }),
        ),
{
    let n = text::dec(size as nat);
    text::lemma_digits_read_back(size as nat, 10);
    if n.contains('\t') {
        let i = choose|i: int| 0 <= i < n.len() && n[i] == '\t';
        assert(text::digit_value(n[i], 10) is Some);
    }
    let rest = n + seq!['\t'] + name;
    laws::law_split_is_at_the_first(kind + seq!['\t'] + rest, '\t', kind, rest);
    laws::law_split_is_at_the_first(rest, '\t', n, name);
    text::law_decimal_round_trip(size as nat, u64::MAX as nat);
}

/// A listing is what its lines tell of, in their order; a line without two tabs
/// tells of nothing.
pub proof fn law_listings_go_line_by_line(a: Seq<Seq<char>>, line: Seq<char>, b: Seq<Seq<char>>)
    ensures
        found_entries(Seq::empty()) == Seq::<DirView>::empty(),
        found_entries(seq![line]) == match found_entry(line) {
            Some(e) => seq![e],
            None => Seq::empty(),
        },
        found_entries(a + b) == found_entries(a) + found_entries(b),
        !line.contains('\t') ==> found_entry(line) is None,
    decreases b.len(),
{
    laws::law_split_is_at_the_first(line, '\t', line, line);
    let one = seq![line];
    assert(one.drop_last() =~= Seq::<Seq<char>>::empty());
    assert(one.last() == line);
    assert(found_entries(one.drop_last()) =~= Seq::<DirView>::empty());
    match found_entry(line) {
        Some(e) => {
            assert(found_entries(one) =~= seq![e]);
        },
        None => {},
    }
    if b.len() == 0 {
        assert(a + b =~= a);
        assert(found_entries(a + b) =~= found_entries(a) + found_entries(b));
    } else {
        law_listings_go_line_by_line(a, line, b.drop_last());
        assert((a + b).drop_last() =~= a + b.drop_last());
        assert((a + b).last() == b.last());
        assert(found_entries(a + b) =~= found_entries(a) + found_entries(b));
    }
}

/// The answer of a command counts only where it ended well; a directory's own
/// entries never do; and a host is trusted only where its key is the recorded one
/// or none was recorded.
pub proof fn law_what_is_trusted(status: Option<u32>, name: Seq<char>, k: HostKey)
    ensures
        find_fault(status) is None <==> status == Some(0u32),
        is_listed(name) <==> name != "."@ && name != ".."@,
        is_accepted(k) <==> k is Recorded || k is Unrecorded,
{
}

// ---- logging in -----------------------------------------------------------

/// A login is accepted at the first key that is, and none is offered behind it; as
/// long as all were refused, the next is offered; and it is refused once all were.
pub proof fn law_how_a_login_stands(keys: Seq<Credential>, answers: Seq<bool>)
    ensures
        turn_after(keys, answers) is Accepted <==> exists|i: int|
            0 <= i < keys.len() && i < answers.len() && #[trigger] answers[i],
        turn_after(keys, answers) matches Turn::Offer(c) ==> answers.len() < keys.len() && c
            == keys[answers.len() as int] && forall|i: int|
            0 <= i < answers.len() ==> !#[trigger] answers[i],
        turn_after(keys, answers) is Refused ==> keys.len() <= answers.len() && forall|i: int|
            0 <= i < keys.len() ==> !#[trigger] answers[i],
    decreases answers.len(),
{
    if keys.len() > 0 && answers.len() > 0 {
        if answers[0] {
            assert(answers[0]);
        } else {
            let (ks, rest) = (keys.skip(1), answers.skip(1));
            law_how_a_login_stands(ks, rest);
            assert forall|i: int| 0 <= i < rest.len() implies #[trigger] rest[i] == answers[i
                + 1] by {}
            if turn_after(ks, rest) is Accepted {
                let i = choose|i: int| 0 <= i < ks.len() && i < rest.len() && #[trigger] rest[i];
                assert(answers[i + 1]);
            }
            if exists|i: int| 0 <= i < keys.len() && i < answers.len() && #[trigger] answers[i] {
                let i = choose|i: int|
                    0 <= i < keys.len() && i < answers.len() && #[trigger] answers[i];
                assert(rest[i - 1]);
            }
            if turn_after(ks, rest) is Offer {
                assert forall|i: int| 0 <= i < answers.len() implies !#[trigger] answers[i] by {
                    if i > 0 {
                        assert(!rest[i - 1]);
                    }
                }
            }
            if turn_after(ks, rest) is Refused {
                assert forall|i: int| 0 <= i < keys.len() implies !#[trigger] answers[i] by {
                    if i > 0 {
                        assert(!rest[i - 1]);
                    }
                }
            }
        }
    }
}

proof fn lemma_agent_order(plain: Seq<bool>)
    requires
        plain.len() <= usize::MAX,
    ensures
        forall|i: int|
            0 <= i < agent_offers(plain).len() ==> ((#[trigger] agent_offers(plain)[i]) matches
                Credential::Agent(n) && n < plain.len()),
        forall|i: int, j: int|
            0 <= i < j < agent_offers(plain).len() ==> (#[trigger] agent_offers(
                plain,
            )[i])->Agent_0 < (#[trigger] agent_offers(plain)[j])->Agent_0,
    decreases plain.len(),
{
    if plain.len() > 0 {
        lemma_agent_order(plain.drop_last());
    }
}

/// The agent's keys are offered before those in files, and each kind in its order.
pub proof fn law_keys_are_offered_in_order(plain: Seq<bool>, files: nat, i: int, j: int)
    requires
        plain.len() <= usize::MAX,
        files <= usize::MAX,
        0 <= i < j < offers(plain, files).len(),
    ensures
        match (offers(plain, files)[i], offers(plain, files)[j]) {
            (Credential::Agent(a), Credential::Agent(b)) => a < b,
            (Credential::File(a), Credential::File(b)) => a < b,
            (Credential::Agent(_), Credential::File(_)) => true,
            (Credential::File(_), Credential::Agent(_)) => false,
        },
{
    lemma_agent_order(plain);
    let a = agent_offers(plain);
    let all = offers(plain, files);
    if j < a.len() {
        assert(all[i] == a[i] && all[j] == a[j]);
    } else if i < a.len() {
        assert(all[i] == a[i]);
    }
}

/// The files that are offered are those that are configured, if any is; else those
/// of the default names, where there is a home directory to look in.
pub proof fn law_which_identity_files(configured: Option<usize>, has_home: bool)
    ensures
        identity_files_of(configured, has_home) is Configured <==> (configured matches Some(n) && n
            > 0),
        identity_files_of(configured, has_home) is Defaults <==> has_home && !(
        configured matches Some(n) && n > 0),
{
}

// ---- fetching -------------------------------------------------------------

/// The pieces to ask for stand one behind the other from `base` on, none longer
/// than the largest and none empty; together they are all that remains, or there
/// are as many as may be on their way and all but the last is as large as can be.
pub proof fn law_pieces_stand_in_a_row(base: int, remaining: int, largest: int, most: nat)
    requires
        0 < largest,
        0 <= remaining,
    ensures
        ({
            let p = plan(base, remaining, largest, most);
            &&& p.len() <= most
            &&& p.len() > 0 ==> p[0].0 == base
            &&& forall|k: int|
                0 <= k < p.len() ==> 0 < (#[trigger] p[k]).1 <= largest && p[k].0 + p[k].1 <= base
                    + remaining
            &&& forall|k: int|
                0 <= k < p.len() - 1 ==> (#[trigger] p[k]).1 == largest && p[k + 1].0 == p[k].0
                    + p[k].1
            &&& p.len() < most ==> if p.len() == 0 {
                remaining == 0
            } else {
                p.last().0 + p.last().1 == base + remaining
            }
            &&& most > 0 && p.len() == most ==> p.last().1 == largest || p.last().0 + p.last().1
                == base + remaining
        }),
    decreases most,
{
    let p = plan(base, remaining, largest, most);
    if remaining > 0 && most > 0 {
        let n = if largest < remaining {
            largest
        } else {
            remaining
        };
        let q = plan(base + n, remaining - n, largest, (most - 1) as nat);
        law_pieces_stand_in_a_row(base + n, remaining - n, largest, (most - 1) as nat);
        assert(p == seq![(base, n)] + q);
        assert forall|k: int| 0 <= k < p.len() implies 0 < (#[trigger] p[k]).1 <= largest && p[k].0
            + p[k].1 <= base + remaining by {
            if k > 0 {
                assert(q[k - 1] == p[k]);
            }
        }
        assert forall|k: int| 0 <= k < p.len() - 1 implies (#[trigger] p[k]).1 == largest && p[k
            + 1].0 == p[k].0 + p[k].1 by {
            if k > 0 {
                assert(q[k - 1] == p[k]);
                assert(q[k - 1 + 1] == p[k + 1]);
            } else {
                assert(q[0] == p[1]);
                assert(q.len() > 0);
            }
        }
        if q.len() > 0 {
            assert(p.last() == q.last());
        }
    }
}

/// What came back is taken up to the first piece that is short, and no further;
/// where none is, all of it is; and a failure is told, with what came before it.
pub proof fn law_pieces_are_taken_in_order(
    out: Seq<u8>,
    want: (int, int),
    wants: Seq<(int, int)>,
    piece: PieceView,
    pieces: Seq<PieceView>,
)
    ensures
        absorbed(out, wants, Seq::empty()) == (out, Progress::More),
        ({
            let all = absorbed(out, seq![want] + wants, seq![piece] + pieces);
            match piece {
                PieceView::Eof => all == (out, Progress::Done),
                PieceView::Failed(e) => all == (out, Progress::Failed(e)),
                PieceView::Data(d) => if d.len() == 0 {
                    all == (out, Progress::Done)
                } else if d.len() < want.1 {
                    all == (out + d, Progress::More)
                } else {
                    all == absorbed(out + d, wants, pieces)
                },
            }
        }),
{
    assert((seq![want] + wants).skip(1) =~= wants);
    assert((seq![piece] + pieces).skip(1) =~= pieces);
}

proof fn lemma_full_pieces(
    file: Seq<u8>,
    base: int,
    remaining: int,
    largest: int,
    most: nat,
    out: Seq<u8>,
    pieces: Seq<PieceView>,
)
    requires
        0 < largest,
        0 <= base,
        0 <= remaining,
        base + remaining <= file.len(),
        remaining <= largest * most,
        ({
            let wants = plan(base, remaining, largest, most);
            pieces.len() == wants.len() && forall|k: int|
                0 <= k < pieces.len() ==> #[trigger] pieces[k] == PieceView::Data(
                    file.subrange(wants[k].0, wants[k].0 + wants[k].1),
                )
        }),
    ensures
        absorbed(out, plan(base, remaining, largest, most), pieces) == (
            out + file.subrange(base, base + remaining),
            Progress::More,
        ),
    decreases most,
{
    let wants = plan(base, remaining, largest, most);
    if remaining > 0 {
        assert(most > 0) by {
            if most == 0 {
                assert(largest * most == 0) by (nonlinear_arith)
                    requires
                        most == 0,
                ;
            }
        }
        let n = if largest < remaining {
            largest
        } else {
            remaining
        };
        let fewer = (most - 1) as nat;
        let rest = plan(base + n, remaining - n, largest, fewer);
        assert(wants == seq![(base, n)] + rest);
        assert(wants.skip(1) =~= rest);
        let d = file.subrange(base, base + n);
        assert(pieces[0] == PieceView::Data(file.subrange(wants[0].0, wants[0].0 + wants[0].1)));
        assert(pieces[0] == PieceView::Data(d));
        let tail = pieces.skip(1);
        assert forall|k: int| 0 <= k < tail.len() implies #[trigger] tail[k] == PieceView::Data(
            file.subrange(rest[k].0, rest[k].0 + rest[k].1),
        ) by {
            assert(tail[k] == pieces[k + 1]);
            assert(rest[k] == wants[k + 1]);
        }
        assert(remaining - n <= largest * fewer) by (nonlinear_arith)
            requires
                remaining <= largest * most,
                fewer == most - 1,
                n == largest || n == remaining,
                0 < largest,
                most >= 1,
                fewer >= 0,
        ;
        lemma_full_pieces(file, base + n, remaining - n, largest, fewer, out + d, tail);
        assert(out + d + file.subrange(base + n, base + remaining) =~= out + file.subrange(
            base,
            base + remaining,
        ));
    } else {
        assert(out + file.subrange(base, base + remaining) =~= out);
    }
}

/// Where every piece comes back whole, the range that was asked for is read.
pub proof fn law_whole_pieces_make_the_range(
    file: Seq<u8>,
    offset: int,
    len: int,
    largest: int,
    most: nat,
    pieces: Seq<PieceView>,
)
    requires
        0 < largest,
        0 <= offset,
        0 <= len <= largest * most,
        offset + len <= file.len(),
        ({
            let wants = plan(offset, len, largest, most);
            pieces.len() == wants.len() && forall|k: int|
                0 <= k < pieces.len() ==> #[trigger] pieces[k] == PieceView::Data(
                    file.subrange(wants[k].0, wants[k].0 + wants[k].1),
                )
        }),
    ensures
        absorbed(Seq::empty(), plan(offset, len, largest, most), pieces) == (
            file.subrange(offset, offset + len),
            Progress::More,
        ),
{
    lemma_full_pieces(file, offset, len, largest, most, Seq::empty(), pieces);
    assert(Seq::<u8>::empty() + file.subrange(offset, offset + len) =~= file.subrange(
        offset,
        offset + len,
    ));
}

/// A transfer goes on behind what has been read, up to the end of its range; it is over
/// once all of that is there, or the file has ended.
pub proof fn law_a_transfer_goes_on(t: &Transfer)
    requires
        t.limits().0 > 0,
        t.limits().1 > 0,
        t.got().len() <= t.range().1,
    ensures
        t.next().len() == 0 <==> t.ended() || t.got().len() == t.range().1,
        t.next().len() > 0 ==> t.next()[0].0 == t.range().0 + t.got().len(),
        forall|k: int|
            0 <= k < t.next().len() ==> 0 < (#[trigger] t.next()[k]).1 <= t.limits().0
                && t.next()[k].0 + t.next()[k].1 <= t.range().0 + t.range().1,
        t.next().len() <= t.limits().1,
{
    law_pieces_stand_in_a_row(
        t.range().0 + t.got().len(),
        t.range().1 - t.got().len(),
        t.limits().0 as int,
        t.limits().1 as nat,
    );
}

// ---- handles --------------------------------------------------------------

/// A file that was opened has its handle and was used last; no other loses its own
/// but the least recently used one, and that only where there is no room.
pub proof fn law_a_handle_is_kept(v: HandlesView, file: u128, handle: Seq<char>, other: u128)
    requires
        v.order.no_duplicates(),
        forall|k: u128| v.order.contains(k) <==> #[trigger] v.handles.contains_key(k),
        other != file,
    ensures
        ({
            let after = v.after_keep(file, handle);
            &&& after.handles.contains_key(file) && after.handles[file] == handle
            &&& after.order.last() == file
            &&& after.handles.contains_key(other) ==> v.handles.contains_key(other)
                && after.handles[other] == v.handles[other]
            &&& v.handles.contains_key(other) && !after.handles.contains_key(other)
                ==> !v.handles.contains_key(file) && v.order.len() >= v.cap && other == v.order[0]
        }),
{
    recent::lemma_without(v.order, file);
}

} // verus!
