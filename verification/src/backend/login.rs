//! How a session on an SFTP host is opened: which keys are offered, in which
//! order, and what is said where it fails.

use vstd::prelude::*;

use crate::text;

verus! {

// ---- identity files -------------------------------------------------------

/// Which identity files there are to offer when the agent has nothing.
#[derive(Debug, Clone, Copy, PartialEq, Eq, Structural)]
pub enum IdentityFiles {
    /// Those that the host's configuration names.
    Configured,
    /// Those of the default names that are in the home directory's `.ssh`.
    Defaults,
    /// None: nothing is configured and there is no home directory.
    Absent,
}

/// The identity files to offer; an empty list in the configuration is as good
/// as none.
pub open spec fn identity_files_of(configured: Option<usize>, has_home: bool) -> IdentityFiles {
    match configured {
        Some(n) if n > 0 => IdentityFiles::Configured,
        _ => if has_home {
            IdentityFiles::Defaults
        } else {
            IdentityFiles::Absent
        },
    }
}

/// The identity files to offer, of how many files the configuration names, if
/// it names any, and whether there is a home directory.
pub fn identity_files(configured: Option<usize>, has_home: bool) -> (r: IdentityFiles)
    ensures
        r == identity_files_of(configured, has_home),
{
    if let Some(n) = configured {
        if n > 0 {
            return IdentityFiles::Configured;
        }
    }
    if has_home {
        IdentityFiles::Defaults
    } else {
        IdentityFiles::Absent
    }
}

/// The names that an identity file has by default, the one to offer first
/// first.
pub fn default_identities() -> (r: Vec<String>)
    ensures
        crate::commands::line_views(r@) == seq!["id_ed25519"@, "id_ecdsa"@, "id_rsa"@],
{
    let mut names: Vec<String> = Vec::new();
    names.push(text::owned("id_ed25519"));
    names.push(text::owned("id_ecdsa"));
    names.push(text::owned("id_rsa"));
    assert(crate::commands::line_views(names@) =~= seq!["id_ed25519"@, "id_ecdsa"@, "id_rsa"@]);
    names
}

// ---- offering keys --------------------------------------------------------

/// A key that can be offered.
#[derive(Debug, Clone, Copy, PartialEq, Eq, Structural)]
pub enum Credential {
    /// A key that the agent holds.
    Agent(usize),
    /// The key in an identity file.
    File(usize),
}

/// How a login stands.
#[derive(Debug, Clone, Copy, PartialEq, Eq, Structural)]
pub enum Turn {
    /// This key is offered next.
    Offer(Credential),
    /// The server has accepted a key.
    Accepted,
    /// No key was accepted.
    Refused,
}

/// The agent's keys, without what is no plain key.
pub open spec fn agent_offers(plain: Seq<bool>) -> Seq<Credential>
    decreases plain.len(),
{
    if plain.len() == 0 {
        Seq::empty()
    } else {
        let before = agent_offers(plain.drop_last());
        if plain.last() {
            before.push(Credential::Agent((plain.len() - 1) as usize))
        } else {
            before
        }
    }
}

/// The keys to offer: the agent's, then the files', each in its order.
pub open spec fn offers(plain: Seq<bool>, files: nat) -> Seq<Credential> {
    agent_offers(plain) + Seq::new(files, |i: int| Credential::File(i as usize))
}

/// How a login stands after some answers: the first key that is accepted ends
/// it.
pub open spec fn turn_after(keys: Seq<Credential>, answers: Seq<bool>) -> Turn
    decreases answers.len(),
{
    if keys.len() == 0 {
        Turn::Refused
    } else if answers.len() == 0 {
        Turn::Offer(keys[0])
    } else if answers[0] {
        Turn::Accepted
    } else {
        turn_after(keys.skip(1), answers.skip(1))
    }
}

proof fn lemma_agent_offers(plain: Seq<bool>)
    requires
        plain.len() <= usize::MAX,
    ensures
        forall|c: Credential| #[trigger]
            agent_offers(plain).contains(c) <==> (c matches Credential::Agent(i) && i < plain.len()
                && plain[i as int]),
        agent_offers(plain).no_duplicates(),
    decreases plain.len(),
{
    if plain.len() > 0 {
        let t = plain.drop_last();
        lemma_agent_offers(t);
        let before = agent_offers(t);
        let all = agent_offers(plain);
        let last = Credential::Agent((plain.len() - 1) as usize);
        assert(!before.contains(last));
        assert forall|c: Credential| #[trigger] all.contains(c) <==> (c matches Credential::Agent(i)
            && i < plain.len() && plain[i as int]) by {
            if plain.last() {
                assert(all.contains(c) <==> before.contains(c) || c == last) by {
                    if before.contains(c) {
                        let k = choose|k: int| 0 <= k < before.len() && before[k] == c;
                        assert(all[k] == c);
                    }
                    assert(all[before.len() as int] == last);
                    if all.contains(c) && c != last {
                        let k = choose|k: int| 0 <= k < all.len() && all[k] == c;
                        assert(before[k] == c);
                    }
                }
            }
            if let Credential::Agent(i) = c {
                if i < t.len() {
                    assert(t[i as int] == plain[i as int]);
                }
            }
        }
        if plain.last() {
            assert forall|i: int, j: int| 0 <= i < j < all.len() implies all[i] != all[j] by {
                assert(before.contains(all[i]));
                if j < before.len() {
                    assert(before[i] != before[j]);
                }
            }
        }
    }
}

/// Every plain key of the agent and every file is offered, none of them twice.
pub proof fn law_every_key_is_offered_once(plain: Seq<bool>, files: nat)
    requires
        plain.len() <= usize::MAX,
        files <= usize::MAX,
    ensures
        offers(plain, files).no_duplicates(),
        forall|c: Credential| #[trigger]
            offers(plain, files).contains(c) <==> match c {
                Credential::Agent(i) => i < plain.len() && plain[i as int],
                Credential::File(i) => i < files,
            },
{
    lemma_agent_offers(plain);
    let a = agent_offers(plain);
    let f = Seq::new(files, |i: int| Credential::File(i as usize));
    let all = offers(plain, files);
    assert forall|i: int| 0 <= i < a.len() implies #[trigger] all[i] is Agent && a.contains(
        all[i],
    ) by {
        assert(all[i] == a[i]);
        assert(a.contains(a[i]));
    }
    assert forall|i: int, j: int| 0 <= i < j < all.len() implies all[i] != all[j] by {
        if j < a.len() {
            assert(a[i] != a[j]);
        } else if i >= a.len() {
            assert(all[i] == f[i - a.len()]);
            assert(all[j] == f[j - a.len()]);
        } else {
            assert(all[i] is Agent);
            assert(all[j] == f[j - a.len()]);
        }
    }
    assert forall|c: Credential| #[trigger] all.contains(c) <==> match c {
        Credential::Agent(i) => i < plain.len() && plain[i as int],
        Credential::File(i) => i < files,
    } by {
        match c {
            Credential::Agent(_) => {
                if a.contains(c) {
                    let k = choose|k: int| 0 <= k < a.len() && a[k] == c;
                    assert(all[k] == c);
                }
                if all.contains(c) {
                    let k = choose|k: int| 0 <= k < all.len() && all[k] == c;
                    if k >= a.len() {
                        assert(all[k] == f[k - a.len()]);
                    } else {
                        assert(a.contains(all[k]));
                    }
                }
            },
            Credential::File(i) => {
                if i < files {
                    assert(all[a.len() + i] == f[i as int]);
                }
                if all.contains(c) {
                    let k = choose|k: int| 0 <= k < all.len() && all[k] == c;
                    if k < a.len() {
                        assert(all[k] is Agent);
                    } else {
                        assert(all[k] == f[k - a.len()]);
                    }
                }
            },
        }
    }
}

/// A login is refused only when every key was offered and none accepted.
pub proof fn law_refused_only_when_all_were(keys: Seq<Credential>, answers: Seq<bool>)
    requires
        turn_after(keys, answers) is Refused,
    ensures
        keys.len() <= answers.len(),
        forall|i: int| 0 <= i < keys.len() ==> !#[trigger] answers[i],
    decreases answers.len(),
{
    if keys.len() > 0 && answers.len() > 0 && !answers[0] {
        law_refused_only_when_all_were(keys.skip(1), answers.skip(1));
        assert forall|i: int| 0 <= i < keys.len() implies !#[trigger] answers[i] by {
            if i > 0 {
                assert(answers.skip(1)[i - 1] == answers[i]);
            }
        }
    }
}

/// A login, as the contracts see it: the keys to offer, and the answers so far.
#[verifier::ext_equal]
pub struct LoginView {
    pub keys: Seq<Credential>,
    pub answers: Seq<bool>,
}

impl LoginView {
    pub open spec fn turn(self) -> Turn {
        turn_after(self.keys, self.answers)
    }
}

/// A login that is under way.
pub struct Login {
    keys: Vec<Credential>,
    at: usize,
    accepted: bool,
    answers: Ghost<Seq<bool>>,
}

impl View for Login {
    type V = LoginView;

    closed spec fn view(&self) -> LoginView {
        LoginView { keys: self.keys@, answers: self.answers@ }
    }
}

impl Login {
    /// The count of keys and what it stands for agree.
    pub closed spec fn wf(&self) -> bool {
        &&& self.at <= self.keys@.len()
        &&& self.accepted ==> self@.turn() is Accepted
        &&& !self.accepted ==> self.answers@.len() == self.at && forall|i: int|
            0 <= i < self.at ==> !#[trigger] self.answers@[i]
    }

    /// Offer the agent's keys that are `plain` ones, then those of so many
    /// files.
    pub fn new(plain: &Vec<bool>, files: usize) -> (r: Login)
        ensures
            r.wf(),
            r@ == (LoginView { keys: offers(plain@, files as nat), answers: Seq::empty() }),
    {
        let mut keys: Vec<Credential> = Vec::new();
        let mut i: usize = 0;
        assert(keys@ =~= agent_offers(plain@.take(0)));
        while i < plain.len()
            invariant
                i <= plain@.len(),
                keys@ == agent_offers(plain@.take(i as int)),
            decreases plain@.len() - i,
        {
            assert(plain@.take(i + 1).drop_last() =~= plain@.take(i as int));
            if plain[i] {
                keys.push(Credential::Agent(i));
            }
            i += 1;
        }
        assert(plain@.take(i as int) =~= plain@);
        let ghost a = agent_offers(plain@);
        let mut j: usize = 0;
        assert(keys@ =~= a + Seq::new(0, |i: int| Credential::File(i as usize)));
        while j < files
            invariant
                j <= files,
                keys@ == a + Seq::new(j as nat, |i: int| Credential::File(i as usize)),
            decreases files - j,
        {
            keys.push(Credential::File(j));
            j += 1;
            assert(keys@ =~= a + Seq::new(j as nat, |i: int| Credential::File(i as usize)));
        }
        Login { keys, at: 0, accepted: false, answers: Ghost(Seq::empty()) }
    }

    /// How the login stands.
    pub fn turn(&self) -> (r: Turn)
        requires
            self.wf(),
        ensures
            r == self@.turn(),
    {
        if self.accepted {
            return Turn::Accepted;
        }
        proof {
            lemma_turn(self.keys@, self.answers@);
        }
        if self.at < self.keys.len() {
            Turn::Offer(self.keys[self.at])
        } else {
            Turn::Refused
        }
    }

    /// Take in whether the key that was offered was accepted; one that cannot
    /// be read, or fails on its way, is not.
    pub fn answer(&mut self, accepted: bool)
        requires
            old(self).wf(),
            old(self)@.turn() is Offer,
        ensures
            final(self).wf(),
            final(self)@ == (LoginView {
                answers: old(self)@.answers.push(accepted),
                ..old(self)@
            }),
    {
        proof {
            lemma_turn(self.keys@, self.answers@);
            lemma_answer(self.keys@, self.answers@, accepted);
            assert(self.at < self.keys.len());
        }
        if accepted {
            self.accepted = true;
        } else {
            self.at = self.at + 1;
        }
        proof {
            self.answers@ = self.answers@.push(accepted);
        }
    }
}

proof fn lemma_turn(keys: Seq<Credential>, answers: Seq<bool>)
    requires
        answers.len() <= keys.len(),
        forall|i: int| 0 <= i < answers.len() ==> !#[trigger] answers[i],
    ensures
        turn_after(keys, answers) == if answers.len() < keys.len() {
            Turn::Offer(keys[answers.len() as int])
        } else {
            Turn::Refused
        },
    decreases answers.len(),
{
    if answers.len() > 0 {
        assert(!answers[0]);
        assert forall|i: int| 0 <= i < answers.skip(1).len() implies !#[trigger] answers.skip(
            1,
        )[i] by {
            assert(!answers[i + 1]);
        }
        lemma_turn(keys.skip(1), answers.skip(1));
    }
}

proof fn lemma_answer(keys: Seq<Credential>, answers: Seq<bool>, accepted: bool)
    requires
        answers.len() < keys.len(),
        forall|i: int| 0 <= i < answers.len() ==> !#[trigger] answers[i],
    ensures
        accepted ==> turn_after(keys, answers.push(accepted)) is Accepted,
    decreases answers.len(),
{
    if answers.len() > 0 {
        assert(!answers[0]);
        assert forall|i: int| 0 <= i < answers.skip(1).len() implies !#[trigger] answers.skip(
            1,
        )[i] by {
            assert(!answers[i + 1]);
        }
        lemma_answer(keys.skip(1), answers.skip(1), accepted);
        assert(answers.push(accepted).skip(1) =~= answers.skip(1).push(accepted));
    }
}

/// What is said when no key was accepted; `files` shows the files that were
/// tried.
pub fn refusal(files: &str) -> (r: String)
    ensures
        r@ == "no ssh key was accepted (tried the agent and "@ + files@
            + "); steam2fs does not prompt for passwords"@,
{
    let mut s = text::owned("no ssh key was accepted (tried the agent and ");
    text::push_text(&mut s, files);
    text::push_text(&mut s, "); steam2fs does not prompt for passwords");
    s
}

// ---- what fails -----------------------------------------------------------

/// What was going on when opening a session failed.
#[derive(Debug, Clone, Copy, PartialEq, Eq, Structural)]
pub enum Stage {
    Connect,
    Handshake,
    Authenticate,
    Channel,
    Subsystem,
    Start,
}

/// What was going on when opening a session failed, in words.
pub open spec fn stage_text(
    stage: Stage,
    user: Seq<char>,
    host: Seq<char>,
    port: u16,
) -> Seq<char> {
    match stage {
        Stage::Connect => "connecting to "@ + host + ":"@ + text::dec(port as nat),
        Stage::Handshake => "ssh handshake with "@ + host,
        Stage::Authenticate => "authenticating to "@ + user + "@"@ + host,
        Stage::Channel => "opening a session channel"@,
        Stage::Subsystem => "requesting the sftp subsystem"@,
        Stage::Start => "sftp handshake"@,
    }
}

/// What was going on when opening a session failed, in words.
pub fn describe_stage(stage: Stage, user: &str, host: &str, port: u16) -> (r: String)
    ensures
        r@ == stage_text(stage, user@, host@, port),
{
    match stage {
        Stage::Connect => {
            let mut s = text::owned("connecting to ");
            text::push_text(&mut s, host);
            text::push_text(&mut s, ":");
            text::push_dec(&mut s, port as u64);
            s
        },
        Stage::Handshake => {
            let mut s = text::owned("ssh handshake with ");
            text::push_text(&mut s, host);
            s
        },
        Stage::Authenticate => {
            let mut s = text::owned("authenticating to ");
            text::push_text(&mut s, user);
            text::push_text(&mut s, "@");
            text::push_text(&mut s, host);
            s
        },
        Stage::Channel => text::owned("opening a session channel"),
        Stage::Subsystem => text::owned("requesting the sftp subsystem"),
        Stage::Start => text::owned("sftp handshake"),
    }
}

} // verus!
