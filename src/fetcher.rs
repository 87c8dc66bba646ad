//! The decisions of a mailbox sync: which uids to fetch, how a message body is
//! retrieved, where it is written, and how the outcome of each uid is counted.

use vstd::prelude::*;
use vstd::string::*;
use std::collections::HashSet;
use crate::database::{
    bytes_sum, contains_key, fetched_uids, keys_unique, lemma_upserted, message_view, upserted, Database,
    DatabaseError, MessageView, RunStatus,
};
use crate::text::{decimal, has_char, prefix_before, push_decimal, replace_char, replace_each, text_before};

verus! {

broadcast use vstd::std_specs::hash::group_hash_axioms;

/// The uids of the server listing that are not in `known`, in server order.
pub open spec fn missing_uids(server: Seq<u32>, known: Set<u32>) -> Seq<u32> {
    server.filter(|u: u32| !known.contains(u))
}

/// The uids of `server_uids` that the ledger does not hold yet, in the order the
/// server listed them.
pub fn uids_to_fetch(server_uids: &Vec<u32>, fetched_uids: &Vec<u32>) -> (r: Vec<u32>)
    ensures
        r@ == missing_uids(server_uids@, fetched_uids@.to_set()),
{
    let mut known: HashSet<u32> = HashSet::new();
    let mut k: usize = 0;
    while k < fetched_uids.len()
        invariant
            k <= fetched_uids@.len(),
            known@ == fetched_uids@.subrange(0, k as int).to_set(),
        decreases fetched_uids@.len() - k,
    {
        known.insert(fetched_uids[k]);
        proof {
            assert(fetched_uids@.subrange(0, k + 1) =~= fetched_uids@.subrange(0, k as int).push(fetched_uids@[k as int]));
            fetched_uids@.subrange(0, k as int).lemma_push_to_set_commute(fetched_uids@[k as int]);
        }
        k = k + 1;
    }
    assert(fetched_uids@.subrange(0, k as int) =~= fetched_uids@);
    let ghost pred = |u: u32| !fetched_uids@.to_set().contains(u);
    let mut out: Vec<u32> = Vec::new();
    let mut i: usize = 0;
    proof {
        reveal(Seq::filter);
        assert(server_uids@.subrange(0, 0).filter(pred) =~= Seq::<u32>::empty());
    }
    while i < server_uids.len()
        invariant
            i <= server_uids@.len(),
            known@ == fetched_uids@.to_set(),
            pred == (|u: u32| !fetched_uids@.to_set().contains(u)),
            out@ == server_uids@.subrange(0, i as int).filter(pred),
        decreases server_uids@.len() - i,
    {
        let u = server_uids[i];
        proof {
            reveal(Seq::filter);
            let s = server_uids@.subrange(0, i + 1);
            assert(s.drop_last() =~= server_uids@.subrange(0, i as int));
            assert(s.last() == u);
        }
        if !known.contains(&u) {
            out.push(u);
        }
        i = i + 1;
    }
    assert(server_uids@.subrange(0, i as int) =~= server_uids@);
    out
}

/// A uid of the server listing is fetched exactly when the ledger does not hold it.
pub proof fn lemma_fetch_iff_unrecorded(server: Seq<u32>, known: Set<u32>, uid: u32)
    ensures
        missing_uids(server, known).contains(uid) <==> server.contains(uid) && !known.contains(uid),
{
    let pred = |u: u32| !known.contains(u);
    let out = server.filter(pred);
    broadcast use vstd::seq_lib::group_filter_ensures;
    if out.contains(uid) {
        server.lemma_filter_contains_rev(pred, uid);
        let k = choose|k: int| 0 <= k < out.len() && out[k] == uid;
        assert(pred(out[k]));
    }
    if server.contains(uid) && !known.contains(uid) {
        let k = choose|k: int| 0 <= k < server.len() && server[k] == uid;
        assert(pred(server[k]));
    }
}

/// `recs` after writing each record of `saved`, in order.
pub open spec fn upserted_all(recs: Seq<MessageView>, saved: Seq<MessageView>) -> Seq<MessageView>
    decreases saved.len(),
{
    if saved.len() == 0 {
        recs
    } else {
        upserted(upserted_all(recs, saved.drop_last()), saved.last())
    }
}

proof fn lemma_upserted_all(recs: Seq<MessageView>, saved: Seq<MessageView>)
    requires
        keys_unique(recs),
    ensures
        keys_unique(upserted_all(recs, saved)),
        forall|email: Seq<char>, mailbox: Seq<char>, uid: u32|
            contains_key(recs, email, mailbox, uid) ==> #[trigger] contains_key(
                upserted_all(recs, saved),
                email,
                mailbox,
                uid,
            ),
        forall|i: int|
            0 <= i < saved.len() ==> contains_key(
                upserted_all(recs, saved),
                (#[trigger] saved[i]).account_email,
                saved[i].mailbox,
                saved[i].uid,
            ),
    decreases saved.len(),
{
    if saved.len() > 0 {
        let prev = upserted_all(recs, saved.drop_last());
        lemma_upserted_all(recs, saved.drop_last());
        lemma_upserted(prev, saved.last());
        assert forall|i: int| 0 <= i < saved.len() implies contains_key(
            upserted_all(recs, saved),
            (#[trigger] saved[i]).account_email,
            saved[i].mailbox,
            saved[i].uid,
        ) by {
            if i < saved.len() - 1 {
                assert(saved.drop_last()[i] == saved[i]);
                assert(contains_key(prev, saved[i].account_email, saved[i].mailbox, saved[i].uid));
            }
        }
    }
}

/// After a sync that recorded every uid it set out to fetch, a second sync of
/// the same server listing has nothing to fetch, so it saves no message.
pub proof fn lemma_second_sync_fetches_nothing(
    server: Seq<u32>,
    recs: Seq<MessageView>,
    email: Seq<char>,
    mailbox: Seq<char>,
    saved: Seq<MessageView>,
)
    requires
        keys_unique(recs),
        saved.len() == missing_uids(server, fetched_uids(recs, email, mailbox)).len(),
        forall|i: int|
            0 <= i < saved.len() ==> (#[trigger] saved[i]).account_email == email && saved[i].mailbox == mailbox
                && saved[i].uid == missing_uids(server, fetched_uids(recs, email, mailbox))[i],
    ensures
        missing_uids(server, fetched_uids(upserted_all(recs, saved), email, mailbox)).len() == 0,
{
    let before = fetched_uids(recs, email, mailbox);
    let after_recs = upserted_all(recs, saved);
    let after = fetched_uids(after_recs, email, mailbox);
    let first = missing_uids(server, before);
    lemma_upserted_all(recs, saved);
    let second = missing_uids(server, after);
    if second.len() > 0 {
        let u = second[0];
        assert(second.contains(u));
        lemma_fetch_iff_unrecorded(server, after, u);
        lemma_fetch_iff_unrecorded(server, before, u);
        if before.contains(u) {
            assert(contains_key(recs, email, mailbox, u));
            assert(contains_key(after_recs, email, mailbox, u));
        } else {
            let k = choose|k: int| 0 <= k < first.len() && first[k] == u;
            assert(saved[k].uid == u);
            assert(contains_key(after_recs, saved[k].account_email, saved[k].mailbox, saved[k].uid));
        }
    }
}

// ---------------------------------------------------------------------------
// Retrieving a message body
// ---------------------------------------------------------------------------

/// What one fetch call for a uid came back with.
pub enum FetchReply {
    /// The message, with its body.
    Body(Vec<u8>),
    /// The message, without a body.
    NoBody,
    /// No message at all.
    NoMessage,
    /// The call itself failed.
    Failed(String),
}

/// What to do after the non-destructive peek fetch.
pub enum BodyStep {
    /// Save this body.
    Use(Vec<u8>),
    /// Fall back to a full fetch of the message.
    FetchFull,
}

/// Why no body could be had for a uid, after both fetches.
pub enum FetchError {
    /// The full fetch returned the message without a body.
    NoBody { uid: u32 },
    /// The full fetch returned no message.
    NoMessage { uid: u32 },
    /// The full fetch call failed.
    CallFailed { uid: u32, reason: String },
}

/// The step after the peek fetch came back with `reply`.
pub open spec fn peek_step(reply: FetchReply) -> BodyStep {
    match reply {
        FetchReply::Body(b) => BodyStep::Use(b),
        _ => BodyStep::FetchFull,
    }
}

/// The body, or the error, after the full fetch of `uid` came back with `reply`.
pub open spec fn full_fetch_result(uid: u32, reply: FetchReply) -> Result<Vec<u8>, FetchError> {
    match reply {
        FetchReply::Body(b) => Ok(b),
        FetchReply::NoBody => Err(FetchError::NoBody { uid }),
        FetchReply::NoMessage => Err(FetchError::NoMessage { uid }),
        FetchReply::Failed(reason) => Err(FetchError::CallFailed { uid, reason }),
    }
}

/// Decides what follows the peek fetch: its body is used when it has one; an
/// error, a missing message or a missing body all lead to the full fetch.
pub fn after_peek(reply: FetchReply) -> (r: BodyStep)
    ensures
        r == peek_step(reply),
{
    match reply {
        FetchReply::Body(b) => BodyStep::Use(b),
        _ => BodyStep::FetchFull,
    }
}

/// Decides the outcome of the full fetch of `uid`: its body, or an error that
/// tells a missing body, a missing message and a failed call apart.
pub fn after_full_fetch(uid: u32, reply: FetchReply) -> (r: Result<Vec<u8>, FetchError>)
    ensures
        r == full_fetch_result(uid, reply),
{
    match reply {
        FetchReply::Body(b) => Ok(b),
        FetchReply::NoBody => Err(FetchError::NoBody { uid }),
        FetchReply::NoMessage => Err(FetchError::NoMessage { uid }),
        FetchReply::Failed(reason) => Err(FetchError::CallFailed { uid, reason }),
    }
}

/// When the peek fetch yields no body, whether by error or by an empty reply,
/// and the full fetch yields one, the full fetch's body is the one saved.
pub proof fn lemma_full_fetch_fallback(uid: u32, peek: FetchReply, full: FetchReply)
    requires
        !(peek is Body),
        full is Body,
    ensures
        peek_step(peek) == BodyStep::FetchFull,
        full_fetch_result(uid, full) == Ok::<Vec<u8>, FetchError>(full->Body_0),
{
}

// ---------------------------------------------------------------------------
// Where a message is written
// ---------------------------------------------------------------------------

/// The directory of the archive that holds `mailbox` of `email`:
/// `{root}/{email with '@' replaced by '_'}/{mailbox}`.
pub open spec fn mailbox_dir_of(root: Seq<char>, email: Seq<char>, mailbox: Seq<char>) -> Seq<char> {
    root + seq!['/'] + replace_char(email, '@', '_') + seq!['/'] + mailbox
}

/// The file that holds message `uid`: `{mailbox dir}/{uid}.eml`.
pub open spec fn message_path_of(root: Seq<char>, email: Seq<char>, mailbox: Seq<char>, uid: u32) -> Seq<char> {
    mailbox_dir_of(root, email, mailbox) + seq!['/'] + decimal(uid as nat) + seq!['.', 'e', 'm', 'l']
}

/// The directory of the archive that holds `mailbox` of `email`.
pub fn mailbox_dir(root: &str, email: &str, mailbox: &str) -> (r: String)
    ensures
        r@ == mailbox_dir_of(root@, email@, mailbox@),
{
    proof {
        reveal_strlit("/");
        reveal_strlit("_");
        assert("/"@ =~= seq!['/']);
        assert("_"@ =~= seq!['_']);
    }
    let mut out = String::from_str(root);
    out.append("/");
    let account = replace_each(email, '@', '_', "_");
    out.append(account.as_str());
    out.append("/");
    out.append(mailbox);
    out
}

/// The file that holds message `uid` of `mailbox` of `email`.
pub fn message_path(root: &str, email: &str, mailbox: &str, uid: u32) -> (r: String)
    ensures
        r@ == message_path_of(root@, email@, mailbox@, uid),
{
    proof {
        reveal_strlit("/");
        reveal_strlit(".eml");
        assert("/"@ =~= seq!['/']);
        assert(".eml"@ =~= seq!['.', 'e', 'm', 'l']);
    }
    let mut out = mailbox_dir(root, email, mailbox);
    out.append("/");
    push_decimal(&mut out, uid);
    out.append(".eml");
    out
}

// ---------------------------------------------------------------------------
// The per-uid loop of a mailbox sync
// ---------------------------------------------------------------------------

/// How many messages a mailbox sync saved, and how many it could not save.
#[derive(Clone, Copy, Debug, PartialEq, Eq, Structural)]
pub struct SyncSummary {
    pub saved: usize,
    pub failed: usize,
}

/// The progress of a sync of one mailbox: the uids to fetch, in server order,
/// how many of them have been handled, and the counts so far.
pub struct MailboxSync {
    pending: Vec<u32>,
    position: usize,
    saved: usize,
    failed: usize,
}

/// The mathematical value of a [`MailboxSync`].
pub struct MailboxSyncView {
    pub pending: Seq<u32>,
    pub position: nat,
    pub saved: nat,
    pub failed: nat,
}

impl View for MailboxSync {
    type V = MailboxSyncView;

    closed spec fn view(&self) -> MailboxSyncView {
        MailboxSyncView {
            pending: self.pending@,
            position: self.position as nat,
            saved: self.saved as nat,
            failed: self.failed as nat,
        }
    }
}

impl MailboxSync {
    /// Every handled uid was counted once, as saved or as failed.
    pub closed spec fn wf(&self) -> bool {
        &&& self.position <= self.pending@.len()
        &&& self.saved + self.failed == self.position
    }

    /// What the invariant gives callers.
    pub proof fn lemma_wf(&self)
        requires
            self.wf(),
        ensures
            self@.position <= self@.pending.len(),
            self@.saved + self@.failed == self@.position,
    {
    }

    /// A sync of the uids of `server_uids` that are not among `fetched_uids`.
    pub fn plan(server_uids: &Vec<u32>, fetched_uids: &Vec<u32>) -> (r: MailboxSync)
        ensures
            r.wf(),
            r@.pending == missing_uids(server_uids@, fetched_uids@.to_set()),
            r@.position == 0,
            r@.saved == 0,
            r@.failed == 0,
    {
        MailboxSync { pending: uids_to_fetch(server_uids, fetched_uids), position: 0, saved: 0, failed: 0 }
    }

    /// The uids to fetch, in order.
    pub fn pending(&self) -> (r: &Vec<u32>)
        ensures
            r@ == self@.pending,
    {
        &self.pending
    }

    /// The next uid to fetch, or `None` once every uid has been handled.
    pub fn next_uid(&self) -> (r: Option<u32>)
        requires
            self.wf(),
        ensures
            self@.position < self@.pending.len() ==> r == Some(self@.pending[self@.position as int]),
            self@.position >= self@.pending.len() ==> r.is_none(),
    {
        if self.position < self.pending.len() {
            Some(self.pending[self.position])
        } else {
            None
        }
    }

    /// Counts the current uid as failed (its body could not be had, or not be
    /// written) and moves on to the next.
    pub fn record_failure(&mut self)
        requires
            old(self).wf(),
            old(self)@.position < old(self)@.pending.len(),
        ensures
            final(self).wf(),
            final(self)@ == (MailboxSyncView {
                position: old(self)@.position + 1,
                failed: old(self)@.failed + 1,
                ..old(self)@
            }),
    {
        let len = self.pending.len();
        assert(self.position < len);
        self.position = self.position + 1;
        self.failed = self.failed + 1;
    }

    /// Records in the ledger that the current uid was written to `file_path` at
    /// `now`, and moves on to the next. The uid counts as saved when the ledger
    /// took the record, and as failed when it refused it.
    pub fn record_saved(
        &mut self,
        db: &mut Database,
        email: &str,
        mailbox: &str,
        file_path: &str,
        size_bytes: u64,
        now: i64,
    ) -> (r: Result<(), DatabaseError>)
        requires
            old(self).wf(),
            old(self)@.position < old(self)@.pending.len(),
            old(db).wf(),
        ensures
            final(self).wf(),
            final(db).wf(),
            final(db)@.runs == old(db)@.runs,
            ({
                let rec = message_view(
                    email@,
                    mailbox@,
                    old(self)@.pending[old(self)@.position as int],
                    file_path@,
                    size_bytes,
                    now,
                );
                &&& r.is_ok() <==> bytes_sum(upserted(old(db)@.records, rec)) <= u64::MAX
                &&& r.is_ok() ==> final(db)@.records == upserted(old(db)@.records, rec)
                &&& r.is_err() ==> final(db)@ == old(db)@
            }),
            r.is_ok() ==> final(self)@ == (MailboxSyncView {
                position: old(self)@.position + 1,
                saved: old(self)@.saved + 1,
                ..old(self)@
            }),
            r.is_err() ==> final(self)@ == (MailboxSyncView {
                position: old(self)@.position + 1,
                failed: old(self)@.failed + 1,
                ..old(self)@
            }),
    {
        let len = self.pending.len();
        assert(self.position < len);
        let uid = self.pending[self.position];
        let r = db.mark_email_fetched(email, mailbox, uid, file_path, size_bytes, now);
        self.position = self.position + 1;
        match r {
            Ok(()) => {
                self.saved = self.saved + 1;
            },
            Err(_) => {
                self.failed = self.failed + 1;
            },
        }
        r
    }

    /// The counts of the sync: every uid handled so far was counted once.
    pub fn summary(&self) -> (r: SyncSummary)
        requires
            self.wf(),
        ensures
            r.saved == self@.saved,
            r.failed == self@.failed,
            r.saved + r.failed == self@.position,
            self@.position <= self@.pending.len(),
    {
        SyncSummary { saved: self.saved, failed: self.failed }
    }
}

// ---------------------------------------------------------------------------
// Logging in
// ---------------------------------------------------------------------------

/// Whether `host` is the provider whose accounts may also log in by the local
/// part of their address.
pub open spec fn strips_domain(host: Seq<char>) -> bool {
    host == "imap.gmail.com"@
}

/// The username to retry a failed login with, if the provider allows one.
pub open spec fn retry_username_of(host: Seq<char>, username: Seq<char>) -> Option<Seq<char>> {
    if strips_domain(host) && username.contains('@') {
        Some(prefix_before(username, '@'))
    } else {
        None
    }
}

/// The usernames to log in with, in order, each on a fresh connection.
pub open spec fn login_usernames(host: Seq<char>, username: Seq<char>) -> Seq<Seq<char>> {
    match retry_username_of(host, username) {
        Some(local) => seq![username, local],
        None => seq![username],
    }
}

/// The username to retry a failed login to `host` with: the part of `username`
/// before its '@', where the provider accepts that form.
pub fn retry_username(host: &str, username: &str) -> (r: Option<String>)
    ensures
        match r {
            Some(s) => retry_username_of(host@, username@) == Some(s@),
            None => retry_username_of(host@, username@).is_none(),
        },
{
    let h = String::from_str(host);
    let known = String::from_str("imap.gmail.com");
    if h == known && has_char(username, '@') {
        Some(text_before(username, '@'))
    } else {
        None
    }
}

/// A login that was rejected.
pub struct LoginFailure {
    pub username: String,
    pub reason: String,
}

/// Every login attempt was rejected: each username tried, with its failure.
pub struct AuthError {
    pub failures: Vec<LoginFailure>,
}

/// The username and the failure of a rejected login, as values.
pub open spec fn failure_view(f: LoginFailure) -> (Seq<char>, Seq<char>) {
    (f.username@, f.reason@)
}

/// The login attempts for an account: the usernames to try, in order, and the
/// failures of those tried so far.
pub struct LoginAttempts {
    usernames: Vec<String>,
    failures: Vec<LoginFailure>,
}

/// The mathematical value of a [`LoginAttempts`].
pub struct LoginAttemptsView {
    pub usernames: Seq<Seq<char>>,
    pub failures: Seq<(Seq<char>, Seq<char>)>,
}

impl View for LoginAttempts {
    type V = LoginAttemptsView;

    closed spec fn view(&self) -> LoginAttemptsView {
        LoginAttemptsView {
            usernames: self.usernames@.map_values(|s: String| s@),
            failures: self.failures@.map_values(|f: LoginFailure| failure_view(f)),
        }
    }
}

impl LoginAttempts {
    /// Each failure is that of the username tried at its turn.
    pub closed spec fn wf(&self) -> bool {
        &&& self.failures@.len() <= self.usernames@.len()
        &&& forall|i: int| 0 <= i < self.failures@.len() ==> (#[trigger] self@.failures[i]).0 == self@.usernames[i]
    }

    /// The attempts for `username` at `host`: the username itself, then the
    /// provider's retry form, if any.
    pub fn plan(host: &str, username: &str) -> (r: LoginAttempts)
        ensures
            r.wf(),
            r@.usernames == login_usernames(host@, username@),
            r@.failures == Seq::<(Seq<char>, Seq<char>)>::empty(),
    {
        let mut usernames: Vec<String> = Vec::new();
        usernames.push(String::from_str(username));
        match retry_username(host, username) {
            Some(local) => {
                usernames.push(local);
            },
            None => {},
        }
        let r = LoginAttempts { usernames, failures: Vec::new() };
        assert(r@.usernames =~= login_usernames(host@, username@));
        assert(r@.failures =~= Seq::<(Seq<char>, Seq<char>)>::empty());
        r
    }

    /// The username of the next attempt, or `None` once every one has failed.
    pub fn next_username(&self) -> (r: Option<String>)
        requires
            self.wf(),
        ensures
            self@.failures.len() < self@.usernames.len() ==> r is Some && r->Some_0@
                == self@.usernames[self@.failures.len() as int],
            self@.failures.len() >= self@.usernames.len() ==> r.is_none(),
    {
        if self.failures.len() < self.usernames.len() {
            Some(self.usernames[self.failures.len()].clone())
        } else {
            None
        }
    }

    /// Records that the current attempt was rejected with `reason`.
    pub fn record_failure(&mut self, reason: String)
        requires
            old(self).wf(),
            old(self)@.failures.len() < old(self)@.usernames.len(),
        ensures
            final(self).wf(),
            final(self)@.usernames == old(self)@.usernames,
            final(self)@.failures == old(self)@.failures.push(
                (old(self)@.usernames[old(self)@.failures.len() as int], reason@),
            ),
    {
        let username = self.usernames[self.failures.len()].clone();
        let ghost prev = self@;
        self.failures.push(LoginFailure { username, reason });
        assert(self@.failures =~= prev.failures.push((prev.usernames[prev.failures.len() as int], reason@)));
        assert(self@.usernames =~= prev.usernames);
    }

    /// The error that reports every failed attempt.
    pub fn into_error(self) -> (r: AuthError)
        ensures
            r.failures@.map_values(|f: LoginFailure| failure_view(f)) == self@.failures,
    {
        AuthError { failures: self.failures }
    }
}

// ---------------------------------------------------------------------------
// Failures of a run
// ---------------------------------------------------------------------------

/// Why an account or a mailbox could not be processed.
pub enum SyncError {
    /// The connection or its TLS handshake failed.
    Transport(String),
    /// Every login attempt was rejected.
    Auth(AuthError),
    /// Selecting, examining or searching the mailbox failed.
    Protocol(String),
    /// The mailbox's directory could not be created.
    Persistence(String),
}

/// Whether `e` ends the processing of the whole account: a failed connection or
/// login does; a failure inside one mailbox ends that mailbox only.
pub fn aborts_account(e: &SyncError) -> (r: bool)
    ensures
        r <==> (e is Transport || e is Auth),
{
    match e {
        SyncError::Transport(_) => true,
        SyncError::Auth(_) => true,
        SyncError::Protocol(_) => false,
        SyncError::Persistence(_) => false,
    }
}

/// How a mailbox's run record is completed: with the saved count when the sync
/// ended normally, as failed with no count when an error ended it.
pub fn run_completion(result: &Result<SyncSummary, SyncError>) -> (r: (u64, RunStatus))
    ensures
        match result {
            Ok(s) => r == (s.saved as u64, RunStatus::Completed),
            Err(_) => r == (0u64, RunStatus::Failed),
        },
{
    match result {
        Ok(s) => (s.saved as u64, RunStatus::Completed),
        Err(_) => (0, RunStatus::Failed),
    }
}

} // verus!
