//! The control surface: the single-flight gate over fetch runs, the status
//! report, and the account and statistics listings.

use vstd::prelude::*;
use crate::config::AccountConfig;
use crate::database::{bytes_sum, stats_of, Database, EmailStats, FetchStatus};

verus! {

// ---------------------------------------------------------------------------
// Single flight
// ---------------------------------------------------------------------------

/// The answer to a request for a fetch run.
#[derive(Clone, Copy, Debug, PartialEq, Eq, Structural)]
pub enum TriggerOutcome {
    /// No run was active: a new one is to start.
    Started,
    /// A run is active: nothing is started.
    AlreadyRunning,
}

/// The state of the status report.
pub struct FetchStatusResponse {
    pub is_running: bool,
    pub started_at: Option<i64>,
    pub completed_at: Option<i64>,
    pub messages_fetched: u64,
}

/// Whether a run is active after a trigger, and the trigger's answer.
pub open spec fn trigger_step(running: bool) -> (bool, TriggerOutcome) {
    if running {
        (true, TriggerOutcome::AlreadyRunning)
    } else {
        (true, TriggerOutcome::Started)
    }
}

/// The report when no run is active: the latest run, or an idle snapshot.
pub open spec fn idle_report(latest: Option<FetchStatus>) -> FetchStatusResponse {
    match latest {
        Some(s) => FetchStatusResponse {
            is_running: false,
            started_at: s.started_at,
            completed_at: s.completed_at,
            messages_fetched: s.messages_fetched,
        },
        None => FetchStatusResponse { is_running: false, started_at: None, completed_at: None, messages_fetched: 0 },
    }
}

/// The report while a run is active: the latest run's progress.
pub open spec fn active_report(latest: Option<FetchStatus>) -> FetchStatusResponse {
    match latest {
        Some(s) => FetchStatusResponse {
            is_running: true,
            started_at: s.started_at,
            completed_at: None,
            messages_fetched: s.messages_fetched,
        },
        None => FetchStatusResponse { is_running: true, started_at: None, completed_at: None, messages_fetched: 0 },
    }
}

/// Whether a run is still active after a status query, and the report.
/// `finished` tells whether the active run's work has ended.
pub open spec fn status_step(running: bool, finished: bool, latest: Option<FetchStatus>) -> (bool, FetchStatusResponse) {
    if running && !finished {
        (true, active_report(latest))
    } else {
        (false, idle_report(latest))
    }
}

/// The single-flight gate: whether a fetch run is active.
pub struct FetchGate {
    running: bool,
}

impl View for FetchGate {
    type V = bool;

    closed spec fn view(&self) -> bool {
        self.running
    }
}

impl FetchGate {
    /// A gate with no active run.
    pub fn new() -> (r: FetchGate)
        ensures
            !r@,
    {
        FetchGate { running: false }
    }

    /// Whether a run is active.
    pub fn is_running(&self) -> (r: bool)
        ensures
            r == self@,
    {
        self.running
    }

    /// Check and set in one step: starts a run unless one is active. `finished`
    /// tells whether the work of the run last started has ended; such a run no
    /// longer blocks a new one.
    pub fn trigger(&mut self, finished: bool) -> (r: TriggerOutcome)
        ensures
            (final(self)@, r) == trigger_step(old(self)@ && !finished),
    {
        if self.running && !finished {
            TriggerOutcome::AlreadyRunning
        } else {
            self.running = true;
            TriggerOutcome::Started
        }
    }

    /// The status report, given whether the active run's work has `finished`
    /// and the ledger's latest run. Once its work has ended, the run no longer
    /// counts as active.
    pub fn status(&mut self, finished: bool, latest: Option<FetchStatus>) -> (r: FetchStatusResponse)
        ensures
            (final(self)@, r) == status_step(old(self)@, finished, latest),
    {
        if self.running && !finished {
            match latest {
                Some(s) => FetchStatusResponse {
                    is_running: true,
                    started_at: s.started_at,
                    completed_at: None,
                    messages_fetched: s.messages_fetched,
                },
                None => FetchStatusResponse {
                    is_running: true,
                    started_at: None,
                    completed_at: None,
                    messages_fetched: 0,
                },
            }
        } else {
            self.running = false;
            match latest {
                Some(s) => FetchStatusResponse {
                    is_running: false,
                    started_at: s.started_at,
                    completed_at: s.completed_at,
                    messages_fetched: s.messages_fetched,
                },
                None => FetchStatusResponse {
                    is_running: false,
                    started_at: None,
                    completed_at: None,
                    messages_fetched: 0,
                },
            }
        }
    }
}

/// Two triggers while the run they may start is still at work start at most one
/// run: the second answers that a run is already active, and so does the first
/// when a run was active and unfinished before it.
pub proof fn lemma_single_flight(running: bool, finished_before: bool)
    ensures
        ({
            let (after_first, first) = trigger_step(running && !finished_before);
            let (after_second, second) = trigger_step(after_first);
            &&& second == TriggerOutcome::AlreadyRunning
            &&& after_second
            &&& (running && !finished_before) ==> first == TriggerOutcome::AlreadyRunning
        }),
{
}

/// A run whose work has ended never blocks a trigger.
pub proof fn lemma_finished_run_does_not_block(running: bool)
    ensures
        trigger_step(running && !true).1 == TriggerOutcome::Started,
{
}

// ---------------------------------------------------------------------------
// Listings
// ---------------------------------------------------------------------------

/// An account as listed to callers: no credentials.
pub struct AccountInfo {
    pub email: String,
    pub server: String,
    pub port: u16,
}

/// A server and its accounts, as listed to callers.
pub struct ServerInfo {
    pub host: String,
    pub port: u16,
    pub accounts: Vec<AccountInfo>,
}

/// The mathematical value of a [`ServerInfo`].
pub struct ServerGroup {
    pub host: Seq<char>,
    pub port: u16,
    pub accounts: Seq<AccountInfo>,
}

impl View for ServerInfo {
    type V = ServerGroup;

    open spec fn view(&self) -> ServerGroup {
        ServerGroup { host: self.host@, port: self.port, accounts: self.accounts@ }
    }
}

/// How account `a` is listed.
pub open spec fn info_of(a: AccountConfig) -> AccountInfo {
    AccountInfo { email: a.email, server: a.server, port: a.port }
}

/// Whether group `g` is for the server of account `a`.
pub open spec fn group_for(g: ServerGroup, a: AccountConfig) -> bool {
    g.host == a.server@ && g.port == a.port
}

/// At most one group per (host, port).
pub open spec fn groups_unique(gs: Seq<ServerGroup>) -> bool {
    forall|i: int, j: int|
        0 <= i < gs.len() && 0 <= j < gs.len() && i != j ==> !(#[trigger] gs[i].host == #[trigger] gs[j].host
            && gs[i].port == gs[j].port)
}

/// `gs` after listing account `a` under its server.
pub open spec fn add_account(gs: Seq<ServerGroup>, a: AccountConfig) -> Seq<ServerGroup> {
    if exists|i: int| 0 <= i < gs.len() && group_for(#[trigger] gs[i], a) {
        let i = choose|i: int| 0 <= i < gs.len() && group_for(#[trigger] gs[i], a);
        gs.update(i, ServerGroup { accounts: gs[i].accounts.push(info_of(a)), ..gs[i] })
    } else {
        gs.push(ServerGroup { host: a.server@, port: a.port, accounts: seq![info_of(a)] })
    }
}

/// The accounts grouped by (host, port), groups in order of first appearance,
/// accounts in configuration order.
pub open spec fn server_groups(accounts: Seq<AccountConfig>) -> Seq<ServerGroup>
    decreases accounts.len(),
{
    if accounts.len() == 0 {
        Seq::empty()
    } else {
        add_account(server_groups(accounts.drop_last()), accounts.last())
    }
}

proof fn lemma_server_groups_unique(accounts: Seq<AccountConfig>)
    ensures
        groups_unique(server_groups(accounts)),
    decreases accounts.len(),
{
    if accounts.len() > 0 {
        let gs = server_groups(accounts.drop_last());
        let a = accounts.last();
        lemma_server_groups_unique(accounts.drop_last());
        let next = add_account(gs, a);
        assert forall|i: int, j: int|
            0 <= i < next.len() && 0 <= j < next.len() && i != j implies !(#[trigger] next[i].host
            == #[trigger] next[j].host && next[i].port == next[j].port) by {
            if i < gs.len() && j < gs.len() {
                assert(!(gs[i].host == gs[j].host && gs[i].port == gs[j].port));
            } else if i < gs.len() {
                assert(!group_for(gs[i], a));
            } else {
                assert(!group_for(gs[j], a));
            }
        }
    }
}

/// A copy of `v`.
fn copy_infos(v: &Vec<AccountInfo>) -> (r: Vec<AccountInfo>)
    ensures
        r@ == v@,
{
    let mut out: Vec<AccountInfo> = Vec::new();
    let mut i: usize = 0;
    while i < v.len()
        invariant
            i <= v@.len(),
            out@ == v@.subrange(0, i as int),
        decreases v@.len() - i,
    {
        let a = &v[i];
        out.push(AccountInfo { email: a.email.clone(), server: a.server.clone(), port: a.port });
        assert(out@ =~= v@.subrange(0, i + 1));
        i = i + 1;
    }
    assert(v@.subrange(0, i as int) =~= v@);
    out
}

/// The accounts grouped by server (host and port), without their credentials.
pub fn group_accounts(accounts: &Vec<AccountConfig>) -> (r: Vec<ServerInfo>)
    ensures
        r@.map_values(|s: ServerInfo| s@) == server_groups(accounts@),
{
    let ghost accts = accounts@;
    let mut groups: Vec<ServerInfo> = Vec::new();
    let mut i: usize = 0;
    assert(groups@.map_values(|s: ServerInfo| s@) =~= server_groups(accts.subrange(0, 0)));
    while i < accounts.len()
        invariant
            accts == accounts@,
            i <= accts.len(),
            groups@.map_values(|s: ServerInfo| s@) == server_groups(accts.subrange(0, i as int)),
        decreases accts.len() - i,
    {
        let ghost gs = groups@.map_values(|s: ServerInfo| s@);
        proof {
            lemma_server_groups_unique(accts.subrange(0, i as int));
            assert(accts.subrange(0, i + 1).drop_last() =~= accts.subrange(0, i as int));
            assert(accts.subrange(0, i + 1).last() == accts[i as int]);
        }
        let a = &accounts[i];
        let mut j: usize = 0;
        while j < groups.len() && !(groups[j].host == a.server && groups[j].port == a.port)
            invariant
                j <= groups@.len(),
                gs == groups@.map_values(|s: ServerInfo| s@),
                forall|k: int| 0 <= k < j ==> !group_for(#[trigger] gs[k], *a),
            decreases groups@.len() - j,
        {
            j = j + 1;
        }
        let info = AccountInfo { email: a.email.clone(), server: a.server.clone(), port: a.port };
        assert(info == info_of(*a));
        if j < groups.len() {
            proof {
                assert(group_for(gs[j as int], *a));
                let c = choose|k: int| 0 <= k < gs.len() && group_for(#[trigger] gs[k], *a);
                assert(c == j as int);
            }
            let mut members = copy_infos(&groups[j].accounts);
            members.push(info);
            let g = ServerInfo { host: groups[j].host.clone(), port: groups[j].port, accounts: members };
            groups.set(j, g);
        } else {
            let mut members: Vec<AccountInfo> = Vec::new();
            members.push(info);
            assert(members@ =~= seq![info_of(*a)]);
            groups.push(ServerInfo { host: a.server.clone(), port: a.port, accounts: members });
        }
        assert(groups@.map_values(|s: ServerInfo| s@) =~= server_groups(accts.subrange(0, i + 1)));
        i = i + 1;
    }
    assert(accts.subrange(0, i as int) =~= accts);
    groups
}

/// The statistics listing.
pub struct StatsResponse {
    pub accounts: Vec<ServerInfo>,
    pub total_emails: usize,
    pub total_storage_bytes: u64,
    pub per_account_stats: Vec<EmailStats>,
}

/// The statistics listing: the servers and their accounts, the totals, and one
/// row per (account, mailbox).
pub fn stats_report(db: &Database, accounts: &Vec<AccountConfig>) -> (r: StatsResponse)
    requires
        db.wf(),
    ensures
        r.accounts@.map_values(|s: ServerInfo| s@) == server_groups(accounts@),
        r.total_emails == db@.records.len(),
        r.total_storage_bytes == bytes_sum(db@.records),
        r.per_account_stats@.map_values(|s: EmailStats| s@) == stats_of(db@.records),
{
    let per_account_stats = db.get_stats();
    let (total_emails, total_storage_bytes) = db.get_total_stats();
    StatsResponse { accounts: group_accounts(accounts), total_emails, total_storage_bytes, per_account_stats }
}

} // verus!
