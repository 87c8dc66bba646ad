//! The ledger of saved messages and of fetch runs.
//!
//! Each saved message is recorded once per (account, mailbox, uid); marking a
//! message again overwrites its record. Fetch runs are recorded in the order
//! they start, each one `Running` until it is completed exactly once.

use vstd::prelude::*;
use vstd::string::*;
use crate::sums::{lemma_sum_bounds, lemma_sum_insert, lemma_sum_prefix, lemma_sum_push, lemma_sum_update, sum_of};
use crate::text::{lemma_seq_less_total, lemma_seq_less_trans, seq_less, str_less};

verus! {

/// A message that has been saved to the archive.
pub struct SyncedMessage {
    pub account_email: String,
    pub mailbox: String,
    pub uid: u32,
    pub file_path: String,
    pub size_bytes: u64,
    pub fetched_at: i64,
}

/// The mathematical value of a [`SyncedMessage`].
pub struct MessageView {
    pub account_email: Seq<char>,
    pub mailbox: Seq<char>,
    pub uid: u32,
    pub file_path: Seq<char>,
    pub size_bytes: u64,
    pub fetched_at: i64,
}

impl View for SyncedMessage {
    type V = MessageView;

    open spec fn view(&self) -> MessageView {
        MessageView {
            account_email: self.account_email@,
            mailbox: self.mailbox@,
            uid: self.uid,
            file_path: self.file_path@,
            size_bytes: self.size_bytes,
            fetched_at: self.fetched_at,
        }
    }
}

/// The state of a fetch run.
#[derive(Clone, Copy, Debug, PartialEq, Eq, Structural)]
pub enum RunStatus {
    Running,
    Completed,
    Failed,
}

/// One fetch run over one mailbox of one account.
pub struct FetchRun {
    pub id: usize,
    pub account_email: String,
    pub mailbox: String,
    pub started_at: i64,
    pub completed_at: Option<i64>,
    pub messages_fetched: u64,
    pub status: RunStatus,
}

/// The mathematical value of a [`FetchRun`].
pub struct RunView {
    pub id: usize,
    pub account_email: Seq<char>,
    pub mailbox: Seq<char>,
    pub started_at: i64,
    pub completed_at: Option<i64>,
    pub messages_fetched: u64,
    pub status: RunStatus,
}

impl View for FetchRun {
    type V = RunView;

    open spec fn view(&self) -> RunView {
        RunView {
            id: self.id,
            account_email: self.account_email@,
            mailbox: self.mailbox@,
            started_at: self.started_at,
            completed_at: self.completed_at,
            messages_fetched: self.messages_fetched,
            status: self.status,
        }
    }
}

/// Aggregates over the saved messages of one (account, mailbox) pair.
pub struct EmailStats {
    pub account_email: String,
    pub mailbox: String,
    pub count: usize,
    pub total_size_bytes: u64,
    pub last_fetch: Option<i64>,
}

/// The mathematical value of an [`EmailStats`] row.
pub struct StatsRow {
    pub account_email: Seq<char>,
    pub mailbox: Seq<char>,
    pub count: nat,
    pub total_size_bytes: nat,
    pub last_fetch: Option<i64>,
}

impl View for EmailStats {
    type V = StatsRow;

    open spec fn view(&self) -> StatsRow {
        StatsRow {
            account_email: self.account_email@,
            mailbox: self.mailbox@,
            count: self.count as nat,
            total_size_bytes: self.total_size_bytes as nat,
            last_fetch: self.last_fetch,
        }
    }
}

/// What the ledger reports of the most recently started run.
pub struct FetchStatus {
    pub is_running: bool,
    pub started_at: Option<i64>,
    pub completed_at: Option<i64>,
    pub messages_fetched: u64,
    pub messages_total: Option<u64>,
}

/// Why the ledger refused an operation.
#[derive(Clone, Copy, Debug, PartialEq, Eq, Structural)]
pub enum DatabaseError {
    /// The byte total or the run count would no longer fit its integer type.
    Full,
    /// No run has this id.
    UnknownRun,
    /// A run can only be completed with a terminal status.
    NotTerminal,
    /// The run was already completed.
    RunFinished,
}

/// The ledger.
pub struct Database {
    records: Vec<SyncedMessage>,
    runs: Vec<FetchRun>,
    total_bytes: u64,
}

/// The mathematical value of a [`Database`].
pub struct DatabaseView {
    pub records: Seq<MessageView>,
    pub runs: Seq<RunView>,
}

impl View for Database {
    type V = DatabaseView;

    closed spec fn view(&self) -> DatabaseView {
        DatabaseView {
            records: self.records@.map_values(|r: SyncedMessage| r@),
            runs: self.runs@.map_values(|r: FetchRun| r@),
        }
    }
}

// ---------------------------------------------------------------------------
// The model of saved messages
// ---------------------------------------------------------------------------

/// Whether `r` is the record of message `uid` of `mailbox` of `email`.
pub open spec fn has_key(r: MessageView, email: Seq<char>, mailbox: Seq<char>, uid: u32) -> bool {
    r.account_email == email && r.mailbox == mailbox && r.uid == uid
}

/// Whether two records are for the same message.
pub open spec fn same_key(a: MessageView, b: MessageView) -> bool {
    has_key(a, b.account_email, b.mailbox, b.uid)
}

/// At most one record per (account, mailbox, uid).
pub open spec fn keys_unique(recs: Seq<MessageView>) -> bool {
    forall|i: int, j: int|
        0 <= i < recs.len() && 0 <= j < recs.len() && i != j ==> !same_key(
            #[trigger] recs[i],
            #[trigger] recs[j],
        )
}

/// Whether some record is for message `uid` of `mailbox` of `email`.
pub open spec fn contains_key(recs: Seq<MessageView>, email: Seq<char>, mailbox: Seq<char>, uid: u32) -> bool {
    exists|i: int| 0 <= i < recs.len() && has_key(#[trigger] recs[i], email, mailbox, uid)
}

/// The uids recorded for (`email`, `mailbox`).
pub open spec fn fetched_uids(recs: Seq<MessageView>, email: Seq<char>, mailbox: Seq<char>) -> Set<u32> {
    Set::new(|uid: u32| contains_key(recs, email, mailbox, uid))
}

/// `recs` after writing `rec`: it replaces the record of the same message, or is added.
pub open spec fn upserted(recs: Seq<MessageView>, rec: MessageView) -> Seq<MessageView> {
    if exists|i: int| 0 <= i < recs.len() && same_key(#[trigger] recs[i], rec) {
        recs.update(choose|i: int| 0 <= i < recs.len() && same_key(#[trigger] recs[i], rec), rec)
    } else {
        recs.push(rec)
    }
}

/// The total size of the saved messages.
pub open spec fn bytes_sum(recs: Seq<MessageView>) -> int {
    sum_of(recs, size_fn())
}

/// The size of a record, as summed by [`bytes_sum`].
pub open spec fn size_fn() -> spec_fn(MessageView) -> int {
    |r: MessageView| r.size_bytes as int
}

/// The record written for a message saved at time `at`.
pub open spec fn message_view(
    email: Seq<char>,
    mailbox: Seq<char>,
    uid: u32,
    file_path: Seq<char>,
    size_bytes: u64,
    at: i64,
) -> MessageView {
    MessageView { account_email: email, mailbox, uid, file_path, size_bytes, fetched_at: at }
}

// ---------------------------------------------------------------------------
// The model of the per-mailbox statistics
// ---------------------------------------------------------------------------

/// Whether `row` aggregates (`email`, `mailbox`).
pub open spec fn row_for(row: StatsRow, email: Seq<char>, mailbox: Seq<char>) -> bool {
    row.account_email == email && row.mailbox == mailbox
}

/// At most one row per (account, mailbox).
pub open spec fn rows_unique(rows: Seq<StatsRow>) -> bool {
    forall|i: int, j: int|
        0 <= i < rows.len() && 0 <= j < rows.len() && i != j ==> !row_for(
            #[trigger] rows[i],
            rows[j].account_email,
            #[trigger] rows[j].mailbox,
        )
}

/// (`ae`, `am`) sorts strictly before (`be`, `bm`): by account, then by mailbox.
pub open spec fn key_less(ae: Seq<char>, am: Seq<char>, be: Seq<char>, bm: Seq<char>) -> bool {
    seq_less(ae, be) || (ae == be && seq_less(am, bm))
}

/// Row `a` sorts strictly before row `b`.
pub open spec fn row_before(a: StatsRow, b: StatsRow) -> bool {
    key_less(a.account_email, a.mailbox, b.account_email, b.mailbox)
}

/// The rows are strictly increasing by (account, mailbox).
pub open spec fn rows_sorted(rows: Seq<StatsRow>) -> bool {
    forall|i: int, j: int| 0 <= i < j < rows.len() ==> row_before(#[trigger] rows[i], #[trigger] rows[j])
}

/// Where a new group (`email`, `mailbox`) goes: after the rows that sort before it.
pub open spec fn insert_pos(rows: Seq<StatsRow>, email: Seq<char>, mailbox: Seq<char>) -> int
    decreases rows.len(),
{
    if rows.len() == 0 {
        0
    } else if key_less(rows[0].account_email, rows[0].mailbox, email, mailbox) {
        1 + insert_pos(rows.drop_first(), email, mailbox)
    } else {
        0
    }
}

pub proof fn lemma_key_less_total(ae: Seq<char>, am: Seq<char>, be: Seq<char>, bm: Seq<char>)
    ensures
        key_less(ae, am, be, bm) || (ae == be && am == bm) || key_less(be, bm, ae, am),
        !(key_less(ae, am, be, bm) && key_less(be, bm, ae, am)),
        !key_less(ae, am, ae, am),
{
    lemma_seq_less_total(ae, be);
    lemma_seq_less_total(am, bm);
    lemma_seq_less_total(ae, ae);
    lemma_seq_less_total(am, am);
}

pub proof fn lemma_key_less_trans(
    ae: Seq<char>,
    am: Seq<char>,
    be: Seq<char>,
    bm: Seq<char>,
    ce: Seq<char>,
    cm: Seq<char>,
)
    requires
        key_less(ae, am, be, bm),
        key_less(be, bm, ce, cm),
    ensures
        key_less(ae, am, ce, cm),
{
    if seq_less(ae, be) && seq_less(be, ce) {
        lemma_seq_less_trans(ae, be, ce);
    }
    if seq_less(am, bm) && seq_less(bm, cm) {
        lemma_seq_less_trans(am, bm, cm);
    }
}

proof fn lemma_insert_pos(rows: Seq<StatsRow>, email: Seq<char>, mailbox: Seq<char>)
    ensures
        0 <= insert_pos(rows, email, mailbox) <= rows.len(),
        forall|k: int|
            0 <= k < insert_pos(rows, email, mailbox) ==> key_less(
                (#[trigger] rows[k]).account_email,
                rows[k].mailbox,
                email,
                mailbox,
            ),
        insert_pos(rows, email, mailbox) < rows.len() ==> !key_less(
            rows[insert_pos(rows, email, mailbox)].account_email,
            rows[insert_pos(rows, email, mailbox)].mailbox,
            email,
            mailbox,
        ),
    decreases rows.len(),
{
    if rows.len() > 0 && key_less(rows[0].account_email, rows[0].mailbox, email, mailbox) {
        let t = rows.drop_first();
        lemma_insert_pos(t, email, mailbox);
        assert forall|k: int| 0 <= k < insert_pos(rows, email, mailbox) implies key_less(
            (#[trigger] rows[k]).account_email,
            rows[k].mailbox,
            email,
            mailbox,
        ) by {
            if k > 0 {
                assert(rows[k] == t[k - 1]);
            }
        }
        if insert_pos(rows, email, mailbox) < rows.len() {
            assert(rows[insert_pos(rows, email, mailbox)] == t[insert_pos(t, email, mailbox)]);
        }
    }
}

proof fn lemma_insert_pos_at(rows: Seq<StatsRow>, email: Seq<char>, mailbox: Seq<char>, j: int)
    requires
        0 <= j <= rows.len(),
        forall|k: int| 0 <= k < j ==> key_less((#[trigger] rows[k]).account_email, rows[k].mailbox, email, mailbox),
        j < rows.len() ==> !key_less(rows[j].account_email, rows[j].mailbox, email, mailbox),
    ensures
        insert_pos(rows, email, mailbox) == j,
    decreases rows.len(),
{
    if rows.len() > 0 && j > 0 {
        let t = rows.drop_first();
        assert forall|k: int| 0 <= k < j - 1 implies key_less(
            (#[trigger] t[k]).account_email,
            t[k].mailbox,
            email,
            mailbox,
        ) by {
            assert(t[k] == rows[k + 1]);
        }
        if j < rows.len() {
            assert(t[j - 1] == rows[j]);
        }
        lemma_insert_pos_at(t, email, mailbox, j - 1);
        assert(key_less(rows[0].account_email, rows[0].mailbox, email, mailbox));
    }
}

/// Strictly increasing rows hold one row per group.
pub proof fn lemma_sorted_rows_unique(rows: Seq<StatsRow>)
    requires
        rows_sorted(rows),
    ensures
        rows_unique(rows),
{
    assert forall|i: int, j: int|
        0 <= i < rows.len() && 0 <= j < rows.len() && i != j implies !row_for(
        #[trigger] rows[i],
        rows[j].account_email,
        #[trigger] rows[j].mailbox,
    ) by {
        lemma_key_less_total(rows[i].account_email, rows[i].mailbox, rows[j].account_email, rows[j].mailbox);
        if i < j {
            assert(row_before(rows[i], rows[j]));
        } else {
            assert(row_before(rows[j], rows[i]));
        }
    }
}

/// The later of a row's last fetch and `at`.
pub open spec fn later(last: Option<i64>, at: i64) -> Option<i64> {
    match last {
        Some(t) => Some(if t >= at { t } else { at }),
        None => Some(at),
    }
}

/// `rows` after counting one more message `r` in its group.
pub open spec fn add_to_stats(rows: Seq<StatsRow>, r: MessageView) -> Seq<StatsRow> {
    if exists|i: int| 0 <= i < rows.len() && row_for(#[trigger] rows[i], r.account_email, r.mailbox) {
        let i = choose|i: int| 0 <= i < rows.len() && row_for(#[trigger] rows[i], r.account_email, r.mailbox);
        rows.update(
            i,
            StatsRow {
                count: rows[i].count + 1,
                total_size_bytes: (rows[i].total_size_bytes + r.size_bytes) as nat,
                last_fetch: later(rows[i].last_fetch, r.fetched_at),
                ..rows[i]
            },
        )
    } else {
        rows.insert(
            insert_pos(rows, r.account_email, r.mailbox),
            StatsRow {
                account_email: r.account_email,
                mailbox: r.mailbox,
                count: 1,
                total_size_bytes: r.size_bytes as nat,
                last_fetch: Some(r.fetched_at),
            },
        )
    }
}

/// The saved messages grouped by (account, mailbox), rows in (account, mailbox) order.
pub open spec fn stats_of(recs: Seq<MessageView>) -> Seq<StatsRow>
    decreases recs.len(),
{
    if recs.len() == 0 {
        Seq::empty()
    } else {
        add_to_stats(stats_of(recs.drop_last()), recs.last())
    }
}

/// The number of messages over all rows.
pub open spec fn sum_counts(rows: Seq<StatsRow>) -> int {
    sum_of(rows, count_fn())
}

/// The count of a row, as summed by [`sum_counts`].
pub open spec fn count_fn() -> spec_fn(StatsRow) -> int {
    |r: StatsRow| r.count as int
}

/// The number of bytes over all rows.
pub open spec fn sum_row_bytes(rows: Seq<StatsRow>) -> int {
    sum_of(rows, row_bytes_fn())
}

/// The byte total of a row, as summed by [`sum_row_bytes`].
pub open spec fn row_bytes_fn() -> spec_fn(StatsRow) -> int {
    |r: StatsRow| r.total_size_bytes as int
}

// ---------------------------------------------------------------------------
// The model of fetch runs
// ---------------------------------------------------------------------------

/// The index of the run that started last (the later one of equal start times), or -1.
pub open spec fn latest_run(runs: Seq<RunView>) -> int
    decreases runs.len(),
{
    if runs.len() == 0 {
        -1
    } else {
        let j = latest_run(runs.drop_last());
        if j >= 0 && runs[j].started_at > runs.last().started_at {
            j
        } else {
            runs.len() - 1
        }
    }
}

/// [`latest_run`] picks a run exactly when there is one; no run started later,
/// and every run added after it started earlier.
pub proof fn lemma_latest_run(runs: Seq<RunView>)
    ensures
        (latest_run(runs) >= 0) == (runs.len() > 0),
        latest_run(runs) < runs.len(),
        runs.len() > 0 ==> forall|j: int|
            0 <= j < runs.len() ==> (#[trigger] runs[j]).started_at <= runs[latest_run(runs)].started_at,
        runs.len() > 0 ==> forall|j: int|
            latest_run(runs) < j < runs.len() ==> (#[trigger] runs[j]).started_at < runs[latest_run(
                runs,
            )].started_at,
    decreases runs.len(),
{
    if runs.len() > 0 {
        let prev = runs.drop_last();
        lemma_latest_run(prev);
        assert forall|j: int| 0 <= j < prev.len() implies prev[j] == runs[j] by {}
    }
}

/// Whether a run is well formed: it has a completion time exactly when it is no longer running.
pub open spec fn run_wf(r: RunView) -> bool {
    r.completed_at.is_some() <==> r.status != RunStatus::Running
}

/// What the ledger reports of a run.
pub open spec fn status_of(r: RunView) -> FetchStatus {
    FetchStatus {
        is_running: r.completed_at.is_none() && r.status == RunStatus::Running,
        started_at: Some(r.started_at),
        completed_at: r.completed_at,
        messages_fetched: r.messages_fetched,
        messages_total: None,
    }
}

impl Database {
    /// The ledger's invariant.
    pub closed spec fn wf(&self) -> bool {
        &&& keys_unique(self@.records)
        &&& self.total_bytes as int == bytes_sum(self@.records)
        &&& forall|i: int| 0 <= i < self@.runs.len() ==> (#[trigger] self@.runs[i]).id == i + 1
        &&& forall|i: int| 0 <= i < self@.runs.len() ==> run_wf(#[trigger] self@.runs[i])
    }

    /// What the invariant gives callers: one record per message, run ids that
    /// are positions plus one, and completion times exactly on finished runs.
    pub proof fn lemma_wf(&self)
        requires
            self.wf(),
        ensures
            keys_unique(self@.records),
            forall|i: int| 0 <= i < self@.runs.len() ==> (#[trigger] self@.runs[i]).id == i + 1,
            forall|i: int| 0 <= i < self@.runs.len() ==> run_wf(#[trigger] self@.runs[i]),
    {
    }
}

impl Database {
    /// An empty ledger.
    pub fn new() -> (r: Database)
        ensures
            r.wf(),
            r@.records == Seq::<MessageView>::empty(),
            r@.runs == Seq::<RunView>::empty(),
    {
        let r = Database { records: Vec::new(), runs: Vec::new(), total_bytes: 0 };
        assert(r@.records =~= Seq::<MessageView>::empty());
        assert(r@.runs =~= Seq::<RunView>::empty());
        r
    }

    /// The position of the record of message `uid` of `mailbox` of `email`.
    fn find_message(&self, email: &str, mailbox: &str, uid: u32) -> (r: Option<usize>)
        ensures
            match r {
                Some(i) => i < self@.records.len() && has_key(self@.records[i as int], email@, mailbox@, uid),
                None => !contains_key(self@.records, email@, mailbox@, uid),
            },
    {
        let e = String::from_str(email);
        let m = String::from_str(mailbox);
        let mut i: usize = 0;
        while i < self.records.len()
            invariant
                e@ == email@,
                m@ == mailbox@,
                i <= self.records@.len(),
                forall|j: int| 0 <= j < i ==> !has_key(#[trigger] self@.records[j], email@, mailbox@, uid),
            decreases self.records@.len() - i,
        {
            let rec = &self.records[i];
            if rec.uid == uid && rec.account_email == e && rec.mailbox == m {
                return Some(i);
            }
            i = i + 1;
        }
        None
    }

    /// Whether message `uid` of `mailbox` of `email` has been saved.
    pub fn is_email_fetched(&self, email: &str, mailbox: &str, uid: u32) -> (r: bool)
        ensures
            r == contains_key(self@.records, email@, mailbox@, uid),
    {
        self.find_message(email, mailbox, uid).is_some()
    }

    /// Records that message `uid` of `mailbox` of `email` was saved at time `now`,
    /// replacing an earlier record of the same message. Refused when the byte total
    /// of the ledger would no longer fit a `u64`.
    pub fn mark_email_fetched(
        &mut self,
        email: &str,
        mailbox: &str,
        uid: u32,
        file_path: &str,
        size_bytes: u64,
        now: i64,
    ) -> (r: Result<(), DatabaseError>)
        requires
            old(self).wf(),
        ensures
            final(self).wf(),
            final(self)@.runs == old(self)@.runs,
            r.is_ok() <==> bytes_sum(
                upserted(old(self)@.records, message_view(email@, mailbox@, uid, file_path@, size_bytes, now)),
            ) <= u64::MAX,
            r.is_ok() ==> final(self)@.records == upserted(
                old(self)@.records,
                message_view(email@, mailbox@, uid, file_path@, size_bytes, now),
            ),
            r.is_err() ==> r == Err::<(), DatabaseError>(DatabaseError::Full) && final(self)@ == old(self)@,
            keys_unique(final(self)@.records),
            r.is_ok() ==> final(self)@.records.contains(
                message_view(email@, mailbox@, uid, file_path@, size_bytes, now),
            ),
    {
        proof {
            lemma_upserted(self@.records, message_view(email@, mailbox@, uid, file_path@, size_bytes, now));
        }
        let ghost recs = self@.records;
        let ghost rv = message_view(email@, mailbox@, uid, file_path@, size_bytes, now);
        let rec = SyncedMessage {
            account_email: String::from_str(email),
            mailbox: String::from_str(mailbox),
            uid,
            file_path: String::from_str(file_path),
            size_bytes,
            fetched_at: now,
        };
        assert(rec@ == rv);
        proof {
            lemma_sum_bounds(recs, size_fn());
        }
        match self.find_message(email, mailbox, uid) {
            Some(i) => {
                proof {
                    assert(same_key(recs[i as int], rv));
                    let c = choose|k: int| 0 <= k < recs.len() && same_key(#[trigger] recs[k], rv);
                    assert(c == i as int);
                    lemma_sum_update(recs, i as int, rv, size_fn());
                    assert(size_fn()(recs[i as int]) <= bytes_sum(recs));
                }
                let base = self.total_bytes - self.records[i].size_bytes;
                if size_bytes > u64::MAX - base {
                    return Err(DatabaseError::Full);
                }
                self.records.set(i, rec);
                self.total_bytes = base + size_bytes;
                proof {
                    assert(self@.records =~= recs.update(i as int, rv));
                    assert(self@.runs =~= old(self)@.runs);
                    assert forall|a: int, b: int|
                        0 <= a < self@.records.len() && 0 <= b < self@.records.len() && a != b implies !same_key(
                        #[trigger] self@.records[a],
                        #[trigger] self@.records[b],
                    ) by {
                        if a != i as int && b != i as int {
                            assert(!same_key(recs[a], recs[b]));
                        } else if a == i as int {
                            assert(!same_key(recs[i as int], recs[b]));
                        } else {
                            assert(!same_key(recs[a], recs[i as int]));
                        }
                    }
                }
                Ok(())
            },
            None => {
                proof {
                    lemma_sum_push(recs, rv, size_fn());
                    if exists|k: int| 0 <= k < recs.len() && same_key(#[trigger] recs[k], rv) {
                        let k = choose|k: int| 0 <= k < recs.len() && same_key(#[trigger] recs[k], rv);
                        assert(has_key(recs[k], email@, mailbox@, uid));
                    }
                }
                if size_bytes > u64::MAX - self.total_bytes {
                    return Err(DatabaseError::Full);
                }
                self.records.push(rec);
                self.total_bytes = self.total_bytes + size_bytes;
                proof {
                    assert(self@.records =~= recs.push(rv));
                    assert(self@.runs =~= old(self)@.runs);
                    assert forall|a: int, b: int|
                        0 <= a < self@.records.len() && 0 <= b < self@.records.len() && a != b implies !same_key(
                        #[trigger] self@.records[a],
                        #[trigger] self@.records[b],
                    ) by {
                        if a < recs.len() && b < recs.len() {
                            assert(!same_key(recs[a], recs[b]));
                        } else if a < recs.len() {
                            assert(!has_key(recs[a], email@, mailbox@, uid));
                        } else {
                            assert(!has_key(recs[b], email@, mailbox@, uid));
                        }
                    }
                }
                Ok(())
            },
        }
    }
}

/// The number of saved messages of (`email`, `mailbox`).
pub open spec fn group_count(recs: Seq<MessageView>, email: Seq<char>, mailbox: Seq<char>) -> int
    decreases recs.len(),
{
    if recs.len() == 0 {
        0
    } else {
        group_count(recs.drop_last(), email, mailbox) + if recs.last().account_email == email
            && recs.last().mailbox == mailbox {
            1int
        } else {
            0int
        }
    }
}

/// The total size of the saved messages of (`email`, `mailbox`).
pub open spec fn group_bytes(recs: Seq<MessageView>, email: Seq<char>, mailbox: Seq<char>) -> int
    decreases recs.len(),
{
    if recs.len() == 0 {
        0
    } else {
        group_bytes(recs.drop_last(), email, mailbox) + if recs.last().account_email == email
            && recs.last().mailbox == mailbox {
            recs.last().size_bytes as int
        } else {
            0int
        }
    }
}

/// Each row of [`stats_of`] counts exactly the messages of its group, and every
/// group with a saved message has a row.
pub proof fn lemma_stats_rows_are_groups(recs: Seq<MessageView>)
    ensures
        forall|i: int|
            0 <= i < stats_of(recs).len() ==> {
                let row = #[trigger] stats_of(recs)[i];
                &&& row.count == group_count(recs, row.account_email, row.mailbox)
                &&& row.total_size_bytes == group_bytes(recs, row.account_email, row.mailbox)
            },
        forall|email: Seq<char>, mailbox: Seq<char>|
            #[trigger] group_count(recs, email, mailbox) > 0 ==> exists|i: int|
                0 <= i < stats_of(recs).len() && row_for(#[trigger] stats_of(recs)[i], email, mailbox),
    decreases recs.len(),
{
    if recs.len() > 0 {
        let prev = recs.drop_last();
        let rows = stats_of(prev);
        let r = recs.last();
        lemma_stats_rows_are_groups(prev);
        lemma_stats_of(prev);
        let next = stats_of(recs);
        assert(next == add_to_stats(rows, r));
        if exists|i: int| 0 <= i < rows.len() && row_for(#[trigger] rows[i], r.account_email, r.mailbox) {
            let c = choose|i: int| 0 <= i < rows.len() && row_for(#[trigger] rows[i], r.account_email, r.mailbox);
            assert forall|i: int| 0 <= i < next.len() implies {
                let row = #[trigger] next[i];
                &&& row.count == group_count(recs, row.account_email, row.mailbox)
                &&& row.total_size_bytes == group_bytes(recs, row.account_email, row.mailbox)
            } by {
                if i != c {
                    assert(!row_for(rows[i], rows[c].account_email, rows[c].mailbox));
                    assert(rows[i] == next[i]);
                }
            }
            assert forall|email: Seq<char>, mailbox: Seq<char>|
                #[trigger] group_count(recs, email, mailbox) > 0 implies exists|i: int|
                    0 <= i < next.len() && row_for(#[trigger] next[i], email, mailbox) by {
                if r.account_email == email && r.mailbox == mailbox {
                    assert(row_for(next[c], email, mailbox));
                } else {
                    assert(group_count(prev, email, mailbox) > 0);
                    let k = choose|k: int| 0 <= k < rows.len() && row_for(#[trigger] rows[k], email, mailbox);
                    assert(row_for(next[k], email, mailbox));
                }
            }
        } else {
            let p = insert_pos(rows, r.account_email, r.mailbox);
            lemma_insert_pos(rows, r.account_email, r.mailbox);
            let nr = StatsRow {
                account_email: r.account_email,
                mailbox: r.mailbox,
                count: 1,
                total_size_bytes: r.size_bytes as nat,
                last_fetch: Some(r.fetched_at),
            };
            lemma_insert_index(rows, p, nr);
            assert(group_count(prev, r.account_email, r.mailbox) <= 0) by {
                if group_count(prev, r.account_email, r.mailbox) > 0 {
                    let k = choose|k: int| 0 <= k < rows.len() && row_for(#[trigger] rows[k], r.account_email, r.mailbox);
                }
            }
            assert(group_count(prev, r.account_email, r.mailbox) >= 0) by {
                lemma_group_nonneg(prev, r.account_email, r.mailbox);
            }
            assert(group_bytes(prev, r.account_email, r.mailbox) == 0) by {
                lemma_group_bytes_zero(prev, r.account_email, r.mailbox);
            }
            assert forall|i: int| 0 <= i < next.len() implies {
                let row = #[trigger] next[i];
                &&& row.count == group_count(recs, row.account_email, row.mailbox)
                &&& row.total_size_bytes == group_bytes(recs, row.account_email, row.mailbox)
            } by {
                if i < p {
                    assert(!row_for(rows[i], r.account_email, r.mailbox));
                    assert(rows[i] == next[i]);
                } else if i > p {
                    assert(!row_for(rows[i - 1], r.account_email, r.mailbox));
                    assert(rows[i - 1] == next[i]);
                }
            }
            assert forall|email: Seq<char>, mailbox: Seq<char>|
                #[trigger] group_count(recs, email, mailbox) > 0 implies exists|i: int|
                    0 <= i < next.len() && row_for(#[trigger] next[i], email, mailbox) by {
                if r.account_email == email && r.mailbox == mailbox {
                    assert(row_for(next[p], email, mailbox));
                } else {
                    assert(group_count(prev, email, mailbox) > 0);
                    let k = choose|k: int| 0 <= k < rows.len() && row_for(#[trigger] rows[k], email, mailbox);
                    if k < p {
                        assert(row_for(next[k], email, mailbox));
                    } else {
                        assert(row_for(next[k + 1], email, mailbox));
                    }
                }
            }
        }
    }
}

proof fn lemma_insert_index<A>(s: Seq<A>, p: int, x: A)
    requires
        0 <= p <= s.len(),
    ensures
        s.insert(p, x).len() == s.len() + 1,
        s.insert(p, x)[p] == x,
        forall|k: int| 0 <= k < p ==> #[trigger] s.insert(p, x)[k] == s[k],
        forall|k: int| p < k <= s.len() ==> #[trigger] s.insert(p, x)[k] == s[k - 1],
{
}

proof fn lemma_group_nonneg(recs: Seq<MessageView>, email: Seq<char>, mailbox: Seq<char>)
    ensures
        group_count(recs, email, mailbox) >= 0,
        group_bytes(recs, email, mailbox) >= 0,
    decreases recs.len(),
{
    if recs.len() > 0 {
        lemma_group_nonneg(recs.drop_last(), email, mailbox);
    }
}

proof fn lemma_group_bytes_zero(recs: Seq<MessageView>, email: Seq<char>, mailbox: Seq<char>)
    requires
        group_count(recs, email, mailbox) <= 0,
    ensures
        group_bytes(recs, email, mailbox) == 0,
    decreases recs.len(),
{
    if recs.len() > 0 {
        lemma_group_nonneg(recs.drop_last(), email, mailbox);
        lemma_group_bytes_zero(recs.drop_last(), email, mailbox);
    }
}

/// The rows of [`stats_of`] are strictly increasing by (account, mailbox), one per
/// group, and their counts and byte totals add up to the number and total size of
/// the saved messages.
proof fn lemma_stats_of(recs: Seq<MessageView>)
    ensures
        rows_sorted(stats_of(recs)),
        rows_unique(stats_of(recs)),
        sum_counts(stats_of(recs)) == recs.len(),
        sum_row_bytes(stats_of(recs)) == bytes_sum(recs),
    decreases recs.len(),
{
    if recs.len() > 0 {
        let prev = recs.drop_last();
        let rows = stats_of(prev);
        let r = recs.last();
        lemma_stats_of(prev);
        let next = stats_of(recs);
        if exists|i: int| 0 <= i < rows.len() && row_for(#[trigger] rows[i], r.account_email, r.mailbox) {
            let i = choose|i: int| 0 <= i < rows.len() && row_for(#[trigger] rows[i], r.account_email, r.mailbox);
            let row = StatsRow {
                count: rows[i].count + 1,
                total_size_bytes: (rows[i].total_size_bytes + r.size_bytes) as nat,
                last_fetch: later(rows[i].last_fetch, r.fetched_at),
                ..rows[i]
            };
            lemma_sum_update(rows, i, row, count_fn());
            lemma_sum_update(rows, i, row, row_bytes_fn());
            assert(next == rows.update(i, row));
            assert forall|a: int, b: int| 0 <= a < b < next.len() implies row_before(
                #[trigger] next[a],
                #[trigger] next[b],
            ) by {
                assert(row_before(rows[a], rows[b]));
            }
        } else {
            let e = r.account_email;
            let m = r.mailbox;
            let p = insert_pos(rows, e, m);
            lemma_insert_pos(rows, e, m);
            let row = StatsRow {
                account_email: e,
                mailbox: m,
                count: 1,
                total_size_bytes: r.size_bytes as nat,
                last_fetch: Some(r.fetched_at),
            };
            lemma_sum_insert(rows, p, row, count_fn());
            lemma_sum_insert(rows, p, row, row_bytes_fn());
            lemma_insert_index(rows, p, row);
            assert(next == rows.insert(p, row));
            if p < rows.len() {
                lemma_key_less_total(rows[p].account_email, rows[p].mailbox, e, m);
                assert(!row_for(rows[p], e, m));
            }
            assert forall|a: int, b: int| 0 <= a < b < next.len() implies row_before(
                #[trigger] next[a],
                #[trigger] next[b],
            ) by {
                if b < p {
                    assert(row_before(rows[a], rows[b]));
                } else if b == p {
                    assert(key_less(rows[a].account_email, rows[a].mailbox, e, m));
                } else if a == p {
                    if b - 1 > p {
                        assert(row_before(rows[p], rows[b - 1]));
                        lemma_key_less_trans(
                            e,
                            m,
                            rows[p].account_email,
                            rows[p].mailbox,
                            rows[b - 1].account_email,
                            rows[b - 1].mailbox,
                        );
                    }
                } else if a < p {
                    assert(row_before(rows[a], rows[b - 1]));
                } else {
                    assert(row_before(rows[a - 1], rows[b - 1]));
                }
            }
        }
        lemma_sorted_rows_unique(next);
    } else {
        lemma_sorted_rows_unique(stats_of(recs));
    }
}

/// The later of `last` and `at`.
fn later_of(last: Option<i64>, at: i64) -> (r: Option<i64>)
    ensures
        r == later(last, at),
{
    match last {
        Some(t) => Some(if t >= at { t } else { at }),
        None => Some(at),
    }
}

/// Whether (`ae`, `am`) sorts strictly before (`be`, `bm`).
fn key_before(ae: &String, am: &String, be: &String, bm: &String) -> (r: bool)
    ensures
        r == key_less(ae@, am@, be@, bm@),
{
    str_less(ae.as_str(), be.as_str()) || (*ae == *be && str_less(am.as_str(), bm.as_str()))
}

impl Database {
    /// The uids recorded for (`email`, `mailbox`), each once.
    pub fn get_fetched_uids(&self, email: &str, mailbox: &str) -> (r: Vec<u32>)
        requires
            self.wf(),
        ensures
            r@.no_duplicates(),
            forall|uid: u32| r@.contains(uid) <==> contains_key(self@.records, email@, mailbox@, uid),
            r@.to_set() == fetched_uids(self@.records, email@, mailbox@),
    {
        let ghost recs = self@.records;
        let e = String::from_str(email);
        let m = String::from_str(mailbox);
        let mut out: Vec<u32> = Vec::new();
        let mut i: usize = 0;
        while i < self.records.len()
            invariant
                self.wf(),
                recs == self@.records,
                e@ == email@,
                m@ == mailbox@,
                i <= self.records@.len(),
                out@.no_duplicates(),
                forall|uid: u32|
                    out@.contains(uid) <==> exists|j: int|
                        0 <= j < i && has_key(#[trigger] recs[j], email@, mailbox@, uid),
            decreases self.records@.len() - i,
        {
            let rec = &self.records[i];
            if rec.account_email == e && rec.mailbox == m {
                let ghost u = rec.uid;
                let ghost prev = out@;
                proof {
                    if prev.contains(u) {
                        let j = choose|j: int| 0 <= j < i && has_key(#[trigger] recs[j], email@, mailbox@, u);
                        assert(same_key(recs[j], recs[i as int]));
                    }
                }
                out.push(rec.uid);
                proof {
                    assert(out@ == prev.push(u));
                    assert forall|uid: u32|
                        out@.contains(uid) implies exists|j: int|
                            0 <= j < i + 1 && has_key(#[trigger] recs[j], email@, mailbox@, uid) by {
                        if uid != u {
                            let k = choose|k: int| 0 <= k < out@.len() && out@[k] == uid;
                            assert(k < prev.len());
                            assert(prev[k] == uid);
                            assert(prev.contains(uid));
                        } else {
                            assert(has_key(recs[i as int], email@, mailbox@, uid));
                        }
                    }
                    assert forall|uid: u32|
                        (exists|j: int| 0 <= j < i + 1 && has_key(#[trigger] recs[j], email@, mailbox@, uid))
                        implies out@.contains(uid) by {
                        let j = choose|j: int| 0 <= j < i + 1 && has_key(#[trigger] recs[j], email@, mailbox@, uid);
                        if j < i {
                            assert(prev.contains(uid));
                            let k = choose|k: int| 0 <= k < prev.len() && prev[k] == uid;
                            assert(out@[k] == uid);
                        } else {
                            assert(out@[out@.len() - 1] == uid);
                        }
                    }
                }
            } else {
                proof {
                    assert forall|uid: u32|
                        (exists|j: int| 0 <= j < i + 1 && has_key(#[trigger] recs[j], email@, mailbox@, uid))
                        implies out@.contains(uid) by {
                        let j = choose|j: int| 0 <= j < i + 1 && has_key(#[trigger] recs[j], email@, mailbox@, uid);
                        assert(j < i);
                    }
                }
            }
            i = i + 1;
        }
        proof {
            assert(out@.to_set() =~= fetched_uids(recs, email@, mailbox@)) by {
                assert forall|uid: u32| out@.to_set().contains(uid) <==> fetched_uids(recs, email@, mailbox@).contains(uid) by {
                    if out@.contains(uid) {
                        let j = choose|j: int| 0 <= j < i && has_key(#[trigger] recs[j], email@, mailbox@, uid);
                        assert(contains_key(recs, email@, mailbox@, uid));
                    }
                    if contains_key(recs, email@, mailbox@, uid) {
                        let j = choose|j: int| 0 <= j < recs.len() && has_key(#[trigger] recs[j], email@, mailbox@, uid);
                        assert(0 <= j < i);
                    }
                }
            }
        }
        out
    }

    /// The number and the total size of all saved messages.
    pub fn get_total_stats(&self) -> (r: (usize, u64))
        requires
            self.wf(),
        ensures
            r.0 == self@.records.len(),
            r.1 == bytes_sum(self@.records),
    {
        (self.records.len(), self.total_bytes)
    }

    /// The saved messages grouped by (account, mailbox): one row per group, the
    /// rows in increasing (account, mailbox) order.
    pub fn get_stats(&self) -> (r: Vec<EmailStats>)
        requires
            self.wf(),
        ensures
            r@.map_values(|s: EmailStats| s@) == stats_of(self@.records),
            rows_sorted(stats_of(self@.records)),
            rows_unique(stats_of(self@.records)),
            forall|i: int|
                0 <= i < r@.len() ==> (#[trigger] r@[i]).count == group_count(
                    self@.records,
                    r@[i].account_email@,
                    r@[i].mailbox@,
                ) && r@[i].total_size_bytes == group_bytes(self@.records, r@[i].account_email@, r@[i].mailbox@),
            forall|email: Seq<char>, mailbox: Seq<char>|
                #[trigger] group_count(self@.records, email, mailbox) > 0 ==> exists|i: int|
                    0 <= i < r@.len() && (#[trigger] r@[i]).account_email@ == email && r@[i].mailbox@ == mailbox,
    {
        let ghost recs = self@.records;
        let mut rows: Vec<EmailStats> = Vec::new();
        let mut i: usize = 0;
        proof {
            lemma_sum_bounds(recs, size_fn());
        }
        assert(rows@.map_values(|s: EmailStats| s@) =~= stats_of(recs.subrange(0, 0)));
        while i < self.records.len()
            invariant
                self.wf(),
                recs == self@.records,
                i <= self.records@.len(),
                rows@.map_values(|s: EmailStats| s@) == stats_of(recs.subrange(0, i as int)),
            decreases self.records@.len() - i,
        {
            let ghost rs = rows@.map_values(|s: EmailStats| s@);
            let ghost pre = recs.subrange(0, i as int);
            proof {
                lemma_stats_of(pre);
                lemma_sum_bounds(rs, count_fn());
                lemma_sum_bounds(rs, row_bytes_fn());
                lemma_sum_prefix(recs, i + 1, size_fn());
                assert(recs.subrange(0, i + 1).drop_last() =~= pre);
                assert(recs.subrange(0, i + 1).last() == recs[i as int]);
            }
            let rec = &self.records[i];
            let ghost e = rec.account_email@;
            let ghost m = rec.mailbox@;
            let mut j: usize = 0;
            while j < rows.len() && key_before(&rows[j].account_email, &rows[j].mailbox, &rec.account_email, &rec.mailbox)
                invariant
                    j <= rows@.len(),
                    rs == rows@.map_values(|s: EmailStats| s@),
                    e == rec.account_email@,
                    m == rec.mailbox@,
                    forall|k: int| 0 <= k < j ==> key_less((#[trigger] rs[k]).account_email, rs[k].mailbox, e, m),
                decreases rows@.len() - j,
            {
                j = j + 1;
            }
            proof {
                lemma_insert_pos_at(rs, e, m, j as int);
                assert forall|k: int| 0 <= k < j implies !row_for(#[trigger] rs[k], e, m) by {
                    lemma_key_less_total(rs[k].account_email, rs[k].mailbox, e, m);
                }
            }
            if j < rows.len() && rows[j].account_email == rec.account_email && rows[j].mailbox == rec.mailbox {
                proof {
                    assert(row_for(rs[j as int], e, m));
                    let c = choose|k: int| 0 <= k < rs.len() && row_for(#[trigger] rs[k], e, m);
                    assert(c == j as int);
                    assert(count_fn()(rs[j as int]) <= sum_counts(rs));
                    assert(row_bytes_fn()(rs[j as int]) <= sum_row_bytes(rs));
                }
                let row = EmailStats {
                    account_email: rows[j].account_email.clone(),
                    mailbox: rows[j].mailbox.clone(),
                    count: rows[j].count + 1,
                    total_size_bytes: rows[j].total_size_bytes + rec.size_bytes,
                    last_fetch: later_of(rows[j].last_fetch, rec.fetched_at),
                };
                rows.set(j, row);
            } else {
                proof {
                    if j < rows.len() {
                        lemma_key_less_total(rs[j as int].account_email, rs[j as int].mailbox, e, m);
                        assert(key_less(e, m, rs[j as int].account_email, rs[j as int].mailbox));
                    }
                    assert forall|k: int| 0 <= k < rs.len() implies !row_for(#[trigger] rs[k], e, m) by {
                        if k > j {
                            assert(row_before(rs[j as int], rs[k]));
                            lemma_key_less_trans(
                                e,
                                m,
                                rs[j as int].account_email,
                                rs[j as int].mailbox,
                                rs[k].account_email,
                                rs[k].mailbox,
                            );
                            lemma_key_less_total(e, m, rs[k].account_email, rs[k].mailbox);
                        } else if k == j {
                            lemma_key_less_total(e, m, rs[k].account_email, rs[k].mailbox);
                        }
                    }
                }
                let row = EmailStats {
                    account_email: rec.account_email.clone(),
                    mailbox: rec.mailbox.clone(),
                    count: 1,
                    total_size_bytes: rec.size_bytes,
                    last_fetch: Some(rec.fetched_at),
                };
                rows.insert(j, row);
            }
            assert(rows@.map_values(|s: EmailStats| s@) =~= stats_of(recs.subrange(0, i + 1)));
            i = i + 1;
        }
        assert(recs.subrange(0, i as int) =~= recs);
        proof {
            lemma_stats_of(recs);
            lemma_stats_rows_are_groups(recs);
            let view = rows@.map_values(|s: EmailStats| s@);
            assert forall|i: int| 0 <= i < rows@.len() implies (#[trigger] rows@[i]).count == group_count(
                recs,
                rows@[i].account_email@,
                rows@[i].mailbox@,
            ) && rows@[i].total_size_bytes == group_bytes(recs, rows@[i].account_email@, rows@[i].mailbox@) by {
                assert(view[i] == rows@[i]@);
            }
            assert forall|email: Seq<char>, mailbox: Seq<char>|
                #[trigger] group_count(recs, email, mailbox) > 0 implies exists|i: int|
                    0 <= i < rows@.len() && (#[trigger] rows@[i]).account_email@ == email && rows@[i].mailbox@ == mailbox by {
                let k = choose|k: int| 0 <= k < view.len() && row_for(#[trigger] view[k], email, mailbox);
                assert(view[k] == rows@[k]@);
            }
        }
        rows
    }
}

/// The run that `start_fetch_history` adds.
pub open spec fn started_run(id: usize, email: Seq<char>, mailbox: Seq<char>, at: i64) -> RunView {
    RunView {
        id,
        account_email: email,
        mailbox,
        started_at: at,
        completed_at: None,
        messages_fetched: 0,
        status: RunStatus::Running,
    }
}

/// Run `r` completed at `at`.
pub open spec fn completed_run(r: RunView, messages_fetched: u64, status: RunStatus, at: i64) -> RunView {
    RunView { completed_at: Some(at), messages_fetched, status, ..r }
}

/// What completing run `id` with `status` returns.
pub open spec fn completion_result(runs: Seq<RunView>, id: usize, status: RunStatus) -> Result<(), DatabaseError> {
    if id == 0 || id > runs.len() {
        Err(DatabaseError::UnknownRun)
    } else if status == RunStatus::Running {
        Err(DatabaseError::NotTerminal)
    } else if runs[id - 1].status != RunStatus::Running {
        Err(DatabaseError::RunFinished)
    } else {
        Ok(())
    }
}

impl Database {
    /// Records that a run over `mailbox` of `email` started at `now`, and returns its id.
    pub fn start_fetch_history(&mut self, email: &str, mailbox: &str, now: i64) -> (r: Result<usize, DatabaseError>)
        requires
            old(self).wf(),
        ensures
            final(self).wf(),
            final(self)@.records == old(self)@.records,
            old(self)@.runs.len() < usize::MAX ==> r == Ok::<usize, DatabaseError>((old(self)@.runs.len() + 1) as usize)
                && final(self)@.runs == old(self)@.runs.push(
                started_run((old(self)@.runs.len() + 1) as usize, email@, mailbox@, now),
            ),
            old(self)@.runs.len() == usize::MAX ==> r == Err::<usize, DatabaseError>(DatabaseError::Full)
                && final(self)@ == old(self)@,
            r.is_ok() ==> forall|i: int| 0 <= i < old(self)@.runs.len() ==> (#[trigger] old(self)@.runs[i]).id != r->Ok_0,
    {
        if self.runs.len() == usize::MAX {
            return Err(DatabaseError::Full);
        }
        let id = self.runs.len() + 1;
        let run = FetchRun {
            id,
            account_email: String::from_str(email),
            mailbox: String::from_str(mailbox),
            started_at: now,
            completed_at: None,
            messages_fetched: 0,
            status: RunStatus::Running,
        };
        let ghost runs = self@.runs;
        self.runs.push(run);
        assert(self@.runs =~= runs.push(started_run(id, email@, mailbox@, now)));
        assert(self@.records =~= old(self)@.records);
        Ok(id)
    }

    /// Completes run `id` at `now` with its message count and terminal status.
    /// A run is completed once: an unknown id, a non-terminal status and an
    /// already completed run are refused, and the ledger is left as it was.
    pub fn complete_fetch_history(
        &mut self,
        id: usize,
        messages_fetched: u64,
        status: RunStatus,
        now: i64,
    ) -> (r: Result<(), DatabaseError>)
        requires
            old(self).wf(),
        ensures
            final(self).wf(),
            final(self)@.records == old(self)@.records,
            r == completion_result(old(self)@.runs, id, status),
            r.is_ok() ==> final(self)@.runs == old(self)@.runs.update(
                id - 1,
                completed_run(old(self)@.runs[id - 1], messages_fetched, status, now),
            ),
            r.is_err() ==> final(self)@ == old(self)@,
    {
        if id == 0 || id > self.runs.len() {
            return Err(DatabaseError::UnknownRun);
        }
        if status == RunStatus::Running {
            return Err(DatabaseError::NotTerminal);
        }
        let k = id - 1;
        if self.runs[k].status != RunStatus::Running {
            return Err(DatabaseError::RunFinished);
        }
        let ghost runs = self@.runs;
        let run = FetchRun {
            id: self.runs[k].id,
            account_email: self.runs[k].account_email.clone(),
            mailbox: self.runs[k].mailbox.clone(),
            started_at: self.runs[k].started_at,
            completed_at: Some(now),
            messages_fetched,
            status,
        };
        self.runs.set(k, run);
        assert(self@.runs =~= runs.update(k as int, completed_run(runs[k as int], messages_fetched, status, now)));
        assert(self@.records =~= old(self)@.records);
        Ok(())
    }

    /// What the ledger reports of the run that started last, if any.
    pub fn get_latest_fetch_status(&self) -> (r: Option<FetchStatus>)
        requires
            self.wf(),
        ensures
            self@.runs.len() == 0 <==> r.is_none(),
            latest_run(self@.runs) >= 0 ==> r == Some(status_of(self@.runs[latest_run(self@.runs)])),
    {
        proof {
            lemma_latest_run(self@.runs);
        }
        let ghost runs = self@.runs;
        let mut best: Option<usize> = None;
        let mut i: usize = 0;
        assert(runs.subrange(0, 0) =~= Seq::<RunView>::empty());
        while i < self.runs.len()
            invariant
                runs == self@.runs,
                i <= self.runs@.len(),
                match best {
                    Some(b) => b < i && latest_run(runs.subrange(0, i as int)) == b as int,
                    None => i == 0 && latest_run(runs.subrange(0, i as int)) == -1,
                },
            decreases self.runs@.len() - i,
        {
            proof {
                let s = runs.subrange(0, i + 1);
                assert(s.drop_last() =~= runs.subrange(0, i as int));
                assert(s.last() == runs[i as int]);
                if let Some(b) = best {
                    assert(s[b as int] == runs[b as int]);
                }
            }
            match best {
                Some(b) => {
                    if !(self.runs[b].started_at > self.runs[i].started_at) {
                        best = Some(i);
                    }
                },
                None => {
                    best = Some(i);
                },
            }
            i = i + 1;
        }
        assert(runs.subrange(0, i as int) =~= runs);
        match best {
            Some(b) => {
                let run = &self.runs[b];
                Some(FetchStatus {
                    is_running: run.completed_at.is_none() && run.status == RunStatus::Running,
                    started_at: Some(run.started_at),
                    completed_at: run.completed_at,
                    messages_fetched: run.messages_fetched,
                    messages_total: None,
                })
            },
            None => None,
        }
    }
}

/// Writing `rec` keeps one record per message, leaves `rec` in the ledger, and
/// adds its key to the keys already present.
pub proof fn lemma_upserted(recs: Seq<MessageView>, rec: MessageView)
    requires
        keys_unique(recs),
    ensures
        keys_unique(upserted(recs, rec)),
        upserted(recs, rec).contains(rec),
        forall|email: Seq<char>, mailbox: Seq<char>, uid: u32|
            #[trigger] contains_key(upserted(recs, rec), email, mailbox, uid) <==> contains_key(
                recs,
                email,
                mailbox,
                uid,
            ) || has_key(rec, email, mailbox, uid),
{
    let u = upserted(recs, rec);
    if exists|i: int| 0 <= i < recs.len() && same_key(#[trigger] recs[i], rec) {
        let i = choose|i: int| 0 <= i < recs.len() && same_key(#[trigger] recs[i], rec);
        assert(u[i] == rec);
        assert forall|a: int, b: int| 0 <= a < u.len() && 0 <= b < u.len() && a != b implies !same_key(
            #[trigger] u[a],
            #[trigger] u[b],
        ) by {
            if a != i && b != i {
                assert(!same_key(recs[a], recs[b]));
            } else if a == i {
                assert(!same_key(recs[i], recs[b]));
            } else {
                assert(!same_key(recs[a], recs[i]));
            }
        }
        assert forall|email: Seq<char>, mailbox: Seq<char>, uid: u32|
            #[trigger] contains_key(u, email, mailbox, uid) <==> contains_key(recs, email, mailbox, uid)
                || has_key(rec, email, mailbox, uid) by {
            if contains_key(u, email, mailbox, uid) {
                let k = choose|k: int| 0 <= k < u.len() && has_key(#[trigger] u[k], email, mailbox, uid);
                if k != i {
                    assert(has_key(recs[k], email, mailbox, uid));
                }
            }
            if contains_key(recs, email, mailbox, uid) {
                let k = choose|k: int| 0 <= k < recs.len() && has_key(#[trigger] recs[k], email, mailbox, uid);
                if k != i {
                    assert(has_key(u[k], email, mailbox, uid));
                } else {
                    assert(has_key(u[i], email, mailbox, uid));
                }
            }
            if has_key(rec, email, mailbox, uid) {
                assert(has_key(u[i], email, mailbox, uid));
            }
        }
    } else {
        let n = recs.len() as int;
        assert(u[n] == rec);
        assert forall|a: int, b: int| 0 <= a < u.len() && 0 <= b < u.len() && a != b implies !same_key(
            #[trigger] u[a],
            #[trigger] u[b],
        ) by {
            if a < n && b < n {
                assert(!same_key(recs[a], recs[b]));
            } else if a < n {
                assert(!same_key(recs[a], rec));
            } else {
                assert(!same_key(recs[b], rec));
            }
        }
        assert forall|email: Seq<char>, mailbox: Seq<char>, uid: u32|
            #[trigger] contains_key(u, email, mailbox, uid) <==> contains_key(recs, email, mailbox, uid)
                || has_key(rec, email, mailbox, uid) by {
            if contains_key(u, email, mailbox, uid) {
                let k = choose|k: int| 0 <= k < u.len() && has_key(#[trigger] u[k], email, mailbox, uid);
                if k != n {
                    assert(has_key(recs[k], email, mailbox, uid));
                }
            }
            if contains_key(recs, email, mailbox, uid) {
                let k = choose|k: int| 0 <= k < recs.len() && has_key(#[trigger] recs[k], email, mailbox, uid);
                assert(has_key(u[k], email, mailbox, uid));
            }
            if has_key(rec, email, mailbox, uid) {
                assert(has_key(u[n], email, mailbox, uid));
            }
        }
    }
}

/// Marking the same message twice leaves exactly one record for it: the
/// second one written.
pub proof fn lemma_mark_twice_single_record(recs: Seq<MessageView>, first: MessageView, second: MessageView)
    requires
        keys_unique(recs),
        same_key(first, second),
    ensures
        ({
            let after = upserted(upserted(recs, first), second);
            &&& keys_unique(after)
            &&& exists|i: int|
                0 <= i < after.len() && #[trigger] after[i] == second && forall|j: int|
                    0 <= j < after.len() && same_key(#[trigger] after[j], second) ==> j == i
        }),
{
    lemma_upserted(recs, first);
    let mid = upserted(recs, first);
    lemma_upserted(mid, second);
    let after = upserted(mid, second);
    let i = choose|i: int| 0 <= i < after.len() && after[i] == second;
    assert forall|j: int| 0 <= j < after.len() && same_key(#[trigger] after[j], second) implies j == i by {
        if j != i {
            assert(!same_key(after[j], after[i]));
        }
    }
}

/// Saving a message the ledger does not hold yet adds one message and its size
/// to its own group, and changes no other group.
pub proof fn lemma_new_message_grows_group(
    recs: Seq<MessageView>,
    rec: MessageView,
    email: Seq<char>,
    mailbox: Seq<char>,
)
    requires
        !contains_key(recs, rec.account_email, rec.mailbox, rec.uid),
    ensures
        ({
            let after = upserted(recs, rec);
            let own = rec.account_email == email && rec.mailbox == mailbox;
            &&& group_count(after, email, mailbox) == group_count(recs, email, mailbox) + if own {
                1int
            } else {
                0int
            }
            &&& group_bytes(after, email, mailbox) == group_bytes(recs, email, mailbox) + if own {
                rec.size_bytes as int
            } else {
                0int
            }
        }),
{
    if exists|i: int| 0 <= i < recs.len() && same_key(#[trigger] recs[i], rec) {
        let i = choose|i: int| 0 <= i < recs.len() && same_key(#[trigger] recs[i], rec);
        assert(has_key(recs[i], rec.account_email, rec.mailbox, rec.uid));
    }
    assert(upserted(recs, rec).drop_last() =~= recs);
}

/// The global totals equal the sums over the per-(account, mailbox) rows.
pub proof fn lemma_totals_match_stats(recs: Seq<MessageView>)
    ensures
        sum_counts(stats_of(recs)) == recs.len(),
        sum_row_bytes(stats_of(recs)) == bytes_sum(recs),
{
    lemma_stats_of(recs);
}

} // verus!
