use courrier::database::{Database, DatabaseError, RunStatus};
use courrier::fetcher::{uids_to_fetch, MailboxSync};

#[test]
fn new_uids_update_stats() {
    let mut db = Database::new();
    for uid in 1..=3u32 {
        let path = format!("emails/a_x.com/INBOX/{}.eml", uid);
        db.mark_email_fetched("a@x.com", "INBOX", uid, &path, 10, 1000).unwrap();
    }
    let before = db.get_stats();
    assert_eq!(before.len(), 1);
    assert_eq!(before[0].count, 3);
    assert_eq!(before[0].total_size_bytes, 30);

    let server = vec![1, 2, 3, 4, 5];
    let known = db.get_fetched_uids("a@x.com", "INBOX");
    assert_eq!(uids_to_fetch(&server, &known), vec![4, 5]);

    let mut sync = MailboxSync::plan(&server, &known);
    assert_eq!(sync.next_uid(), Some(4));
    sync.record_saved(&mut db, "a@x.com", "INBOX", "emails/a_x.com/INBOX/4.eml", 120, 2000).unwrap();
    assert_eq!(sync.next_uid(), Some(5));
    sync.record_saved(&mut db, "a@x.com", "INBOX", "emails/a_x.com/INBOX/5.eml", 345, 3000).unwrap();
    assert_eq!(sync.next_uid(), None);
    let summary = sync.summary();
    assert_eq!(summary.saved, 2);
    assert_eq!(summary.failed, 0);

    let after = db.get_stats();
    assert_eq!(after.len(), 1);
    assert_eq!(after[0].count, before[0].count + 2);
    assert_eq!(after[0].total_size_bytes, before[0].total_size_bytes + 120 + 345);
    assert_eq!(after[0].last_fetch, Some(3000));
}

#[test]
fn second_sync_saves_nothing() {
    let mut db = Database::new();
    let server = vec![7, 3, 9];
    let known = db.get_fetched_uids("b@y.org", "Junk");
    let mut sync = MailboxSync::plan(&server, &known);
    while let Some(uid) = sync.next_uid() {
        let path = format!("root/b_y.org/Junk/{}.eml", uid);
        sync.record_saved(&mut db, "b@y.org", "Junk", &path, 5, 1).unwrap();
    }
    assert_eq!(sync.summary().saved, 3);

    let known = db.get_fetched_uids("b@y.org", "Junk");
    let again = MailboxSync::plan(&server, &known);
    assert!(again.pending().is_empty());
    assert_eq!(again.next_uid(), None);
    assert_eq!(again.summary().saved, 0);
    assert_eq!(again.summary().failed, 0);
}

#[test]
fn fetch_keeps_server_order_and_skips_known() {
    assert_eq!(uids_to_fetch(&vec![5, 1, 3, 8], &vec![1, 8]), vec![5, 3]);
    assert_eq!(uids_to_fetch(&vec![], &vec![1, 2]), Vec::<u32>::new());
    assert_eq!(uids_to_fetch(&vec![2, 4], &vec![]), vec![2, 4]);
    assert_eq!(uids_to_fetch(&vec![1, 2], &vec![2, 1]), Vec::<u32>::new());
}

#[test]
fn dedup_is_per_account_and_mailbox() {
    let mut db = Database::new();
    db.mark_email_fetched("a@x.com", "INBOX", 1, "a.eml", 1, 1).unwrap();
    db.mark_email_fetched("a@x.com", "Junk", 2, "b.eml", 1, 1).unwrap();
    db.mark_email_fetched("c@x.com", "INBOX", 3, "c.eml", 1, 1).unwrap();
    assert_eq!(db.get_fetched_uids("a@x.com", "INBOX"), vec![1]);
    assert_eq!(uids_to_fetch(&vec![1, 2, 3], &db.get_fetched_uids("a@x.com", "INBOX")), vec![2, 3]);
    assert!(db.is_email_fetched("a@x.com", "Junk", 2));
    assert!(!db.is_email_fetched("a@x.com", "INBOX", 2));
    assert!(!db.is_email_fetched("a@x.org", "INBOX", 1));
}

#[test]
fn marking_twice_keeps_one_record() {
    let mut db = Database::new();
    db.mark_email_fetched("a@x.com", "INBOX", 9, "old.eml", 100, 10).unwrap();
    db.mark_email_fetched("a@x.com", "INBOX", 9, "new.eml", 40, 20).unwrap();
    assert_eq!(db.get_fetched_uids("a@x.com", "INBOX"), vec![9]);
    assert_eq!(db.get_total_stats(), (1, 40));
    let stats = db.get_stats();
    assert_eq!(stats.len(), 1);
    assert_eq!(stats[0].count, 1);
    assert_eq!(stats[0].total_size_bytes, 40);
}

#[test]
fn totals_equal_sum_of_rows() {
    let mut db = Database::new();
    db.mark_email_fetched("a@x.com", "INBOX", 1, "p", 10, 5).unwrap();
    db.mark_email_fetched("b@x.com", "INBOX", 1, "p", 20, 6).unwrap();
    db.mark_email_fetched("a@x.com", "Sent", 4, "p", 30, 7).unwrap();
    db.mark_email_fetched("a@x.com", "INBOX", 2, "p", 40, 4).unwrap();
    db.mark_email_fetched("b@x.com", "INBOX", 1, "p", 25, 8).unwrap();
    let stats = db.get_stats();
    assert_eq!(stats.len(), 3);
    let count: usize = stats.iter().map(|s| s.count).sum();
    let bytes: u64 = stats.iter().map(|s| s.total_size_bytes).sum();
    assert_eq!(db.get_total_stats(), (count, bytes));
    assert_eq!(db.get_total_stats(), (4, 10 + 25 + 30 + 40));
    assert_eq!(stats[0].account_email, "a@x.com");
    assert_eq!(stats[0].mailbox, "INBOX");
    assert_eq!(stats[0].count, 2);
    assert_eq!(stats[0].total_size_bytes, 50);
    assert_eq!(stats[0].last_fetch, Some(5));
    assert_eq!(stats[1].account_email, "a@x.com");
    assert_eq!(stats[1].mailbox, "Sent");
    assert_eq!(stats[2].account_email, "b@x.com");
    assert_eq!(stats[2].total_size_bytes, 25);
}

#[test]
fn empty_ledger_has_no_stats() {
    let db = Database::new();
    assert!(db.get_stats().is_empty());
    assert_eq!(db.get_total_stats(), (0, 0));
    assert!(db.get_latest_fetch_status().is_none());
    assert!(db.get_fetched_uids("a@x.com", "INBOX").is_empty());
}

#[test]
fn byte_total_overflow_is_refused() {
    let mut db = Database::new();
    db.mark_email_fetched("a@x.com", "INBOX", 1, "p", u64::MAX, 1).unwrap();
    assert_eq!(db.mark_email_fetched("a@x.com", "INBOX", 2, "p", 1, 1), Err(DatabaseError::Full));
    assert_eq!(db.get_total_stats(), (1, u64::MAX));
    // Replacing the record itself frees its bytes.
    db.mark_email_fetched("a@x.com", "INBOX", 1, "p", 3, 2).unwrap();
    assert_eq!(db.get_total_stats(), (1, 3));
}

#[test]
fn ledger_refusal_counts_as_failed() {
    let mut db = Database::new();
    db.mark_email_fetched("a@x.com", "INBOX", 1, "p", u64::MAX, 1).unwrap();
    let mut sync = MailboxSync::plan(&vec![1, 2, 3], &db.get_fetched_uids("a@x.com", "INBOX"));
    assert_eq!(sync.record_saved(&mut db, "a@x.com", "INBOX", "b.eml", 1, 2), Err(DatabaseError::Full));
    sync.record_failure();
    let summary = sync.summary();
    assert_eq!(summary.saved, 0);
    assert_eq!(summary.failed, 2);
    assert_eq!(sync.next_uid(), None);
}

#[test]
fn run_history_lifecycle() {
    let mut db = Database::new();
    let id = db.start_fetch_history("a@x.com", "INBOX", 100).unwrap();
    assert_eq!(id, 1);
    let s = db.get_latest_fetch_status().unwrap();
    assert!(s.is_running);
    assert_eq!(s.started_at, Some(100));
    assert_eq!(s.completed_at, None);
    assert_eq!(s.messages_fetched, 0);
    assert_eq!(s.messages_total, None);

    db.complete_fetch_history(id, 7, RunStatus::Completed, 150).unwrap();
    let s = db.get_latest_fetch_status().unwrap();
    assert!(!s.is_running);
    assert_eq!(s.completed_at, Some(150));
    assert_eq!(s.messages_fetched, 7);

    assert_eq!(db.complete_fetch_history(id, 9, RunStatus::Failed, 160), Err(DatabaseError::RunFinished));
    assert_eq!(db.complete_fetch_history(0, 9, RunStatus::Failed, 160), Err(DatabaseError::UnknownRun));
    assert_eq!(db.complete_fetch_history(2, 9, RunStatus::Failed, 160), Err(DatabaseError::UnknownRun));
    let id2 = db.start_fetch_history("a@x.com", "Junk", 200).unwrap();
    assert_eq!(id2, 2);
    assert_eq!(db.complete_fetch_history(id2, 1, RunStatus::Running, 210), Err(DatabaseError::NotTerminal));
    db.complete_fetch_history(id2, 0, RunStatus::Failed, 220).unwrap();
    let s = db.get_latest_fetch_status().unwrap();
    assert_eq!(s.started_at, Some(200));
    assert!(!s.is_running);
    assert_eq!(s.messages_fetched, 0);
}

#[test]
fn latest_run_is_by_start_time() {
    let mut db = Database::new();
    db.start_fetch_history("a@x.com", "INBOX", 500).unwrap();
    db.start_fetch_history("a@x.com", "Junk", 300).unwrap();
    assert_eq!(db.get_latest_fetch_status().unwrap().started_at, Some(500));
    db.start_fetch_history("b@x.com", "INBOX", 500).unwrap();
    let id = 3;
    db.complete_fetch_history(id, 4, RunStatus::Completed, 600).unwrap();
    let s = db.get_latest_fetch_status().unwrap();
    assert_eq!(s.messages_fetched, 4);
}

#[test]
fn stats_rows_sorted_by_account_then_mailbox() {
    let mut db = Database::new();
    db.mark_email_fetched("zed@x.com", "INBOX", 1, "f", 1, 1).unwrap();
    db.mark_email_fetched("amy@x.com", "Sent", 1, "f", 2, 1).unwrap();
    db.mark_email_fetched("amy@x.com", "Archive", 1, "f", 3, 1).unwrap();
    db.mark_email_fetched("Bob@x.com", "INBOX", 1, "f", 4, 1).unwrap();
    db.mark_email_fetched("amy@x.com", "Sent", 2, "f", 5, 1).unwrap();
    db.mark_email_fetched("amy", "INBOX", 1, "f", 6, 1).unwrap();
    let keys: Vec<(String, String)> =
        db.get_stats().into_iter().map(|s| (s.account_email, s.mailbox)).collect();
    let expected: Vec<(String, String)> = vec![
        ("Bob@x.com", "INBOX"),
        ("amy", "INBOX"),
        ("amy@x.com", "Archive"),
        ("amy@x.com", "Sent"),
        ("zed@x.com", "INBOX"),
    ]
    .into_iter()
    .map(|(a, b)| (a.to_string(), b.to_string()))
    .collect();
    assert_eq!(keys, expected);
    let stats = db.get_stats();
    assert_eq!(stats[3].count, 2);
    assert_eq!(stats[3].total_size_bytes, 7);
}

#[test]
fn new_run_ids_are_fresh() {
    let mut db = Database::new();
    let a = db.start_fetch_history("a@x.com", "INBOX", 1).unwrap();
    let b = db.start_fetch_history("a@x.com", "INBOX", 1).unwrap();
    let c = db.start_fetch_history("b@x.com", "Junk", 2).unwrap();
    assert_eq!((a, b, c), (1, 2, 3));
}
