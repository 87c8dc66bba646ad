use courrier::database::RunStatus;
use courrier::fetcher::{
    aborts_account, after_full_fetch, after_peek, mailbox_dir, message_path, retry_username, run_completion, AuthError,
    BodyStep, FetchError, FetchReply, LoginAttempts, SyncError, SyncSummary,
};

#[test]
fn peek_body_is_used() {
    match after_peek(FetchReply::Body(vec![1, 2, 3])) {
        BodyStep::Use(b) => assert_eq!(b, vec![1, 2, 3]),
        BodyStep::FetchFull => panic!("peek body ignored"),
    }
}

#[test]
fn failed_peek_falls_back_to_full_fetch() {
    assert!(matches!(after_peek(FetchReply::Failed("timeout".to_string())), BodyStep::FetchFull));
    assert!(matches!(after_peek(FetchReply::NoBody), BodyStep::FetchFull));
    assert!(matches!(after_peek(FetchReply::NoMessage), BodyStep::FetchFull));
    match after_full_fetch(12, FetchReply::Body(b"From: a\r\n\r\nhi".to_vec())) {
        Ok(body) => assert_eq!(body, b"From: a\r\n\r\nhi".to_vec()),
        Err(_) => panic!("full fetch body ignored"),
    }
}

#[test]
fn full_fetch_errors_are_distinguished() {
    assert!(matches!(after_full_fetch(3, FetchReply::NoBody), Err(FetchError::NoBody { uid: 3 })));
    assert!(matches!(after_full_fetch(4, FetchReply::NoMessage), Err(FetchError::NoMessage { uid: 4 })));
    match after_full_fetch(5, FetchReply::Failed("bad".to_string())) {
        Err(FetchError::CallFailed { uid, reason }) => {
            assert_eq!(uid, 5);
            assert_eq!(reason, "bad");
        }
        _ => panic!("call failure not reported"),
    }
}

#[test]
fn archive_layout() {
    assert_eq!(mailbox_dir("emails", "a@x.com", "INBOX"), "emails/a_x.com/INBOX");
    assert_eq!(message_path("emails", "a@x.com", "INBOX", 42), "emails/a_x.com/INBOX/42.eml");
    assert_eq!(message_path("/srv/mail", "a@b@c", "Junk", 0), "/srv/mail/a_b_c/Junk/0.eml");
    assert_eq!(message_path("r", "plain", "[Gmail]/All Mail", 4294967295), "r/plain/[Gmail]/All Mail/4294967295.eml");
    assert_eq!(message_path("r", "é@ü", "Boîte", 1000), "r/é_ü/Boîte/1000.eml");
}

#[test]
fn provider_retry_uses_local_part() {
    let mut attempts = LoginAttempts::plan("imap.gmail.com", "a@x.com");
    assert_eq!(attempts.next_username(), Some("a@x.com".to_string()));
    attempts.record_failure("rejected".to_string());
    assert_eq!(attempts.next_username(), Some("a".to_string()));
    attempts.record_failure("rejected again".to_string());
    assert_eq!(attempts.next_username(), None);
    let err = attempts.into_error();
    assert_eq!(err.failures.len(), 2);
    assert_eq!(err.failures[0].username, "a@x.com");
    assert_eq!(err.failures[0].reason, "rejected");
    assert_eq!(err.failures[1].username, "a");
    assert_eq!(err.failures[1].reason, "rejected again");
}

#[test]
fn other_hosts_get_one_attempt() {
    let mut attempts = LoginAttempts::plan("imap.mail.me.com", "a@x.com");
    assert_eq!(attempts.next_username(), Some("a@x.com".to_string()));
    attempts.record_failure("no".to_string());
    assert_eq!(attempts.next_username(), None);
    let err = attempts.into_error();
    assert_eq!(err.failures.len(), 1);
    assert_eq!(err.failures[0].username, "a@x.com");

    let mut plain = LoginAttempts::plan("imap.gmail.com", "alice");
    assert_eq!(plain.next_username(), Some("alice".to_string()));
    plain.record_failure("no".to_string());
    assert_eq!(plain.next_username(), None);
}

#[test]
fn retry_username_forms() {
    assert_eq!(retry_username("imap.gmail.com", "a@x.com"), Some("a".to_string()));
    assert_eq!(retry_username("imap.gmail.com", "@x.com"), Some("".to_string()));
    assert_eq!(retry_username("imap.gmail.com", "a@b@c"), Some("a".to_string()));
    assert_eq!(retry_username("imap.gmail.com", "a"), None);
    assert_eq!(retry_username("imap.gmail.co", "a@x.com"), None);
    assert_eq!(retry_username("IMAP.GMAIL.COM", "a@x.com"), None);
}

#[test]
fn connection_and_login_failures_end_the_account() {
    assert!(aborts_account(&SyncError::Transport("refused".to_string())));
    assert!(aborts_account(&SyncError::Auth(AuthError { failures: vec![] })));
    assert!(!aborts_account(&SyncError::Protocol("no such mailbox".to_string())));
    assert!(!aborts_account(&SyncError::Persistence("read-only".to_string())));
}

#[test]
fn run_records_follow_the_mailbox_result() {
    assert_eq!(run_completion(&Ok(SyncSummary { saved: 4, failed: 1 })), (4, RunStatus::Completed));
    assert_eq!(run_completion(&Ok(SyncSummary { saved: 0, failed: 0 })), (0, RunStatus::Completed));
    assert_eq!(run_completion(&Err(SyncError::Protocol("x".to_string()))), (0, RunStatus::Failed));
}
