use courrier::config::{
    default_email_storage_path, default_fetch_on_startup, default_port, extract_accounts, load_config, Account,
    AccountConfig, ConfigError, ConfigFile, ServerEntry,
};
use courrier::database::{Database, FetchStatus};
use courrier::server::{group_accounts, stats_report, FetchGate, TriggerOutcome};

fn account(email: &str, user: &str) -> Account {
    Account { email: email.to_string(), username: user.to_string(), password: "pw".to_string() }
}

fn sample_file() -> ConfigFile {
    ConfigFile {
        email_storage_path: None,
        fetch_interval_seconds: Some(600),
        fetch_on_startup: None,
        servers: vec![
            ServerEntry {
                host: "imap.mail.me.com".to_string(),
                port: None,
                accounts: vec![account("one@me.com", "one"), account("two@me.com", "two")],
            },
            ServerEntry { host: "imap.gmail.com".to_string(), port: Some(1993), accounts: vec![account("g@gmail.com", "g")] },
        ],
    }
}

#[test]
fn defaults() {
    assert_eq!(default_port(), 993);
    assert_eq!(default_email_storage_path(), "emails");
    assert!(default_fetch_on_startup());
}

#[test]
fn missing_config_is_an_error() {
    match load_config("config.toml", None) {
        Err(ConfigError::NotFound { path }) => assert_eq!(path, "config.toml"),
        Ok(_) => panic!("no file, yet a configuration"),
    }
}

#[test]
fn config_defaults_are_applied() {
    let config = match load_config("config.toml", Some(sample_file())) {
        Ok(c) => c,
        Err(_) => panic!("configuration refused"),
    };
    assert_eq!(config.email_storage_path, "emails");
    assert_eq!(config.fetch_interval_seconds, Some(600));
    assert!(config.fetch_on_startup);
    assert_eq!(config.servers.len(), 2);
    assert_eq!(config.servers[0].port, 993);
    assert_eq!(config.servers[1].port, 1993);

    let mut file = sample_file();
    file.email_storage_path = Some("/var/mail".to_string());
    file.fetch_on_startup = Some(false);
    let config = match load_config("config.toml", Some(file)) {
        Ok(c) => c,
        Err(_) => panic!("configuration refused"),
    };
    assert_eq!(config.email_storage_path, "/var/mail");
    assert!(!config.fetch_on_startup);
}

#[test]
fn accounts_are_flattened_in_order() {
    let config = match load_config("c", Some(sample_file())) {
        Ok(c) => c,
        Err(_) => panic!("configuration refused"),
    };
    let accounts = extract_accounts(&config);
    assert_eq!(accounts.len(), 3);
    assert_eq!(accounts[0].email, "one@me.com");
    assert_eq!(accounts[0].username, "one");
    assert_eq!(accounts[0].password, "pw");
    assert_eq!(accounts[0].server, "imap.mail.me.com");
    assert_eq!(accounts[0].port, 993);
    assert_eq!(accounts[1].email, "two@me.com");
    assert_eq!(accounts[2].email, "g@gmail.com");
    assert_eq!(accounts[2].server, "imap.gmail.com");
    assert_eq!(accounts[2].port, 1993);
}

fn cfg(email: &str, server: &str, port: u16) -> AccountConfig {
    AccountConfig {
        email: email.to_string(),
        username: email.to_string(),
        password: "secret".to_string(),
        server: server.to_string(),
        port,
    }
}

#[test]
fn accounts_grouped_by_server() {
    let accounts = vec![
        cfg("a@x.com", "imap.x.com", 993),
        cfg("b@y.com", "imap.y.com", 993),
        cfg("c@x.com", "imap.x.com", 993),
        cfg("d@x.com", "imap.x.com", 143),
    ];
    let groups = group_accounts(&accounts);
    assert_eq!(groups.len(), 3);
    assert_eq!(groups[0].host, "imap.x.com");
    assert_eq!(groups[0].port, 993);
    assert_eq!(groups[0].accounts.len(), 2);
    assert_eq!(groups[0].accounts[0].email, "a@x.com");
    assert_eq!(groups[0].accounts[1].email, "c@x.com");
    assert_eq!(groups[1].host, "imap.y.com");
    assert_eq!(groups[2].port, 143);
    assert_eq!(groups[2].accounts[0].email, "d@x.com");
    assert!(group_accounts(&vec![]).is_empty());
}

#[test]
fn stats_listing() {
    let mut db = Database::new();
    db.mark_email_fetched("a@x.com", "INBOX", 1, "p", 10, 1).unwrap();
    db.mark_email_fetched("a@x.com", "INBOX", 2, "p", 15, 2).unwrap();
    let report = stats_report(&db, &vec![cfg("a@x.com", "imap.x.com", 993)]);
    assert_eq!(report.total_emails, 2);
    assert_eq!(report.total_storage_bytes, 25);
    assert_eq!(report.per_account_stats.len(), 1);
    assert_eq!(report.per_account_stats[0].count, 2);
    assert_eq!(report.accounts.len(), 1);
}

#[test]
fn second_trigger_is_refused_while_running() {
    let mut gate = FetchGate::new();
    assert!(!gate.is_running());
    assert_eq!(gate.trigger(true), TriggerOutcome::Started);
    assert_eq!(gate.trigger(false), TriggerOutcome::AlreadyRunning);
    assert!(gate.is_running());
    let report = gate.status(false, None);
    assert!(report.is_running);
    assert_eq!(gate.trigger(false), TriggerOutcome::AlreadyRunning);
    let report = gate.status(true, None);
    assert!(!report.is_running);
    assert!(!gate.is_running());
    assert_eq!(gate.trigger(true), TriggerOutcome::Started);
}

#[test]
fn finished_run_does_not_block_next_trigger() {
    let mut gate = FetchGate::new();
    assert_eq!(gate.trigger(true), TriggerOutcome::Started);
    // The run's work ended, and no status query came in between.
    assert_eq!(gate.trigger(true), TriggerOutcome::Started);
    assert!(gate.is_running());
    assert_eq!(gate.trigger(false), TriggerOutcome::AlreadyRunning);
}

fn latest(running: bool) -> Option<FetchStatus> {
    Some(FetchStatus {
        is_running: running,
        started_at: Some(100),
        completed_at: if running { None } else { Some(200) },
        messages_fetched: 6,
        messages_total: None,
    })
}

#[test]
fn status_reports() {
    let mut gate = FetchGate::new();
    let idle = gate.status(false, None);
    assert!(!idle.is_running);
    assert_eq!(idle.started_at, None);
    assert_eq!(idle.completed_at, None);
    assert_eq!(idle.messages_fetched, 0);

    let history = gate.status(false, latest(false));
    assert!(!history.is_running);
    assert_eq!(history.started_at, Some(100));
    assert_eq!(history.completed_at, Some(200));
    assert_eq!(history.messages_fetched, 6);

    gate.trigger(true);
    let active = gate.status(false, latest(true));
    assert!(active.is_running);
    assert_eq!(active.started_at, Some(100));
    assert_eq!(active.completed_at, None);
    assert_eq!(active.messages_fetched, 6);
    assert!(gate.is_running());

    let done = gate.status(true, latest(false));
    assert!(!done.is_running);
    assert_eq!(done.completed_at, Some(200));
    assert!(!gate.is_running());
}
