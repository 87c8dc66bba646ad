//! The configuration: servers, their accounts, and the archive settings.

use vstd::prelude::*;
use vstd::string::*;

verus! {

/// One account, with the server it lives on.
pub struct AccountConfig {
    pub email: String,
    pub username: String,
    pub password: String,
    pub server: String,
    pub port: u16,
}

/// An account as listed under its server.
pub struct Account {
    pub email: String,
    pub username: String,
    pub password: String,
}

/// A server and its accounts.
pub struct ServerConfig {
    pub host: String,
    pub port: u16,
    pub accounts: Vec<Account>,
}

/// The configuration, with every default applied.
pub struct AppConfig {
    pub email_storage_path: String,
    pub fetch_interval_seconds: Option<u64>,
    pub fetch_on_startup: bool,
    pub servers: Vec<ServerConfig>,
}

/// A server as the configuration file states it: the port may be left out.
pub struct ServerEntry {
    pub host: String,
    pub port: Option<u16>,
    pub accounts: Vec<Account>,
}

/// The configuration as the file states it, before defaults are applied.
pub struct ConfigFile {
    pub email_storage_path: Option<String>,
    pub fetch_interval_seconds: Option<u64>,
    pub fetch_on_startup: Option<bool>,
    pub servers: Vec<ServerEntry>,
}

/// Why no configuration could be loaded.
pub enum ConfigError {
    /// There is no configuration file at `path`.
    NotFound { path: String },
}

/// The port of a server whose entry gives none.
pub fn default_port() -> (r: u16)
    ensures
        r == 993,
{
    993
}

/// The archive directory when the configuration names none.
pub fn default_email_storage_path() -> (r: String)
    ensures
        r@ == "emails"@,
{
    String::from_str("emails")
}

/// Whether to fetch at startup when the configuration does not say.
pub fn default_fetch_on_startup() -> (r: bool)
    ensures
        r,
{
    true
}

/// A copy of `a`.
fn copy_account(a: &Account) -> (r: Account)
    ensures
        r == *a,
{
    Account { email: a.email.clone(), username: a.username.clone(), password: a.password.clone() }
}

/// A copy of `v`.
fn copy_accounts(v: &Vec<Account>) -> (r: Vec<Account>)
    ensures
        r@ == v@,
{
    let mut out: Vec<Account> = Vec::new();
    let mut i: usize = 0;
    while i < v.len()
        invariant
            i <= v@.len(),
            out@ == v@.subrange(0, i as int),
        decreases v@.len() - i,
    {
        out.push(copy_account(&v[i]));
        assert(out@ =~= v@.subrange(0, i + 1));
        i = i + 1;
    }
    assert(v@.subrange(0, i as int) =~= v@);
    out
}

/// Whether `s` is `e` with its port defaulted.
pub open spec fn server_with_default(s: ServerConfig, e: ServerEntry) -> bool {
    &&& s.host == e.host
    &&& s.port == match e.port {
        Some(p) => p,
        None => 993u16,
    }
    &&& s.accounts@ == e.accounts@
}

/// The configuration loaded from the file found at `path`: `file` is `None`
/// when there is none, which is an error. Every setting the file leaves out
/// takes its default: port 993, the archive in "emails", fetch at startup.
pub fn load_config(path: &str, file: Option<ConfigFile>) -> (r: Result<AppConfig, ConfigError>)
    ensures
        file.is_none() <==> r.is_err(),
        match r {
            Err(ConfigError::NotFound { path: p }) => p@ == path@,
            Ok(c) => {
                let f = file->Some_0;
                &&& c.email_storage_path@ == match f.email_storage_path {
                    Some(p) => p@,
                    None => "emails"@,
                }
                &&& c.fetch_interval_seconds == f.fetch_interval_seconds
                &&& c.fetch_on_startup == match f.fetch_on_startup {
                    Some(b) => b,
                    None => true,
                }
                &&& c.servers@.len() == f.servers@.len()
                &&& forall|i: int|
                    0 <= i < c.servers@.len() ==> server_with_default(
                        #[trigger] c.servers@[i],
                        f.servers@[i],
                    )
            },
        },
{
    match file {
        None => Err(ConfigError::NotFound { path: String::from_str(path) }),
        Some(f) => {
            let email_storage_path = match f.email_storage_path {
                Some(p) => p,
                None => default_email_storage_path(),
            };
            let fetch_on_startup = match f.fetch_on_startup {
                Some(b) => b,
                None => default_fetch_on_startup(),
            };
            let mut servers: Vec<ServerConfig> = Vec::new();
            let mut i: usize = 0;
            while i < f.servers.len()
                invariant
                    i <= f.servers@.len(),
                    servers@.len() == i,
                    forall|k: int| 0 <= k < i ==> server_with_default(#[trigger] servers@[k], f.servers@[k]),
                decreases f.servers@.len() - i,
            {
                let e = &f.servers[i];
                let port = match e.port {
                    Some(p) => p,
                    None => default_port(),
                };
                servers.push(ServerConfig { host: e.host.clone(), port, accounts: copy_accounts(&e.accounts) });
                i = i + 1;
            }
            Ok(
                AppConfig {
                    email_storage_path,
                    fetch_interval_seconds: f.fetch_interval_seconds,
                    fetch_on_startup,
                    servers,
                },
            )
        },
    }
}

/// The accounts of server `s`, each with the server's host and port.
pub open spec fn server_accounts(s: ServerConfig) -> Seq<AccountConfig> {
    s.accounts@.map_values(
        |a: Account|
            AccountConfig {
                email: a.email,
                username: a.username,
                password: a.password,
                server: s.host,
                port: s.port,
            },
    )
}

/// The accounts of all servers, server by server, in configuration order.
pub open spec fn all_accounts(servers: Seq<ServerConfig>) -> Seq<AccountConfig>
    decreases servers.len(),
{
    if servers.len() == 0 {
        Seq::empty()
    } else {
        all_accounts(servers.drop_last()) + server_accounts(servers.last())
    }
}

/// Every configured account, with the host and port of its server.
pub fn extract_accounts(config: &AppConfig) -> (r: Vec<AccountConfig>)
    ensures
        r@ == all_accounts(config.servers@),
{
    let ghost servers = config.servers@;
    let mut out: Vec<AccountConfig> = Vec::new();
    let mut i: usize = 0;
    assert(servers.subrange(0, 0) =~= Seq::<ServerConfig>::empty());
    while i < config.servers.len()
        invariant
            servers == config.servers@,
            i <= servers.len(),
            out@ == all_accounts(servers.subrange(0, i as int)),
        decreases servers.len() - i,
    {
        let server = &config.servers[i];
        let ghost base = out@;
        let mut j: usize = 0;
        while j < server.accounts.len()
            invariant
                j <= server.accounts@.len(),
                out@ == base + server_accounts(*server).subrange(0, j as int),
            decreases server.accounts@.len() - j,
        {
            let a = &server.accounts[j];
            out.push(
                AccountConfig {
                    email: a.email.clone(),
                    username: a.username.clone(),
                    password: a.password.clone(),
                    server: server.host.clone(),
                    port: server.port,
                },
            );
            assert(out@ =~= base + server_accounts(*server).subrange(0, j + 1));
            j = j + 1;
        }
        assert(server_accounts(*server).subrange(0, j as int) =~= server_accounts(*server));
        assert(servers.subrange(0, i + 1).drop_last() =~= servers.subrange(0, i as int));
        i = i + 1;
    }
    assert(servers.subrange(0, i as int) =~= servers);
    out
}

} // verus!
