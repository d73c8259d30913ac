//! The configuration: its defaults, its secrets, and what command-line flags
//! change in it.
//!
//! Precedence is flag or environment variable, then configuration file, then
//! built-in default. Secrets can live in the file or, preferably, be read from
//! the environment.
use crate::deep::{deep_ports, lemma_contains_push, lemma_deep_push, Dup};
use crate::discovery::{normalized, Credentials, CredentialsV};
use crate::hive::{
    fresh_hive, is_hive_id, valid_hive_id, Hive, HiveV, DEFAULT_DROP_AFTER,
};
use crate::logging::archive::Rotation;
use crate::logging::Truncate;
use crate::table::Table;
use vstd::prelude::*;
use vstd::string::*;

verus! {

broadcast use deep_ports;

/// Query-log output format.
#[derive(Debug, Clone, Copy, PartialEq, Eq, Structural)]
pub enum LogFormat {
    Jsonl,
}

impl Default for LogFormat {
    fn default() -> (r: Self)
        ensures
            r == LogFormat::Jsonl,
    {
        LogFormat::Jsonl
    }
}

/// An interface address to listen on.
#[derive(Debug, Clone, Copy, PartialEq, Eq, Structural)]
pub enum BindAddr {
    V4(u8, u8, u8, u8),
    V6(u128),
}

/// Whether an address reaches this machine only.
pub open spec fn is_own(a: BindAddr) -> bool {
    match a {
        BindAddr::V4(first, _, _, _) => first == 127,
        BindAddr::V6(bits) => bits == 1,
    }
}

/// Whether a hive that listens on an address and asks for a key can be used by anyone.
pub open spec fn exposed(a: BindAddr, api_key: Seq<char>) -> bool {
    api_key.len() == 0 && !is_own(a)
}

impl BindAddr {
    /// Whether the address reaches this machine only: `127.0.0.0/8` or `::1`.
    pub fn is_loopback(&self) -> (r: bool)
        ensures
            r == (match *self {
                BindAddr::V4(a, _, _, _) => a == 127,
                BindAddr::V6(bits) => bits == 1,
            }),
            r == is_own(*self),
    {
        match *self {
            BindAddr::V4(a, _, _, _) => a == 127,
            BindAddr::V6(bits) => bits == 1,
        }
    }
}

/// A backend URL (or URL prefix) and the key to send it.
#[derive(Debug, Clone, PartialEq)]
pub struct Credential {
    pub url: String,
    pub api_key: Option<String>,
    pub api_key_env: Option<String>,
}

/// What a [`Credential`] stands for.
pub struct CredentialV {
    pub url: Seq<char>,
    pub api_key: Option<Seq<char>>,
    pub api_key_env: Option<Seq<char>>,
}

impl DeepView for Credential {
    type V = CredentialV;

    open spec fn deep_view(&self) -> CredentialV {
        CredentialV {
            url: self.url@,
            api_key: self.api_key.deep_view(),
            api_key_env: self.api_key_env.deep_view(),
        }
    }
}

/// A static backend: a bare URL, or a URL with its API key.
#[derive(Debug, Clone, PartialEq)]
pub enum StaticBackend {
    Url(String),
    WithKey(Credential),
}

/// What a [`StaticBackend`] stands for.
pub enum BackendV {
    Url(Seq<char>),
    WithKey(CredentialV),
}

impl DeepView for StaticBackend {
    type V = BackendV;

    open spec fn deep_view(&self) -> BackendV {
        match self {
            StaticBackend::Url(u) => BackendV::Url(u@),
            StaticBackend::WithKey(c) => BackendV::WithKey(c.deep_view()),
        }
    }
}

/// The URL of a static backend.
pub open spec fn backend_url(b: BackendV) -> Seq<char> {
    match b {
        BackendV::Url(u) => u,
        BackendV::WithKey(c) => c.url,
    }
}

impl StaticBackend {
    /// The URL.
    pub fn url(&self) -> (r: &str)
        ensures
            r@ == backend_url(self.deep_view()),
    {
        match self {
            StaticBackend::Url(u) => u.as_str(),
            StaticBackend::WithKey(c) => c.url.as_str(),
        }
    }
}

/// How the hive itself is served.
#[derive(Debug, Clone, PartialEq)]
pub struct Server {
    pub port: u16,
    pub bind: BindAddr,
    /// Instance id; random per process when unset.
    pub hive_id: Option<String>,
    /// Key that clients must send; unset = open.
    pub api_key: Option<String>,
    /// Environment variable that holds that key (instead of `api_key`).
    pub api_key_env: Option<String>,
    /// `local`, `*`, a comma-separated origin list, or nothing (disabled).
    pub cors_origin: String,
    pub max_body_mb: usize,
}

/// What a [`Server`] stands for.
pub struct ServerV {
    pub port: u16,
    pub bind: BindAddr,
    pub hive_id: Option<Seq<char>>,
    pub api_key: Option<Seq<char>>,
    pub api_key_env: Option<Seq<char>>,
    pub cors_origin: Seq<char>,
    pub max_body_mb: usize,
}

impl View for Server {
    type V = ServerV;

    open spec fn view(&self) -> ServerV {
        ServerV {
            port: self.port,
            bind: self.bind,
            hive_id: self.hive_id.deep_view(),
            api_key: self.api_key.deep_view(),
            api_key_env: self.api_key_env.deep_view(),
            cors_origin: self.cors_origin@,
            max_body_mb: self.max_body_mb,
        }
    }
}

/// The defaults of [`Server`].
pub open spec fn default_server() -> ServerV {
    ServerV {
        port: 8335,
        bind: BindAddr::V4(127, 0, 0, 1),
        hive_id: None,
        api_key: None,
        api_key_env: None,
        cors_origin: "local"@,
        max_body_mb: 64,
    }
}

impl Default for Server {
    fn default() -> (r: Self)
        ensures
            r@ == default_server(),
    {
        Server {
            port: 8335,
            bind: BindAddr::V4(127, 0, 0, 1),
            hive_id: None,
            api_key: None,
            api_key_env: None,
            cors_origin: "local".to_owned(),
            max_body_mb: 64,
        }
    }
}

/// Where backends are looked for.
#[derive(Debug, Clone, PartialEq)]
pub struct Discovery {
    pub extra_ports: Vec<u16>,
    pub static_backends: Vec<StaticBackend>,
    /// Docker Engine socket; empty = container discovery disabled.
    pub docker_socket: String,
    pub scan_interval: u64,
    pub drop_after: u32,
}

/// What a [`Discovery`] stands for.
pub struct DiscoveryV {
    pub extra_ports: Seq<u16>,
    pub static_backends: Seq<BackendV>,
    pub docker_socket: Seq<char>,
    pub scan_interval: u64,
    pub drop_after: u32,
}

impl View for Discovery {
    type V = DiscoveryV;

    open spec fn view(&self) -> DiscoveryV {
        DiscoveryV {
            extra_ports: self.extra_ports@,
            static_backends: self.static_backends.deep_view(),
            docker_socket: self.docker_socket@,
            scan_interval: self.scan_interval,
            drop_after: self.drop_after,
        }
    }
}

/// The defaults of [`Discovery`].
pub open spec fn default_discovery() -> DiscoveryV {
    DiscoveryV {
        extra_ports: Seq::empty(),
        static_backends: Seq::empty(),
        docker_socket: Seq::empty(),
        scan_interval: 30,
        drop_after: DEFAULT_DROP_AFTER,
    }
}

impl Default for Discovery {
    fn default() -> (r: Self)
        ensures
            r@ == default_discovery(),
    {
        let r = Discovery {
            extra_ports: Vec::new(),
            static_backends: Vec::new(),
            docker_socket: String::new(),
            scan_interval: 30,
            drop_after: DEFAULT_DROP_AFTER,
        };
        proof {
            assert(r@.static_backends =~= Seq::empty());
        }
        r
    }
}

/// How requests are routed.
#[derive(Debug, Clone, Copy, PartialEq, Eq, Structural)]
pub struct Routing {
    pub load_interval: u64,
    pub connect_timeout: u64,
    /// 0 = no read timeout.
    pub read_timeout: u64,
    pub forward_auth: bool,
}

/// The defaults of [`Routing`].
pub open spec fn default_routing() -> Routing {
    Routing { load_interval: 5, connect_timeout: 5, read_timeout: 600, forward_auth: false }
}

impl Default for Routing {
    fn default() -> (r: Self)
        ensures
            r == (Routing {
                load_interval: 5,
                connect_timeout: 5,
                read_timeout: 600,
                forward_auth: false,
            }),
            r == default_routing(),
    {
        Routing { load_interval: 5, connect_timeout: 5, read_timeout: 600, forward_auth: false }
    }
}

/// The longest silence tolerated, in seconds; zero is no limit.
pub open spec fn silence(read_timeout: u64) -> Option<u64> {
    if read_timeout > 0 {
        Some(read_timeout)
    } else {
        None
    }
}

impl Routing {
    /// The longest silence tolerated from a backend, in seconds.
    pub fn read_limit(&self) -> (r: Option<u64>)
        ensures
            r == (if self.read_timeout > 0 {
                Some(self.read_timeout)
            } else {
                None
            }),
            r == silence(self.read_timeout),
    {
        if self.read_timeout > 0 {
            Some(self.read_timeout)
        } else {
            None
        }
    }
}

/// How queries are logged.
#[derive(Debug, Clone, PartialEq)]
pub struct Log {
    /// Empty = no query logging.
    pub file: String,
    pub format: LogFormat,
    pub truncate: Truncate,
    pub max_chars: usize,
    pub max_mb: u64,
    pub keep: usize,
    pub compress: bool,
}

/// What a [`Log`] stands for.
pub struct LogV {
    pub file: Seq<char>,
    pub format: LogFormat,
    pub truncate: Truncate,
    pub max_chars: usize,
    pub max_mb: u64,
    pub keep: usize,
    pub compress: bool,
}

impl View for Log {
    type V = LogV;

    open spec fn view(&self) -> LogV {
        LogV {
            file: self.file@,
            format: self.format,
            truncate: self.truncate,
            max_chars: self.max_chars,
            max_mb: self.max_mb,
            keep: self.keep,
            compress: self.compress,
        }
    }
}

/// The defaults of [`Log`].
pub open spec fn default_log() -> LogV {
    LogV {
        file: "hivllm-queries.jsonl"@,
        format: LogFormat::Jsonl,
        truncate: Truncate::Off,
        max_chars: 2000,
        max_mb: 100,
        keep: 20,
        compress: true,
    }
}

impl Default for Log {
    fn default() -> (r: Self)
        ensures
            r@ == default_log(),
    {
        Log {
            file: "hivllm-queries.jsonl".to_owned(),
            format: LogFormat::Jsonl,
            truncate: Truncate::Off,
            max_chars: 2000,
            max_mb: 100,
            keep: 20,
            compress: true,
        }
    }
}

/// The bytes in mebibytes; the largest number there is where they are too many.
pub open spec fn bytes_of(mb: u64) -> u64 {
    if mb * 1048576 <= u64::MAX {
        (mb * 1048576) as u64
    } else {
        u64::MAX
    }
}

impl Log {
    /// How the query log is rolled; its size in bytes, the largest there is where
    /// the mebibytes are too many.
    pub fn rotation(&self) -> (r: Rotation)
        ensures
            r.max_bytes == (if self.max_mb * 1048576 <= u64::MAX {
                (self.max_mb * 1048576) as u64
            } else {
                u64::MAX
            }),
            r.keep == self.keep,
            r.compress == self.compress,
            r.max_bytes == bytes_of(self.max_mb),
    {
        let max_bytes: u64 = match self.max_mb.checked_mul(1048576) {
            Some(n) => n,
            None => u64::MAX,
        };
        Rotation { max_bytes, keep: self.keep, compress: self.compress }
    }
}

/// The configuration.
#[derive(Debug, Clone, PartialEq)]
pub struct Config {
    pub server: Server,
    pub discovery: Discovery,
    pub routing: Routing,
    pub log: Log,
    /// API keys for backends that are not listed as static backends (discovered
    /// ports, containers, or a whole host by URL prefix).
    pub credentials: Vec<Credential>,
}

/// What a [`Config`] stands for.
pub struct ConfigV {
    pub server: ServerV,
    pub discovery: DiscoveryV,
    pub routing: Routing,
    pub log: LogV,
    pub credentials: Seq<CredentialV>,
}

impl View for Config {
    type V = ConfigV;

    open spec fn view(&self) -> ConfigV {
        ConfigV {
            server: self.server@,
            discovery: self.discovery@,
            routing: self.routing,
            log: self.log@,
            credentials: self.credentials.deep_view(),
        }
    }
}

impl Default for Config {
    fn default() -> (r: Self)
        ensures
            r@.server == default_server(),
            r@.discovery == default_discovery(),
            r@.routing == (Routing {
                load_interval: 5,
                connect_timeout: 5,
                read_timeout: 600,
                forward_auth: false,
            }),
            r@.log == default_log(),
            r@.credentials == Seq::<CredentialV>::empty(),
    {
        let r = Config {
            server: Server::default(),
            discovery: Discovery::default(),
            routing: Routing::default(),
            log: Log::default(),
            credentials: Vec::new(),
        };
        proof {
            assert(r@.credentials =~= Seq::empty());
        }
        r
    }
}

/// The key that a configuration gives: inline or by the name of an environment
/// variable, not both.
pub open spec fn secret_of(
    what: Seq<char>,
    inline: Option<Seq<char>>,
    env: Option<Seq<char>>,
    vars: Map<Seq<char>, Seq<char>>,
) -> Result<Option<Seq<char>>, Seq<char>> {
    match (inline, env) {
        (Some(_), Some(_)) => Err(what + ": set `api_key` or `api_key_env`, not both"@),
        (Some(k), None) => Ok(
            if k.len() > 0 {
                Some(k)
            } else {
                None
            },
        ),
        (None, Some(var)) => if vars.contains_key(var) && vars[var].len() > 0 {
            Ok(Some(vars[var]))
        } else {
            Err(what + ": environment variable `"@ + var + "` is not set"@)
        },
        (None, None) => Ok(None),
    }
}

/// What the result of [`secret`] stands for.
pub open spec fn secret_view(r: Result<Option<String>, String>) -> Result<
    Option<Seq<char>>,
    Seq<char>,
> {
    match r {
        Ok(k) => Ok(k.deep_view()),
        Err(e) => Err(e@),
    }
}

/// `api_key` or `api_key_env` (exactly one, or neither), resolved. `vars` are the
/// variables of the environment.
pub fn secret(
    what: &str,
    inline: &Option<String>,
    env: &Option<String>,
    vars: &Table<String, String>,
) -> (r: Result<Option<String>, String>)
    ensures
        secret_view(r) == secret_of(what@, inline.deep_view(), env.deep_view(), vars@),
{
    match (inline, env) {
        (Some(_), Some(_)) => {
            let mut msg = what.to_owned();
            msg.append(": set `api_key` or `api_key_env`, not both");
            Err(msg)
        },
        (Some(k), None) => if k.as_str().is_empty() {
            Ok(None)
        } else {
            Ok(Some(k.clone()))
        },
        (None, Some(var)) => {
            if let Some(k) = vars.get(var) {
                if !k.as_str().is_empty() {
                    return Ok(Some(k.clone()));
                }
            }
            let mut msg = what.to_owned();
            msg.append(": environment variable `");
            msg.append(var.as_str());
            msg.append("` is not set");
            Err(msg)
        },
        (None, None) => Ok(None),
    }
}

/// The keyed ones of static backends.
pub open spec fn keyed(backends: Seq<BackendV>) -> Seq<CredentialV>
    decreases backends.len(),
{
    if backends.len() == 0 {
        Seq::empty()
    } else {
        let before = keyed(backends.drop_last());
        match backends.last() {
            BackendV::WithKey(c) => before.push(c),
            BackendV::Url(_) => before,
        }
    }
}

/// The URLs and keys of credentials; the error of the first one without a key.
pub open spec fn resolved(entries: Seq<CredentialV>, vars: Map<Seq<char>, Seq<char>>) -> Result<
    Seq<(Seq<char>, Seq<char>)>,
    Seq<char>,
>
    decreases entries.len(),
{
    if entries.len() == 0 {
        Ok(Seq::empty())
    } else {
        match resolved(entries.drop_last(), vars) {
            Err(e) => Err(e),
            Ok(before) => {
                let c = entries.last();
                match secret_of("backend "@ + c.url, c.api_key, c.api_key_env, vars) {
                    Err(e) => Err(e),
                    Ok(Some(key)) => Ok(before.push((c.url, key))),
                    Ok(None) => Err(
                        "backend "@ + c.url + ": no `api_key` / `api_key_env`"@,
                    ),
                }
            },
        }
    }
}

/// The keys of backends that a configuration gives.
pub open spec fn credentials_of(c: ConfigV, vars: Map<Seq<char>, Seq<char>>) -> Result<
    CredentialsV,
    Seq<char>,
> {
    match resolved(keyed(c.discovery.static_backends) + c.credentials, vars) {
        Ok(entries) => Ok(
            entries.map_values(|e: (Seq<char>, Seq<char>)| (normalized(e.0), e.1)),
        ),
        Err(e) => Err(e),
    }
}

/// A key, masked.
pub open spec fn masked(k: Option<Seq<char>>) -> Option<Seq<char>> {
    match k {
        Some(_) => Some("***"@),
        None => None,
    }
}

/// A credential with its inline key masked.
pub open spec fn masked_credential(c: CredentialV) -> CredentialV {
    CredentialV { api_key: masked(c.api_key), ..c }
}

/// A static backend with its inline key masked.
pub open spec fn masked_backend(b: BackendV) -> BackendV {
    match b {
        BackendV::Url(u) => BackendV::Url(u),
        BackendV::WithKey(c) => BackendV::WithKey(masked_credential(c)),
    }
}

/// A configuration with its inline keys masked.
pub open spec fn redacted_config(c: ConfigV) -> ConfigV {
    ConfigV {
        server: ServerV { api_key: masked(c.server.api_key), ..c.server },
        discovery: DiscoveryV {
            static_backends: c.discovery.static_backends.map_values(
                |b: BackendV| masked_backend(b),
            ),
            ..c.discovery
        },
        routing: c.routing,
        log: c.log,
        credentials: c.credentials.map_values(|x: CredentialV| masked_credential(x)),
    }
}

/// A key, masked.
fn mask(k: &Option<String>) -> (r: Option<String>)
    ensures
        r.deep_view() == masked(k.deep_view()),
{
    match k {
        Some(_) => Some("***".to_owned()),
        None => None,
    }
}

/// A credential with its inline key masked.
fn mask_credential(c: &Credential) -> (r: Credential)
    ensures
        r.deep_view() == masked_credential(c.deep_view()),
{
    Credential {
        url: c.url.clone(),
        api_key: mask(&c.api_key),
        api_key_env: c.api_key_env.dup(),
    }
}

/// Adds the URL and the key of one credential.
fn resolve_one(
    c: &Credential,
    vars: &Table<String, String>,
    entries: &mut Vec<(String, String)>,
) -> (r: Result<(), String>)
    ensures
        ({
            let v = c.deep_view();
            match secret_of("backend "@ + v.url, v.api_key, v.api_key_env, vars@) {
                Err(e) => match r {
                    Err(msg) => msg@ == e,
                    Ok(_) => false,
                },
                Ok(Some(key)) => r is Ok && final(entries).deep_view()
                    == old(entries).deep_view().push((v.url, key)),
                Ok(None) => match r {
                    Err(msg) => msg@ == "backend "@ + v.url + ": no `api_key` / `api_key_env`"@,
                    Ok(_) => false,
                },
            }
        }),
{
    let mut what = "backend ".to_owned();
    what.append(c.url.as_str());
    match secret(what.as_str(), &c.api_key, &c.api_key_env, vars) {
        Err(e) => Err(e),
        Ok(Some(key)) => {
            let ghost before = *entries;
            let entry = (c.url.clone(), key);
            entries.push(entry);
            proof {
                lemma_deep_push(before, *entries, entry);
            }
            Ok(())
        },
        Ok(None) => {
            what.append(": no `api_key` / `api_key_env`");
            Err(what)
        },
    }
}

/// An error early in the list stays the result.
proof fn lemma_resolved_error(
    entries: Seq<CredentialV>,
    n: int,
    vars: Map<Seq<char>, Seq<char>>,
)
    requires
        0 <= n <= entries.len(),
        resolved(entries.take(n), vars) is Err,
    ensures
        resolved(entries, vars) == resolved(entries.take(n), vars),
    decreases entries.len(),
{
    if n < entries.len() {
        assert(entries.drop_last().take(n) =~= entries.take(n));
        lemma_resolved_error(entries.drop_last(), n, vars);
    } else {
        assert(entries.take(n) =~= entries);
    }
}

impl Config {
    /// The hive's own API key, if any.
    pub fn server_api_key(&self, vars: &Table<String, String>) -> (r: Result<
        Option<String>,
        String,
    >)
        ensures
            secret_view(r) == secret_of(
                "server"@,
                self@.server.api_key,
                self@.server.api_key_env,
                vars@,
            ),
    {
        secret("server", &self.server.api_key, &self.server.api_key_env, vars)
    }

    /// Keys of backends from the static backends and the credentials.
    pub fn credentials(&self, vars: &Table<String, String>) -> (r: Result<Credentials, String>)
        ensures
            match r {
                Ok(c) => credentials_of(self@, vars@) == Ok::<CredentialsV, Seq<char>>(c@),
                Err(e) => credentials_of(self@, vars@) == Err::<CredentialsV, Seq<char>>(e@),
            },
    {
        let ghost bs = self.discovery.static_backends.deep_view();
        let ghost cs = self.credentials.deep_view();
        let ghost ks = keyed(bs);
        let ghost all = ks + cs;
        let mut entries: Vec<(String, String)> = Vec::new();
        let mut i: usize = 0;
        let ghost mut done: int = 0;
        proof {
            assert(entries.deep_view() =~= Seq::empty());
            assert(ks.take(0) =~= keyed(bs.take(0)));
        }
        while i < self.discovery.static_backends.len()
            invariant
                i <= self.discovery.static_backends@.len(),
                bs == self.discovery.static_backends.deep_view(),
                bs == self@.discovery.static_backends,
                cs == self@.credentials,
                ks == keyed(bs),
                all == ks + cs,
                done == keyed(bs.take(i as int)).len(),
                keyed(bs.take(i as int)) == ks.take(done),
                0 <= done <= ks.len(),
                resolved(all.take(done), vars@) == Ok::<Seq<(Seq<char>, Seq<char>)>, Seq<char>>(
                    entries.deep_view(),
                ),
            decreases self.discovery.static_backends@.len() - i,
        {
            proof {
                assert(bs.take(i + 1).drop_last() =~= bs.take(i as int));
                assert(bs.take(i + 1).last() == self.discovery.static_backends@[i as int].deep_view());
                lemma_keyed_prefix(bs, i + 1);
            }
            if let StaticBackend::WithKey(c) = &self.discovery.static_backends[i] {
                proof {
                    let k = keyed(bs.take(i + 1));
                    assert(k == ks.take(k.len() as int));
                    assert(k.len() == done + 1);
                    assert(all.take(done + 1).drop_last() =~= all.take(done));
                    assert(all.take(done + 1).last() == k.last());
                }
                if let Err(e) = resolve_one(c, vars, &mut entries) {
                    proof {
                        lemma_resolved_error(all, done + 1, vars@);
                    }
                    return Err(e);
                }
                proof {
                    done = done + 1;
                }
            }
            i = i + 1;
        }
        proof {
            assert(bs.take(i as int) =~= bs);
            assert(done == ks.len());
        }
        let mut j: usize = 0;
        while j < self.credentials.len()
            invariant
                j <= self.credentials@.len(),
                bs == self@.discovery.static_backends,
                cs == self.credentials.deep_view(),
                cs == self@.credentials,
                ks == keyed(bs),
                all == ks + cs,
                resolved(all.take(ks.len() + j), vars@) == Ok::<
                    Seq<(Seq<char>, Seq<char>)>,
                    Seq<char>,
                >(entries.deep_view()),
            decreases self.credentials@.len() - j,
        {
            proof {
                let n = ks.len() + j;
                assert(all.take(n + 1).drop_last() =~= all.take(n));
                assert(all.take(n + 1).last() == self.credentials@[j as int].deep_view());
            }
            if let Err(e) = resolve_one(&self.credentials[j], vars, &mut entries) {
                proof {
                    lemma_resolved_error(all, ks.len() + j + 1, vars@);
                }
                return Err(e);
            }
            j = j + 1;
        }
        proof {
            assert(all.take(ks.len() + j) =~= all);
        }
        Ok(Credentials::new(entries))
    }

    /// Static backend URLs, keys stripped.
    pub fn static_urls(&self) -> (r: Vec<String>)
        ensures
            r.deep_view() == self@.discovery.static_backends.map_values(
                |b: BackendV| backend_url(b),
            ),
    {
        let ghost bs = self.discovery.static_backends.deep_view();
        let mut out: Vec<String> = Vec::new();
        let mut i: usize = 0;
        while i < self.discovery.static_backends.len()
            invariant
                i <= self.discovery.static_backends@.len(),
                bs == self.discovery.static_backends.deep_view(),
                out@.len() == i,
                forall|k: int| 0 <= k < i ==> out@[k]@ == backend_url(bs[k]),
            decreases self.discovery.static_backends@.len() - i,
        {
            out.push(self.discovery.static_backends[i].url().to_owned());
            i = i + 1;
        }
        proof {
            assert(out.deep_view() =~= bs.map_values(|b: BackendV| backend_url(b)));
        }
        out
    }

    /// The configuration to show: inline secrets masked, all else as it is.
    pub fn redacted(&self) -> (r: Config)
        ensures
            r@ == redacted_config(self@),
    {
        let ghost bs = self.discovery.static_backends.deep_view();
        let ghost cs = self.credentials.deep_view();
        let mut backends: Vec<StaticBackend> = Vec::new();
        let mut i: usize = 0;
        while i < self.discovery.static_backends.len()
            invariant
                i <= self.discovery.static_backends@.len(),
                bs == self.discovery.static_backends.deep_view(),
                backends@.len() == i,
                forall|k: int| 0 <= k < i ==> backends@[k].deep_view() == masked_backend(bs[k]),
            decreases self.discovery.static_backends@.len() - i,
        {
            let b = match &self.discovery.static_backends[i] {
                StaticBackend::Url(u) => StaticBackend::Url(u.clone()),
                StaticBackend::WithKey(c) => StaticBackend::WithKey(mask_credential(c)),
            };
            backends.push(b);
            i = i + 1;
        }
        let mut credentials: Vec<Credential> = Vec::new();
        let mut j: usize = 0;
        while j < self.credentials.len()
            invariant
                j <= self.credentials@.len(),
                cs == self.credentials.deep_view(),
                credentials@.len() == j,
                forall|k: int|
                    0 <= k < j ==> credentials@[k].deep_view() == masked_credential(cs[k]),
            decreases self.credentials@.len() - j,
        {
            credentials.push(mask_credential(&self.credentials[j]));
            j = j + 1;
        }
        let r = Config {
            server: Server {
                port: self.server.port,
                bind: self.server.bind,
                hive_id: self.server.hive_id.dup(),
                api_key: mask(&self.server.api_key),
                api_key_env: self.server.api_key_env.dup(),
                cors_origin: self.server.cors_origin.clone(),
                max_body_mb: self.server.max_body_mb,
            },
            discovery: Discovery {
                extra_ports: self.discovery.extra_ports.dup(),
                static_backends: backends,
                docker_socket: self.discovery.docker_socket.clone(),
                scan_interval: self.discovery.scan_interval,
                drop_after: self.discovery.drop_after,
            },
            routing: self.routing,
            log: Log {
                file: self.log.file.clone(),
                format: self.log.format,
                truncate: self.log.truncate,
                max_chars: self.log.max_chars,
                max_mb: self.log.max_mb,
                keep: self.log.keep,
                compress: self.log.compress,
            },
            credentials,
        };
        proof {
            assert(r@.discovery.static_backends =~= redacted_config(self@).discovery.static_backends);
            assert(r@.credentials =~= redacted_config(self@).credentials);
        }
        r
    }
}

/// The keyed ones of the first static backends come first.
proof fn lemma_keyed_prefix(bs: Seq<BackendV>, n: int)
    requires
        0 <= n <= bs.len(),
    ensures
        keyed(bs.take(n)).len() <= keyed(bs).len(),
        keyed(bs.take(n)) == keyed(bs).take(keyed(bs.take(n)).len() as int),
    decreases bs.len() - n,
{
    if n < bs.len() {
        lemma_keyed_prefix(bs.drop_last(), n);
        assert(bs.drop_last().take(n) =~= bs.take(n));
        let k = keyed(bs.take(n)).len() as int;
        assert(keyed(bs).take(k) =~= keyed(bs.drop_last()).take(k));
    } else {
        assert(bs.take(n) =~= bs);
        assert(keyed(bs).take(keyed(bs).len() as int) =~= keyed(bs));
    }
}

/// What command-line flags and environment variables set; unset ones leave the
/// configuration alone.
#[derive(Debug)]
pub struct Args {
    pub port: Option<u16>,
    pub bind: Option<BindAddr>,
    pub extra_ports: Option<Vec<u16>>,
    pub static_backends: Option<Vec<String>>,
    pub docker_socket: Option<String>,
    pub scan_interval: Option<u64>,
    pub drop_after: Option<u32>,
    pub load_interval: Option<u64>,
    pub log_file: Option<String>,
    pub log_format: Option<LogFormat>,
    pub log_truncate: Option<Truncate>,
    pub log_max_chars: Option<usize>,
    pub log_max_mb: Option<u64>,
    pub log_keep: Option<usize>,
    pub log_compress: Option<bool>,
    pub connect_timeout: Option<u64>,
    pub read_timeout: Option<u64>,
    pub max_body_mb: Option<usize>,
    pub api_key: Option<String>,
    pub forward_auth: Option<bool>,
    pub hive_id: Option<String>,
    pub cors_origin: Option<String>,
}

/// A value, or the one that overrides it.
pub open spec fn over<T>(given: Option<T>, value: T) -> T {
    match given {
        Some(v) => v,
        None => value,
    }
}

/// The view of a text, or of the one that overrides it.
pub open spec fn over_text(given: Option<String>, value: Seq<char>) -> Seq<char> {
    match given {
        Some(v) => v@,
        None => value,
    }
}

/// The configuration with every flag that was given laid over it.
pub open spec fn overlaid(a: Args, c: ConfigV) -> ConfigV {
    ConfigV {
        server: ServerV {
            port: over(a.port, c.server.port),
            bind: over(a.bind, c.server.bind),
            hive_id: if a.hive_id is Some {
                a.hive_id.deep_view()
            } else {
                c.server.hive_id
            },
            // A key that is given replaces whatever the file said.
            api_key: if a.api_key is Some {
                a.api_key.deep_view()
            } else {
                c.server.api_key
            },
            api_key_env: if a.api_key is Some {
                None
            } else {
                c.server.api_key_env
            },
            cors_origin: over_text(a.cors_origin, c.server.cors_origin),
            max_body_mb: over(a.max_body_mb, c.server.max_body_mb),
        },
        discovery: DiscoveryV {
            extra_ports: match a.extra_ports {
                Some(ps) => ps@,
                None => c.discovery.extra_ports,
            },
            static_backends: match a.static_backends {
                Some(urls) => urls.deep_view().map_values(|u: Seq<char>| BackendV::Url(u)),
                None => c.discovery.static_backends,
            },
            docker_socket: over_text(a.docker_socket, c.discovery.docker_socket),
            scan_interval: over(a.scan_interval, c.discovery.scan_interval),
            drop_after: over(a.drop_after, c.discovery.drop_after),
        },
        routing: Routing {
            load_interval: over(a.load_interval, c.routing.load_interval),
            connect_timeout: over(a.connect_timeout, c.routing.connect_timeout),
            read_timeout: over(a.read_timeout, c.routing.read_timeout),
            forward_auth: over(a.forward_auth, c.routing.forward_auth),
        },
        log: LogV {
            file: over_text(a.log_file, c.log.file),
            format: over(a.log_format, c.log.format),
            truncate: over(a.log_truncate, c.log.truncate),
            max_chars: over(a.log_max_chars, c.log.max_chars),
            max_mb: over(a.log_max_mb, c.log.max_mb),
            keep: over(a.log_keep, c.log.keep),
            compress: over(a.log_compress, c.log.compress),
        },
        credentials: c.credentials,
    }
}

/// Bare URLs as static backends.
fn bare_backends(urls: Vec<String>) -> (r: Vec<StaticBackend>)
    ensures
        r.deep_view() == urls.deep_view().map_values(|u: Seq<char>| BackendV::Url(u)),
{
    let ghost all = urls@;
    let ghost s = urls.deep_view();
    let mut out: Vec<StaticBackend> = Vec::new();
    for u in it: urls
        invariant
            it.seq() == all,
            s.len() == all.len(),
            forall|k: int| 0 <= k < all.len() ==> s[k] == all[k]@,
            out@.len() == it.index(),
            forall|k: int| 0 <= k < it.index() ==> out@[k].deep_view() == BackendV::Url(s[k]),
    {
        out.push(StaticBackend::Url(u));
    }
    proof {
        assert(out.deep_view() =~= s.map_values(|u: Seq<char>| BackendV::Url(u)));
    }
    out
}

impl Args {
    /// Lays every flag that was given over a configuration.
    pub fn apply(self, cfg: &mut Config)
        ensures
            final(cfg)@ == overlaid(self, old(cfg)@),
    {
        set(&mut cfg.server.port, self.port);
        set(&mut cfg.server.bind, self.bind);
        if self.hive_id.is_some() {
            cfg.server.hive_id = self.hive_id;
        }
        if self.api_key.is_some() {
            cfg.server.api_key = self.api_key;
            cfg.server.api_key_env = None;
        }
        set(&mut cfg.server.cors_origin, self.cors_origin);
        set(&mut cfg.server.max_body_mb, self.max_body_mb);
        set(&mut cfg.discovery.extra_ports, self.extra_ports);
        if let Some(urls) = self.static_backends {
            cfg.discovery.static_backends = bare_backends(urls);
        }
        set(&mut cfg.discovery.docker_socket, self.docker_socket);
        set(&mut cfg.discovery.scan_interval, self.scan_interval);
        set(&mut cfg.discovery.drop_after, self.drop_after);
        set(&mut cfg.routing.load_interval, self.load_interval);
        set(&mut cfg.routing.connect_timeout, self.connect_timeout);
        set(&mut cfg.routing.read_timeout, self.read_timeout);
        set(&mut cfg.routing.forward_auth, self.forward_auth);
        set(&mut cfg.log.file, self.log_file);
        set(&mut cfg.log.format, self.log_format);
        set(&mut cfg.log.truncate, self.log_truncate);
        set(&mut cfg.log.max_chars, self.log_max_chars);
        set(&mut cfg.log.max_mb, self.log_max_mb);
        set(&mut cfg.log.keep, self.log_keep);
        set(&mut cfg.log.compress, self.log_compress);
    }
}

/// Puts the value that overrides a slot into it, if there is one.
fn set<T>(slot: &mut T, given: Option<T>)
    ensures
        *final(slot) == over(given, *old(slot)),
{
    if let Some(v) = given {
        *slot = v;
    }
}

impl Server {
    /// The largest accepted request body in bytes (`None` = unlimited); the largest
    /// there is where the mebibytes are too many.
    pub fn max_body(&self) -> (r: Option<usize>)
        ensures
            r == body_limit(self.max_body_mb),
    {
        if self.max_body_mb == 0 {
            return None;
        }
        match self.max_body_mb.checked_mul(1048576) {
            Some(n) => Some(n),
            None => Some(usize::MAX),
        }
    }

    /// Whether anyone who can reach the hive can use it: it listens beyond this
    /// machine and asks for no key.
    pub fn is_exposed(&self, api_key: &str) -> (r: bool)
        ensures
            r == (api_key@.len() == 0 && !(match self.bind {
                BindAddr::V4(a, _, _, _) => a == 127,
                BindAddr::V6(bits) => bits == 1,
            })),
            r == exposed(self.bind, api_key@),
    {
        api_key.is_empty() && !self.bind.is_loopback()
    }
}

/// A limit in bytes out of one in mebibytes; zero is none.
pub open spec fn body_limit(mb: usize) -> Option<usize> {
    if mb == 0 {
        None
    } else if mb * 1048576 <= usize::MAX {
        Some((mb * 1048576) as usize)
    } else {
        Some(usize::MAX)
    }
}

/// Text in quotes, as `{:?}` shows it.
pub uninterp spec fn debug_text(s: Seq<char>) -> Seq<char>;

/// Formats text with `{:?}`; the result depends on it alone.
#[verifier::external_body]
fn show_text(s: &str) -> (r: String)
    ensures
        r@ == debug_text(s@),
{
    format!("{:?}", s)
}

/// The hive that a configuration describes; `random_id` is its instance id unless
/// the configuration names one.
pub open spec fn configured_hive(
    c: ConfigV,
    credentials: CredentialsV,
    random_id: Seq<char>,
) -> Result<HiveV, Seq<char>> {
    match c.server.hive_id {
        Some(id) if !is_hive_id(id) => Err(
            "invalid hive id "@ + debug_text(id) + ": printable ASCII, no spaces or commas"@,
        ),
        named => Ok(
            HiveV {
                own_id: over(named, random_id),
                log_truncate: c.log.truncate,
                log_max_chars: c.log.max_chars,
                forward_auth: c.routing.forward_auth,
                credentials,
                max_body: body_limit(c.server.max_body_mb),
                drop_after: if c.discovery.drop_after < 1 {
                    1
                } else {
                    c.discovery.drop_after
                },
                ..fresh_hive(c.server.port, random_id)
            },
        ),
    }
}

impl Config {
    /// The hive that the configuration describes, with a random instance id unless
    /// the configuration names one. A name that is no valid id is refused.
    pub fn hive(&self, credentials: Credentials) -> (r: Result<Hive, String>)
        ensures
            exists|random_id: Seq<char>| #[trigger]
                is_hive_id(random_id) && match r {
                    Ok(h) => configured_hive(self@, credentials@, random_id) == Ok::<
                        HiveV,
                        Seq<char>,
                    >(h@) && h@.wf() && is_hive_id(h@.own_id),
                    Err(e) => configured_hive(self@, credentials@, random_id) == Err::<
                        HiveV,
                        Seq<char>,
                    >(e@),
                },
    {
        let fresh = Hive::new(self.server.port);
        let ghost random_id = fresh@.own_id;
        let hive = fresh.with_log_options(
            self.log.truncate,
            self.log.max_chars,
        ).with_forward_auth(self.routing.forward_auth).with_drop_after(
            self.discovery.drop_after,
        ).with_max_body(self.server.max_body());
        let hive = match &self.server.hive_id {
            Some(id) => {
                if !valid_hive_id(id.as_str()) {
                    let mut msg = "invalid hive id ".to_owned();
                    let shown = show_text(id.as_str());
                    msg.append(shown.as_str());
                    msg.append(": printable ASCII, no spaces or commas");
                    return Err(msg);
                }
                hive.with_hive_id(id.clone())
            },
            None => hive,
        };
        let hive = hive.with_credentials(credentials);
        proof {
            assert(configured_hive(self@, credentials@, random_id) == Ok::<HiveV, Seq<char>>(
                hive@,
            ));
        }
        Ok(hive)
    }
}

/// Whether a key is hidden.
pub open spec fn hidden(k: Option<Seq<char>>) -> bool {
    k is None || k == Some("***"@)
}

/// What is shown of a configuration holds no inline key.
pub proof fn law_redacted(c: ConfigV)
    ensures
        ({
            let r = redacted_config(c);
            &&& hidden(r.server.api_key)
            &&& forall|i: int|
                0 <= i < r.credentials.len() ==> hidden((#[trigger] r.credentials[i]).api_key)
            &&& forall|i: int|
                0 <= i < r.discovery.static_backends.len() ==> match #[trigger] r.discovery
                    .static_backends[i] {
                    BackendV::WithKey(k) => hidden(k.api_key),
                    BackendV::Url(_) => true,
                }
        }),
{
}

/// Whether no flag was given.
pub open spec fn no_flags(a: Args) -> bool {
    &&& a.port is None && a.bind is None && a.extra_ports is None && a.static_backends is None
    &&& a.docker_socket is None && a.scan_interval is None && a.drop_after is None
    &&& a.load_interval is None && a.log_file is None && a.log_format is None
    &&& a.log_truncate is None && a.log_max_chars is None && a.log_max_mb is None
    &&& a.log_keep is None && a.log_compress is None && a.connect_timeout is None
    &&& a.read_timeout is None && a.max_body_mb is None && a.api_key is None
    &&& a.forward_auth is None && a.hive_id is None && a.cors_origin is None
}

/// Flags that were not given leave the configuration alone.
pub proof fn law_unset_flags(a: Args, c: ConfigV)
    requires
        no_flags(a),
    ensures
        overlaid(a, c) == c,
{
}

/// A key that was given as a flag is the hive's key, whatever the file said.
pub proof fn law_flag_key_wins(a: Args, c: ConfigV, vars: Map<Seq<char>, Seq<char>>)
    requires
        a.api_key is Some,
        (a.api_key->0)@.len() > 0,
    ensures
        ({
            let s = overlaid(a, c).server;
            secret_of("server"@, s.api_key, s.api_key_env, vars) == Ok::<
                Option<Seq<char>>,
                Seq<char>,
            >(Some((a.api_key->0)@))
        }),
{
}

/// Each flag that is given is the value of the setting of its name, whatever other
/// flags are given.
pub proof fn law_given_flags(a: Args, c: ConfigV)
    ensures
        ({
            let r = overlaid(a, c);
            &&& a.port matches Some(v) ==> r.server.port == v
            &&& a.bind matches Some(v) ==> r.server.bind == v
            &&& a.cors_origin matches Some(v) ==> r.server.cors_origin == v@
            &&& a.max_body_mb matches Some(v) ==> r.server.max_body_mb == v
            &&& a.docker_socket matches Some(v) ==> r.discovery.docker_socket == v@
            &&& a.scan_interval matches Some(v) ==> r.discovery.scan_interval == v
            &&& a.drop_after matches Some(v) ==> r.discovery.drop_after == v
            &&& a.load_interval matches Some(v) ==> r.routing.load_interval == v
            &&& a.connect_timeout matches Some(v) ==> r.routing.connect_timeout == v
            &&& a.read_timeout matches Some(v) ==> r.routing.read_timeout == v
            &&& a.forward_auth matches Some(v) ==> r.routing.forward_auth == v
            &&& a.log_file matches Some(v) ==> r.log.file == v@
            &&& a.log_format matches Some(v) ==> r.log.format == v
            &&& a.log_truncate matches Some(v) ==> r.log.truncate == v
            &&& a.log_max_chars matches Some(v) ==> r.log.max_chars == v
            &&& a.log_max_mb matches Some(v) ==> r.log.max_mb == v
            &&& a.log_keep matches Some(v) ==> r.log.keep == v
            &&& a.log_compress matches Some(v) ==> r.log.compress == v
            &&& a.hive_id matches Some(v) ==> r.server.hive_id == Some(v@)
            &&& a.api_key matches Some(v) ==> r.server.api_key == Some(v@)
                && r.server.api_key_env is None
            &&& a.extra_ports matches Some(v) ==> r.discovery.extra_ports == v@
            &&& a.static_backends matches Some(v) ==> r.discovery.static_backends.len() == v@.len()
                && forall|i: int|
                0 <= i < v@.len() ==> #[trigger] r.discovery.static_backends[i] == BackendV::Url(
                    v@[i]@,
                )
        }),
{
}

/// A setting whose own flag is not given stays as it was, whatever other flags are
/// given. No flag touches the credentials.
pub proof fn law_other_settings_stay(a: Args, c: ConfigV)
    ensures
        ({
            let r = overlaid(a, c);
            &&& a.port is None ==> r.server.port == c.server.port
            &&& a.bind is None ==> r.server.bind == c.server.bind
            &&& a.cors_origin is None ==> r.server.cors_origin == c.server.cors_origin
            &&& a.max_body_mb is None ==> r.server.max_body_mb == c.server.max_body_mb
            &&& a.docker_socket is None ==> r.discovery.docker_socket == c.discovery.docker_socket
            &&& a.scan_interval is None ==> r.discovery.scan_interval == c.discovery.scan_interval
            &&& a.drop_after is None ==> r.discovery.drop_after == c.discovery.drop_after
            &&& a.load_interval is None ==> r.routing.load_interval == c.routing.load_interval
            &&& a.connect_timeout is None ==> r.routing.connect_timeout == c.routing.connect_timeout
            &&& a.read_timeout is None ==> r.routing.read_timeout == c.routing.read_timeout
            &&& a.forward_auth is None ==> r.routing.forward_auth == c.routing.forward_auth
            &&& a.log_file is None ==> r.log.file == c.log.file
            &&& a.log_format is None ==> r.log.format == c.log.format
            &&& a.log_truncate is None ==> r.log.truncate == c.log.truncate
            &&& a.log_max_chars is None ==> r.log.max_chars == c.log.max_chars
            &&& a.log_max_mb is None ==> r.log.max_mb == c.log.max_mb
            &&& a.log_keep is None ==> r.log.keep == c.log.keep
            &&& a.log_compress is None ==> r.log.compress == c.log.compress
            &&& a.hive_id is None ==> r.server.hive_id == c.server.hive_id
            &&& a.api_key is None ==> r.server.api_key == c.server.api_key && r.server.api_key_env
                == c.server.api_key_env
            &&& a.extra_ports is None ==> r.discovery.extra_ports == c.discovery.extra_ports
            &&& a.static_backends is None ==> r.discovery.static_backends
                == c.discovery.static_backends
            &&& r.credentials == c.credentials
        }),
{
}

/// A key comes from where the configuration says, and from one place only: inline if
/// it is not empty, else the value of the named variable, which has to be set; two
/// places are refused, and none means that there is no key.
pub proof fn law_secret(
    what: Seq<char>,
    key: Seq<char>,
    var: Seq<char>,
    vars: Map<Seq<char>, Seq<char>>,
)
    ensures
        key.len() > 0 ==> secret_of(what, Some(key), None, vars) == Ok::<
            Option<Seq<char>>,
            Seq<char>,
        >(Some(key)),
        key.len() > 0 ==> secret_of(what, None, Some(var), vars.insert(var, key)) == Ok::<
            Option<Seq<char>>,
            Seq<char>,
        >(Some(key)),
        secret_of(what, None, Some(var), vars.insert(var, Seq::empty())) is Err,
        secret_of(what, None, Some(var), vars.remove(var)) is Err,
        secret_of(what, Some(key), Some(var), vars) is Err,
        secret_of(what, None, None, vars) == Ok::<Option<Seq<char>>, Seq<char>>(None),
        secret_of(what, Some(Seq::empty()), None, vars) == Ok::<Option<Seq<char>>, Seq<char>>(None),
{
}

/// An error about a key says what it is about.
pub proof fn law_secret_errors(
    what: Seq<char>,
    inline: Option<Seq<char>>,
    env: Option<Seq<char>>,
    vars: Map<Seq<char>, Seq<char>>,
)
    ensures
        secret_of(what, inline, env, vars) matches Err(e) ==> what.is_prefix_of(e) && e.len()
            > what.len(),
{
    reveal_strlit(": set `api_key` or `api_key_env`, not both");
    reveal_strlit(": environment variable `");
    if let Err(e) = secret_of(what, inline, env, vars) {
        assert(e.subrange(0, what.len() as int) =~= what);
    }
}

/// The key of each credential is resolved on its own, in order: the list is accepted
/// exactly if each entry has a key, and holds its URL and that key.
pub proof fn law_resolved(entries: Seq<CredentialV>, vars: Map<Seq<char>, Seq<char>>)
    ensures
        resolved(entries, vars) is Ok <==> forall|i: int|
            0 <= i < entries.len() ==> has_key(#[trigger] entries[i], vars),
        resolved(entries, vars) matches Ok(r) ==> r.len() == entries.len() && forall|i: int|
            0 <= i < entries.len() ==> (#[trigger] r[i]).0 == entries[i].url && Ok::<
                Option<Seq<char>>,
                Seq<char>,
            >(Some(r[i].1)) == secret_of(
                "backend "@ + entries[i].url,
                entries[i].api_key,
                entries[i].api_key_env,
                vars,
            ),
    decreases entries.len(),
{
    if entries.len() > 0 {
        let before = entries.drop_last();
        let last = entries.last();
        law_resolved(before, vars);
        assert(entries[entries.len() - 1] == last);
        if forall|i: int| 0 <= i < entries.len() ==> has_key(#[trigger] entries[i], vars) {
            assert forall|i: int| 0 <= i < before.len() implies has_key(
                #[trigger] before[i],
                vars,
            ) by {
                assert(before[i] == entries[i]);
            }
            assert(has_key(entries[entries.len() - 1], vars));
        }
        if resolved(entries, vars) is Ok {
            assert forall|i: int| 0 <= i < entries.len() implies has_key(
                #[trigger] entries[i],
                vars,
            ) by {
                if i < before.len() {
                    assert(has_key(before[i], vars));
                }
            }
            let r = resolved(entries, vars)->Ok_0;
            let b = resolved(before, vars)->Ok_0;
            assert forall|i: int| 0 <= i < entries.len() implies (#[trigger] r[i]).0
                == entries[i].url && Ok::<Option<Seq<char>>, Seq<char>>(Some(r[i].1)) == secret_of(
                "backend "@ + entries[i].url,
                entries[i].api_key,
                entries[i].api_key_env,
                vars,
            ) by {
                if i < before.len() {
                    assert(r[i] == b[i]);
                    assert(before[i] == entries[i]);
                }
            }
        }
    }
}

/// Whether a credential has a key.
pub open spec fn has_key(c: CredentialV, vars: Map<Seq<char>, Seq<char>>) -> bool {
    secret_of("backend "@ + c.url, c.api_key, c.api_key_env, vars) matches Ok(Some(_))
}

/// Every static backend with a key, and no other, is a credential of its own.
pub proof fn law_keyed(backends: Seq<BackendV>, c: CredentialV)
    ensures
        keyed(backends).contains(c) <==> backends.contains(BackendV::WithKey(c)),
        keyed(backends).len() <= backends.len(),
    decreases backends.len(),
{
    if backends.len() > 0 {
        let rest = backends.drop_last();
        law_keyed(rest, c);
        assert(backends =~= rest.push(backends.last()));
        lemma_contains_push(rest, backends.last(), BackendV::WithKey(c));
        if let BackendV::WithKey(last) = backends.last() {
            lemma_contains_push(keyed(rest), last, c);
        }
    }
}

/// The keys of backends are those of the static backends, then those of the
/// credentials, each under its normalized URL.
pub proof fn law_credentials(c: ConfigV, vars: Map<Seq<char>, Seq<char>>)
    ensures
        credentials_of(c, vars) matches Ok(r) ==> {
            let n = keyed(c.discovery.static_backends).len();
            &&& r.len() == n + c.credentials.len()
            &&& forall|i: int|
                0 <= i < c.credentials.len() ==> (#[trigger] r[n + i]).0 == normalized(
                    c.credentials[i].url,
                ) && (c.credentials[i].api_key matches Some(k) ==> r[n + i].1 == k)
                    && (c.credentials[i].api_key_env matches Some(v) ==> vars.contains_key(v)
                    && r[n + i].1 == vars[v])
            &&& forall|i: int|
                0 <= i < n ==> {
                    let k = keyed(c.discovery.static_backends)[i];
                    (#[trigger] r[i]).0 == normalized(k.url) && (k.api_key matches Some(x)
                        ==> r[i].1 == x) && (k.api_key_env matches Some(v) ==> vars.contains_key(v)
                        && r[i].1 == vars[v])
                }
        },
{
    let ks = keyed(c.discovery.static_backends);
    let all = ks + c.credentials;
    let f = |e: (Seq<char>, Seq<char>)| (normalized(e.0), e.1);
    law_resolved(all, vars);
    if let Ok(es) = resolved(all, vars) {
        let r = es.map_values(f);
        assert forall|i: int| 0 <= i < all.len() implies (#[trigger] r[i]).0 == normalized(
            all[i].url,
        ) && (all[i].api_key matches Some(k) ==> r[i].1 == k) && (all[i].api_key_env matches Some(v)
            ==> vars.contains_key(v) && r[i].1 == vars[v]) by {
            assert(es[i].0 == all[i].url);
        }
        assert forall|i: int| 0 <= i < c.credentials.len() implies (#[trigger] r[ks.len() + i]).0
            == normalized(c.credentials[i].url) && (c.credentials[i].api_key matches Some(k)
            ==> r[ks.len() + i].1 == k) && (c.credentials[i].api_key_env matches Some(v)
            ==> vars.contains_key(v) && r[ks.len() + i].1 == vars[v]) by {
            assert(all[ks.len() + i] == c.credentials[i]);
        }
        assert forall|i: int| 0 <= i < ks.len() implies ({
            let k = ks[i];
            (#[trigger] r[i]).0 == normalized(k.url) && (k.api_key matches Some(x) ==> r[i].1 == x)
                && (k.api_key_env matches Some(v) ==> vars.contains_key(v) && r[i].1 == vars[v])
        }) by {
            assert(all[i] == ks[i]);
        }
    }
}

/// What is shown of a configuration is the configuration but for its inline keys: it
/// still tells which are set.
pub proof fn law_redacted_keeps(c: ConfigV)
    ensures
        ({
            let r = redacted_config(c);
            &&& r.server.port == c.server.port && r.server.bind == c.server.bind
                && r.server.hive_id == c.server.hive_id && r.server.api_key_env
                == c.server.api_key_env && r.server.cors_origin == c.server.cors_origin
                && r.server.max_body_mb == c.server.max_body_mb
            &&& r.server.api_key is Some <==> c.server.api_key is Some
            &&& r.discovery.extra_ports == c.discovery.extra_ports && r.discovery.docker_socket
                == c.discovery.docker_socket && r.discovery.scan_interval
                == c.discovery.scan_interval && r.discovery.drop_after == c.discovery.drop_after
            &&& r.discovery.static_backends.len() == c.discovery.static_backends.len()
            &&& forall|i: int|
                0 <= i < c.discovery.static_backends.len() ==> match (
                    #[trigger] r.discovery.static_backends[i],
                    c.discovery.static_backends[i],
                ) {
                    (BackendV::Url(u), BackendV::Url(v)) => u == v,
                    (BackendV::WithKey(a), BackendV::WithKey(b)) => a.url == b.url && a.api_key_env
                        == b.api_key_env && (a.api_key is Some <==> b.api_key is Some),
                    _ => false,
                }
            &&& r.routing == c.routing && r.log == c.log
            &&& r.credentials.len() == c.credentials.len()
            &&& forall|i: int|
                0 <= i < c.credentials.len() ==> (#[trigger] r.credentials[i]).url
                    == c.credentials[i].url && r.credentials[i].api_key_env
                    == c.credentials[i].api_key_env && (r.credentials[i].api_key is Some
                    <==> c.credentials[i].api_key is Some)
        }),
{
}

/// A body limit is the number of mebibytes in bytes, or the largest number there is;
/// no limit is none.
pub proof fn law_body_limit(mb: usize)
    ensures
        body_limit(mb) is None <==> mb == 0,
        body_limit(mb) matches Some(n) ==> n == usize::MAX || n == mb * 1024 * 1024,
        body_limit(mb) matches Some(n) ==> n >= mb,
        mb <= 4095 ==> (body_limit(mb) matches Some(n) ==> n == mb * 1048576),
        0 < mb && mb * 1048576 <= usize::MAX ==> body_limit(mb) == Some((mb * 1048576) as usize),
        mb * 1048576 > usize::MAX ==> body_limit(mb) == Some(usize::MAX),
{
}

/// A hive is what its configuration says: its name if it has one, its port, its
/// limits, and nothing known yet. Only a name that is no valid id is refused.
pub proof fn law_configured_hive(c: ConfigV, credentials: CredentialsV, random_id: Seq<char>)
    ensures
        configured_hive(c, credentials, random_id) is Err <==> (c.server.hive_id matches Some(id)
            && !is_hive_id(id)),
        configured_hive(c, credentials, random_id) matches Ok(h) ==> {
            &&& h.own_id == (match c.server.hive_id {
                Some(id) => id,
                None => random_id,
            })
            &&& h.own_port == c.server.port
            &&& h.log_truncate == c.log.truncate && h.log_max_chars == c.log.max_chars
            &&& h.forward_auth == c.routing.forward_auth
            &&& h.credentials == credentials
            &&& h.max_body == body_limit(c.server.max_body_mb)
            &&& h.drop_after >= 1 && (c.discovery.drop_after >= 1 ==> h.drop_after
                == c.discovery.drop_after) && (c.discovery.drop_after == 0 ==> h.drop_after == 1)
            &&& h.endpoints.len() == 0
            &&& h.loads == Map::<(Seq<char>, Seq<char>), crate::load::Load>::empty()
            &&& h.inflight == Map::<Seq<char>, u64>::empty()
            &&& h.cooldown == Map::<Seq<char>, u64>::empty()
            &&& h.missed_scans == Map::<Seq<char>, u32>::empty()
            &&& h.rr == Map::<Seq<char>, usize>::empty()
        },
{
}

/// What holds where neither file nor flag says otherwise.
pub proof fn law_defaults()
    ensures
        default_server().port == 8335,
        default_server().bind == BindAddr::V4(127, 0, 0, 1),
        default_server().api_key is None && default_server().api_key_env is None,
        default_server().hive_id is None,
        default_server().cors_origin == "local"@,
        body_limit(default_server().max_body_mb) == Some(67108864usize),
        default_discovery().scan_interval == 30,
        default_discovery().extra_ports.len() == 0,
        default_discovery().static_backends.len() == 0,
        default_discovery().docker_socket.len() == 0,
        default_log().truncate == Truncate::Off,
        default_log().max_mb == 100 && default_log().keep == 20 && default_log().compress,
        default_log().max_chars == 2000,
        default_log().file == "hivllm-queries.jsonl"@,
        default_discovery().drop_after == 3,
        default_routing().load_interval == 5 && default_routing().connect_timeout == 5,
        silence(default_routing().read_timeout) == Some(600u64),
        !default_routing().forward_auth,
{
}

/// A hive is exposed exactly if it asks for no key and listens on an address that others
/// can reach: not on `127.x.x.x`, nor on `::1`.
pub proof fn law_exposed(a: u8, b: u8, c: u8, d: u8, bits: u128, key: Seq<char>)
    ensures
        is_own(BindAddr::V4(127, b, c, d)),
        is_own(BindAddr::V6(1)),
        a != 127 ==> !is_own(BindAddr::V4(a, b, c, d)),
        bits != 1 ==> !is_own(BindAddr::V6(bits)),
        key.len() > 0 ==> !exposed(BindAddr::V4(a, b, c, d), key),
        exposed(BindAddr::V4(a, b, c, d), Seq::empty()) <==> a != 127,
        exposed(BindAddr::V6(bits), Seq::empty()) <==> bits != 1,
{
}

/// A timeout of zero tolerates any silence, any other the one that it says; a log of
/// `mb` mebibytes has so many bytes, as long as they can be counted.
pub proof fn law_limits(n: u64, mb: u64)
    ensures
        silence(0) is None,
        n > 0 ==> silence(n) == Some(n),
        mb <= 17592186044415 ==> bytes_of(mb) == mb * 1048576,
        mb > 17592186044415 ==> bytes_of(mb) == u64::MAX,
{
}

/// The keys of static backends come in the order of the backends.
pub proof fn law_keyed_in_order(backends: Seq<BackendV>, c: CredentialV, url: Seq<char>)
    ensures
        keyed(backends.push(BackendV::WithKey(c))) == keyed(backends).push(c),
        keyed(backends.push(BackendV::Url(url))) == keyed(backends),
        keyed(Seq::empty()).len() == 0,
{
    assert(backends.push(BackendV::WithKey(c)).drop_last() =~= backends);
    assert(backends.push(BackendV::Url(url)).drop_last() =~= backends);
}

/// A static backend is scanned at its URL, whether a key comes with it or not.
pub proof fn law_backend_url(url: Seq<char>, c: CredentialV)
    ensures
        backend_url(BackendV::Url(url)) == url,
        backend_url(BackendV::WithKey(c)) == c.url,
{
}

} // verus!
