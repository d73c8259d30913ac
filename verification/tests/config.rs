use hivllm::access::{
    constant_time_eq, cors_layer, expected_header, is_local_origin, require_api_key, CorsPolicy,
};
use hivllm::config::{Args, BindAddr, Config, Credential, LogFormat, StaticBackend};
use hivllm::discovery::Credentials;
use hivllm::hive::valid_hive_id;
use hivllm::logging::Truncate;
use hivllm::table::Table;

fn env(pairs: &[(&str, &str)]) -> Table<String, String> {
    let mut t = Table::new();
    for (k, v) in pairs {
        t.insert(k.to_string(), v.to_string());
    }
    t
}

fn no_flags() -> Args {
    Args {
        port: None,
        bind: None,
        extra_ports: None,
        static_backends: None,
        docker_socket: None,
        scan_interval: None,
        drop_after: None,
        load_interval: None,
        log_file: None,
        log_format: None,
        log_truncate: None,
        log_max_chars: None,
        log_max_mb: None,
        log_keep: None,
        log_compress: None,
        connect_timeout: None,
        read_timeout: None,
        max_body_mb: None,
        api_key: None,
        forward_auth: None,
        hive_id: None,
        cors_origin: None,
    }
}

fn some(s: &str) -> Option<String> {
    Some(s.to_string())
}

#[test]
fn static_backends_take_bare_urls_or_keys() {
    let mut c = Config::default();
    c.discovery.static_backends = vec![
        StaticBackend::Url("http://llamacpp:8080".into()),
        StaticBackend::WithKey(Credential {
            url: "http://gpu:8000".into(),
            api_key: None,
            api_key_env: some("HIVLLM_TEST_GPU_KEY"),
        }),
    ];
    c.credentials = vec![Credential {
        url: "http://127.0.0.1:9000".into(),
        api_key: some("inline"),
        api_key_env: None,
    }];
    assert_eq!(
        c.static_urls(),
        vec!["http://llamacpp:8080".to_string(), "http://gpu:8000".to_string()]
    );
    let creds = c.credentials(&env(&[("HIVLLM_TEST_GPU_KEY", "from-env")])).unwrap();
    assert_eq!(creds.for_url("http://gpu:8000"), Some("from-env"));
    assert_eq!(creds.for_url("http://127.0.0.1:9000"), Some("inline"));
    assert_eq!(creds.for_url("http://llamacpp:8080"), None);
    let shown = format!("{:?}", c.redacted());
    assert!(!shown.contains("inline") && shown.contains("***"), "{shown}");
}

#[test]
fn broken_secrets_fail_loudly() {
    let vars = env(&[]);
    let mut both = Config::default();
    both.server.api_key = some("a");
    both.server.api_key_env = some("B");
    assert!(both.server_api_key(&vars).is_err());
    let mut missing = Config::default();
    missing.server.api_key_env = some("HIVLLM_TEST_UNSET_VAR");
    assert!(missing
        .server_api_key(&vars)
        .unwrap_err()
        .contains("HIVLLM_TEST_UNSET_VAR"));
    let mut keyless = Config::default();
    keyless.credentials = vec![Credential {
        url: "http://x".into(),
        api_key: None,
        api_key_env: None,
    }];
    assert!(keyless.credentials(&vars).is_err());
}

#[test]
fn secrets_say_what_is_wrong() {
    let mut c = Config::default();
    assert_eq!(c.server_api_key(&env(&[])), Ok(None));
    c.server.api_key = some("");
    assert_eq!(c.server_api_key(&env(&[])), Ok(None));
    c.server.api_key_env = some("V");
    assert_eq!(
        c.server_api_key(&env(&[("V", "x")])),
        Err("server: set `api_key` or `api_key_env`, not both".to_string())
    );
    c.server.api_key = None;
    assert_eq!(c.server_api_key(&env(&[("V", "x")])), Ok(some("x")));
    assert_eq!(
        c.server_api_key(&env(&[("V", "")])),
        Err("server: environment variable `V` is not set".to_string())
    );
    // The first backend without a key is the one that is named.
    let bad = |url: &str| Credential { url: url.into(), api_key: None, api_key_env: None };
    c.discovery.static_backends = vec![StaticBackend::WithKey(bad("http://s"))];
    c.credentials = vec![bad("http://c")];
    assert_eq!(
        c.credentials(&env(&[])).unwrap_err(),
        "backend http://s: no `api_key` / `api_key_env`"
    );
}

#[test]
fn defaults_are_those_of_the_example_file() {
    let c = Config::default();
    assert_eq!(c.server.port, 8335);
    assert_eq!(c.server.bind, BindAddr::V4(127, 0, 0, 1));
    assert_eq!(c.server.cors_origin, "local");
    assert_eq!(c.server.max_body_mb, 64);
    assert_eq!(c.discovery.scan_interval, 30);
    assert_eq!(c.discovery.drop_after, 3);
    assert_eq!(c.routing.load_interval, 5);
    assert_eq!(c.routing.connect_timeout, 5);
    assert_eq!(c.routing.read_limit(), Some(600));
    assert!(!c.routing.forward_auth);
    assert_eq!(c.log.file, "hivllm-queries.jsonl");
    assert_eq!(c.log.format, LogFormat::Jsonl);
    assert_eq!(c.log.truncate, Truncate::Off);
    assert_eq!((c.log.max_chars, c.log.max_mb, c.log.keep, c.log.compress), (2000, 100, 20, true));
}

#[test]
fn flags_override_the_file_and_the_file_overrides_defaults() {
    let mut cfg = Config::default();
    cfg.server.port = 8000;
    cfg.server.api_key_env = some("SOME_VAR");
    cfg.discovery.scan_interval = 10;
    cfg.log.compress = true;
    let args = Args {
        port: Some(9000),
        log_compress: Some(false),
        forward_auth: Some(true),
        api_key: some("flag-key"),
        static_backends: Some(vec!["http://a:1".to_string(), "http://b:2".to_string()]),
        ..no_flags()
    };
    args.apply(&mut cfg);
    assert_eq!(cfg.server.port, 9000);
    assert!(!cfg.log.compress);
    assert!(cfg.routing.forward_auth);
    assert_eq!(cfg.discovery.scan_interval, 10, "untouched by flags: the file's value");
    assert_eq!(cfg.routing.load_interval, 5, "in neither: the default");
    assert_eq!(
        cfg.server_api_key(&env(&[])).unwrap().as_deref(),
        Some("flag-key")
    );
    assert_eq!(
        cfg.static_urls(),
        vec!["http://a:1".to_string(), "http://b:2".to_string()]
    );
}

#[test]
fn no_flags_change_nothing() {
    let mut cfg = Config::default();
    cfg.server.hive_id = some("x");
    let before = cfg.clone();
    no_flags().apply(&mut cfg);
    assert_eq!(cfg, before);
}

#[test]
fn sizes_and_exposure() {
    let mut c = Config::default();
    assert_eq!(c.server.max_body(), Some(64 * 1024 * 1024));
    c.server.max_body_mb = 0;
    assert_eq!(c.server.max_body(), None);
    c.server.max_body_mb = usize::MAX;
    assert_eq!(c.server.max_body(), Some(usize::MAX));
    assert_eq!(c.log.rotation().max_bytes, 100 * 1024 * 1024);
    c.log.max_mb = u64::MAX;
    assert_eq!(c.log.rotation().max_bytes, u64::MAX);
    c.routing.read_timeout = 0;
    assert_eq!(c.routing.read_limit(), None);
    assert!(!c.server.is_exposed(""));
    c.server.bind = BindAddr::V6(1);
    assert!(!c.server.is_exposed(""));
    c.server.bind = BindAddr::V4(0, 0, 0, 0);
    assert!(c.server.is_exposed(""));
    assert!(!c.server.is_exposed("key"));
}

#[test]
fn configured_hives() {
    let mut c = Config::default();
    c.discovery.drop_after = 0;
    let h = c.hive(Credentials::default()).unwrap();
    assert!(valid_hive_id(&h.own_id()) && h.own_id().starts_with("hive-"));
    assert_eq!(h.own_port(), 8335);
    assert_eq!(h.max_body(), Some(64 * 1024 * 1024));
    c.server.hive_id = some("pinned");
    let h = c.hive(Credentials::default()).unwrap();
    assert_eq!(h.own_id(), "pinned");
    c.server.hive_id = some("a b");
    let e = c.hive(Credentials::default()).err().unwrap();
    assert_eq!(e, "invalid hive id \"a b\": printable ASCII, no spaces or commas");
}

#[test]
fn local_origins_only() {
    let ok = |o: &str| is_local_origin(o);
    assert!(ok("http://localhost:5173"));
    assert!(ok("http://localhost"));
    assert!(ok("https://127.0.0.1:8443"));
    assert!(ok("http://[::1]:3000"));
    assert!(!ok("https://evil.example"));
    assert!(!ok("http://localhost.evil.example"));
    assert!(!ok("http://127.0.0.1.evil.example:80"));
    assert!(!ok("http://[::1].evil"));
    assert!(!ok("null"));
}

#[test]
fn api_key_guards_everything_but_health() {
    let expected = expected_header("k3y");
    assert_eq!(expected, b"Bearer k3y".to_vec());
    assert!(require_api_key(&expected, "/health", None));
    assert!(!require_api_key(&expected, "/api/hive/queries", None));
    assert!(!require_api_key(&expected, "/v1/models", Some(b"Bearer wrong")));
    assert!(require_api_key(&expected, "/v1/models", Some(b"Bearer k3y")));
}

#[test]
fn comparison_is_exact() {
    assert!(constant_time_eq(b"", b""));
    assert!(constant_time_eq(b"abc", b"abc"));
    assert!(!constant_time_eq(b"abc", b"abd"));
    assert!(!constant_time_eq(b"abc", b"abcd"));
    assert!(!constant_time_eq(b"\x01\x02", b"\x03\x00"));
}

#[test]
fn cors_settings() {
    assert!(matches!(cors_layer("local"), CorsPolicy::Local));
    assert!(matches!(cors_layer(" * "), CorsPolicy::Any));
    assert!(matches!(cors_layer(""), CorsPolicy::Disabled));
    assert!(matches!(cors_layer(" ,, "), CorsPolicy::Disabled));
    assert!(matches!(cors_layer("bad\u{1}"), CorsPolicy::Disabled));
    match cors_layer("https://a.example, bad\u{7f} ,https://b.example") {
        CorsPolicy::List(l) => assert_eq!(
            l,
            vec!["https://a.example".to_string(), "https://b.example".to_string()]
        ),
        other => panic!("{other:?}"),
    }
}
