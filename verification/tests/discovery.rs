use hivllm::discovery::{
    join_upstream_path, local_endpoint, merge_endpoints, models_url, normalize_base_url,
    parse_docker_ports, parse_ss_ports, parse_ss_processes, proc_hint, scan_ports, server_root,
    sort_endpoints, static_endpoint, url_host, well_known_ports, Credentials, DiscoveredEndpoint,
    Probed,
};
use hivllm::json::{parse, Json};
use hivllm::table::Table;

fn json(text: &str) -> Json {
    parse(text.as_bytes()).unwrap()
}

fn probed(ids: &[&str], body: &str, hive_id: Option<&str>) -> Probed {
    Probed::new(
        ids.iter().map(|s| s.to_string()).collect(),
        &json(body),
        hive_id.map(str::to_string),
    )
}

#[test]
fn parses_ss_output() {
    let sample = "State Recv-Q Send-Q Local Address:Port Peer Address:Port\nLISTEN 0 128 127.0.0.1:11434 0.0.0.0:*\nLISTEN 0 128 [::]:8000 [::]:*";
    let mut ports = parse_ss_ports(sample);
    ports.sort_unstable();
    assert!(ports.contains(&11434));
    assert!(ports.contains(&8000));
}

#[test]
fn ss_ports_are_sorted_unique_and_without_ssh() {
    let sample = "LISTEN 0 128 0.0.0.0:22 0.0.0.0:*\nLISTEN 0 5 *:9000 *:*\nLISTEN 0 5 [::]:9000 [::]:*\nLISTEN 0 5 127.0.0.1:80abc x:70000";
    assert_eq!(parse_ss_ports(sample), vec![80, 9000]);
    assert!(parse_ss_ports("").is_empty());
}

#[test]
fn ss_processes_by_port() {
    let out = "State Local\nLISTEN 0 4096 127.0.0.1:11434 0.0.0.0:* users:((\"ollama\",pid=12,fd=3))\nLISTEN 0 4096 *:8000 *:*\nLISTEN 0 4096 *:9001 *:* users:((\"py thon\",pid=1,fd=2))\r\n";
    let map = parse_ss_processes(out);
    assert_eq!(map.get(&11434).map(|s| s.as_str()), Some("ollama"));
    assert_eq!(map.get(&9001).map(|s| s.as_str()), Some("py thon"));
    assert!(map.get(&8000).is_none());
    assert_eq!(proc_hint(11434, &map), "ollama");
    assert_eq!(proc_hint(8001, &map), "vllm");
    assert_eq!(proc_hint(1234, &map), "lmstudio");
    assert_eq!(proc_hint(8080, &map), "llama.cpp");
    assert_eq!(proc_hint(9009, &map), "port-9009");
}

#[test]
fn docker_ports_are_the_published_host_ports() {
    let out = "0.0.0.0:8000->8000/tcp, :::8000->8000/tcp\n127.0.0.1:11434->11434/tcp\n6379/tcp\n\n";
    assert_eq!(parse_docker_ports(out), vec![8000, 11434]);
}

#[test]
fn well_known_contains_defaults() {
    let ports = well_known_ports(&[9999]);
    assert!(ports.contains(&11434));
    assert!(ports.contains(&1234));
    assert!(ports.contains(&9999));
}

#[test]
fn well_known_ports_are_not_repeated() {
    let ports = well_known_ports(&[8000, 7, 7]);
    assert_eq!(
        ports,
        vec![11434, 1234, 8000, 8080, 5000, 5001, 8001, 11435, 11436, 6333, 6334, 7]
    );
}

#[test]
fn scans_leave_the_own_port_out() {
    let ports = scan_ports(&[9999], &[8335, 22], &[8000, 7000], &[8335]);
    assert_eq!(
        ports,
        vec![22, 1234, 5000, 5001, 6333, 6334, 7000, 8000, 8001, 8080, 9999, 11434, 11435, 11436]
    );
}

#[test]
fn normalizes_static_urls() {
    assert_eq!(normalize_base_url("http://llamacpp:8080/"), "http://llamacpp:8080");
    assert_eq!(normalize_base_url("llamacpp:8080"), "http://llamacpp:8080");
    assert_eq!(normalize_base_url("https://h:1/a/"), "https://h:1/a");
}

fn ep(url: &str, models: &[&str], source: &str) -> DiscoveredEndpoint {
    DiscoveredEndpoint {
        id: format!("{source}-{url}"),
        name: "test".into(),
        base_url: url.into(),
        models: models.iter().map(|s| s.to_string()).collect(),
        source: source.into(),
        hive_id: None,
        paths: Table::new(),
        model_meta: Table::new(),
    }
}

#[test]
fn merges_by_base_url_with_model_union() {
    let out = merge_endpoints(
        vec![ep("http://127.0.0.1:11434", &["a"], "ss-listener")],
        vec![
            ep("http://127.0.0.1:11434", &["b"], "static"),
            ep("http://llamacpp:8080", &["c"], "static"),
        ],
    );
    assert_eq!(out.len(), 2);
    let local = out.iter().find(|e| e.base_url.contains("11434")).unwrap();
    assert_eq!(local.models, vec!["a".to_string(), "b".to_string()]);
    assert_eq!(local.source, "static");
}

#[test]
fn merging_keeps_the_first_entry_and_fills_what_it_lacks() {
    let mut first = ep("http://h", &["z", "a"], "docker");
    first.model_meta.insert("a".into(), Json::Unsigned(1));
    let mut second = ep("http://h", &["a", "k"], "ss-listener");
    second.hive_id = Some("hive-1".into());
    second.model_meta.insert("a".into(), Json::Unsigned(2));
    second.model_meta.insert("k".into(), Json::Unsigned(3));
    second.paths.insert("k".into(), vec![vec!["hive-1".to_string()]]);
    let out = merge_endpoints(vec![first], vec![second]);
    assert_eq!(out.len(), 1);
    assert_eq!(out[0].id, "docker-http://h");
    assert_eq!(out[0].source, "docker");
    assert_eq!(out[0].models, vec!["a".to_string(), "k".to_string(), "z".to_string()]);
    assert_eq!(out[0].hive_id.as_deref(), Some("hive-1"));
    assert_eq!(out[0].model_meta.get(&"a".to_string()), Some(&Json::Unsigned(1)));
    assert_eq!(out[0].model_meta.get(&"k".to_string()), Some(&Json::Unsigned(3)));
    assert_eq!(
        out[0].paths.get(&"k".to_string()),
        Some(&vec![vec!["hive-1".to_string()]])
    );
}

#[test]
fn v1_suffixed_bases_dont_double_the_prefix() {
    assert_eq!(
        models_url("http://127.0.0.1:8180/general-stage1/v1"),
        "http://127.0.0.1:8180/general-stage1/v1/models"
    );
    assert_eq!(
        models_url("http://127.0.0.1:8180/general-stage1/v1/"),
        "http://127.0.0.1:8180/general-stage1/v1/models"
    );
    assert_eq!(models_url("http://127.0.0.1:8000"), "http://127.0.0.1:8000/v1/models");
    assert_eq!(
        server_root("http://127.0.0.1:8180/general-stage1/v1"),
        "http://127.0.0.1:8180/general-stage1"
    );
    assert_eq!(server_root("http://127.0.0.1:8000"), "http://127.0.0.1:8000");
    assert_eq!(
        join_upstream_path("http://127.0.0.1:8180/general-stage1/v1", "/v1/chat/completions"),
        "http://127.0.0.1:8180/general-stage1/v1/chat/completions"
    );
    assert_eq!(
        join_upstream_path("http://127.0.0.1:8000", "/v1/chat/completions"),
        "http://127.0.0.1:8000/v1/chat/completions"
    );
}

#[test]
fn routes_outside_v1_live_next_to_it() {
    for (path, expected) in [
        ("/v1/responses", "http://h/gw/v1/responses"),
        ("/v1/rerank", "http://h/gw/v1/rerank"),
        ("/v2/rerank", "http://h/gw/v2/rerank"),
        ("/tokenize", "http://h/gw/tokenize"),
        ("/v1/audio/speech", "http://h/gw/v1/audio/speech"),
    ] {
        assert_eq!(join_upstream_path("http://h/gw/v1", path), expected);
        assert_eq!(join_upstream_path("http://h/gw/", path), expected);
    }
}

#[test]
fn hosts_of_urls() {
    assert_eq!(url_host("http://gpu:8000/a/b"), "gpu:8000");
    assert_eq!(url_host("gpu"), "gpu");
    assert_eq!(url_host("x://http://gpu/z"), "gpu");
}

#[test]
fn static_endpoints_come_from_what_answered() {
    // Only what answered becomes an endpoint.
    let found: Vec<DiscoveredEndpoint> = [
        (
            "http://127.0.0.1:4711",
            Some(probed(&["demo-model"], "{\"data\": [{\"id\": \"demo-model\"}]}", None)),
        ),
        ("127.0.0.1:4712", None),
    ]
    .into_iter()
    .filter_map(|(raw, p)| p.map(|p| static_endpoint(raw, p)))
    .collect();
    assert_eq!(found.len(), 1);
    assert_eq!(found[0].models, vec!["demo-model".to_string()]);
    assert_eq!(found[0].source, "static");
    assert_eq!(found[0].id, "static-http---127-0-0-1-4711");
    assert_eq!(found[0].name, "127.0.0.1:4711");
}

#[test]
fn static_endpoints_keep_v1_prefixed_bases() {
    let raw = "http://127.0.0.1:4711/general-stage1/v1";
    assert_eq!(models_url(raw), "http://127.0.0.1:4711/general-stage1/v1/models");
    let ep = static_endpoint(
        raw,
        probed(&["teacher-general-stage1"], "{\"data\": []}", None),
    );
    assert_eq!(ep.models, vec!["teacher-general-stage1".to_string()]);
    assert_eq!(ep.source, "static");
    assert_eq!(ep.base_url, raw);
}

#[test]
fn static_ids_keep_letters_and_digits_of_any_script() {
    let ep = static_endpoint("http://größe_1/", probed(&[], "{}", None));
    assert_eq!(ep.id, "static-http---größe-1");
}

#[test]
fn local_endpoints_say_where_they_were_found() {
    let names = std::collections::HashMap::new();
    let source = |port: u16| local_endpoint(port, probed(&["m"], "{}", None), &vec![7000], &names);
    assert_eq!(source(7000).source, "docker");
    assert_eq!(source(11434).source, "well-known-port");
    assert_eq!(source(7001).source, "ss-listener");
    let ep = source(11434);
    assert_eq!(ep.id, "http-127.0.0.1-11434");
    assert_eq!(ep.base_url, "http://127.0.0.1:11434");
    assert_eq!(ep.name, "ollama");
    let sorted = sort_endpoints(vec![source(7001), source(7000)]);
    assert_eq!(sorted[0].base_url, "http://127.0.0.1:7000");
}

#[test]
fn probes_read_models_metadata_and_paths() {
    let body = "{\"data\": [{\"id\": \"m\", \"max_model_len\": 5, \"hivllm\": {\"paths\": [[], [\"a\"], [\"1\",\"2\",\"3\",\"4\",\"5\",\"6\",\"7\",\"8\"]]}}, {\"id\": \"k\", \"hivllm\": {\"paths\": [[1]]}}]}";
    let p = probed(&["m", "k", "m"], body, Some("peer"));
    assert_eq!(p.models, vec!["k".to_string(), "m".to_string()]);
    assert_eq!(
        p.paths.get(&"m".to_string()),
        Some(&vec![
            vec!["peer".to_string()],
            vec!["peer".to_string(), "a".to_string()]
        ])
    );
    assert!(p.paths.get(&"k".to_string()).is_none());
    let meta = p.model_meta.get(&"m".to_string()).unwrap();
    assert_eq!(meta.get("max_model_len"), Some(&Json::Unsigned(5)));
    // A plain server advertises no paths.
    let plain = probed(&["m"], body, None);
    assert!(plain.paths.get(&"m".to_string()).is_none());
}

#[test]
fn the_longest_prefix_gives_the_key() {
    let c = Credentials::new(vec![
        ("http://gpu".to_string(), "host".to_string()),
        ("http://gpu:8000/".to_string(), "port".to_string()),
        ("gpu:8000".to_string(), "later".to_string()),
    ]);
    assert_eq!(c.for_url("http://gpu:8000"), Some("port"));
    assert_eq!(c.for_url("http://gpu:9000"), Some("host"));
    assert_eq!(c.for_url("http://cpu"), None);
    assert_eq!(c.len(), 3);
    assert!(!c.is_empty());
    assert!(Credentials::default().is_empty());
}
