use hivllm::deep::Dup;
use hivllm::discovery::{DiscoveredEndpoint, Probed};
use hivllm::hive::loads::{LoadAnswer, ProbeGroup};
use hivllm::hive::request::{parse_via, LoadQuery, QueriesQuery};
use hivllm::hive::{
    hive_id, new_hive_id, routes, valid_hive_id, Hive, FAILURE_COOLDOWN, MAX_ADVERTISED_PATHS,
};
use hivllm::json::{parse, Json};
use hivllm::load::Load;
use hivllm::table::Table;

fn m(s: &str) -> String {
    s.to_string()
}

fn ep(id: &str, port: u16, models: &[&str]) -> DiscoveredEndpoint {
    DiscoveredEndpoint {
        id: id.to_string(),
        name: "test".into(),
        base_url: format!("http://127.0.0.1:{port}"),
        models: models.iter().map(|s| s.to_string()).collect(),
        source: "test".into(),
        hive_id: None,
        paths: Table::new(),
        model_meta: Table::new(),
    }
}

fn new_hive() -> Hive {
    Hive::new(0)
}

fn hive_with(endpoints: Vec<DiscoveredEndpoint>, loads: Vec<((&str, &str), Load)>) -> Hive {
    let mut hive = new_hive();
    hive.set_endpoints(endpoints);
    let answers = loads
        .into_iter()
        .map(|((id, model), load)| LoadAnswer { id: m(id), covers: vec![m(model)], load })
        .collect();
    hive.refresh_load(answers, 0);
    hive
}

fn urls(ports: &[u16]) -> Vec<String> {
    ports.iter().map(|p| format!("http://127.0.0.1:{p}")).collect()
}

fn url(port: u16) -> String {
    format!("http://127.0.0.1:{port}")
}

#[test]
fn routes_to_least_loaded_backend() {
    let mut hive = hive_with(
        vec![ep("a", 9001, &["m"]), ep("b", 9002, &["m"]), ep("c", 9003, &["m"])],
        vec![
            (("a", "m"), Load::Known(5)),
            (("b", "m"), Load::Known(1)),
            (("c", "m"), Load::Known(3)),
        ],
    );
    assert_eq!(hive.candidates("m", 0), urls(&[9002, 9003, 9001]));
    // Stable across calls when loads don't change.
    assert_eq!(hive.candidates("m", 0), urls(&[9002, 9003, 9001]));
}

#[test]
fn equal_loads_break_ties_round_robin() {
    let mut hive = hive_with(
        vec![ep("a", 9001, &["m"]), ep("b", 9002, &["m"])],
        vec![(("a", "m"), Load::Known(2)), (("b", "m"), Load::Known(2))],
    );
    assert_eq!(hive.candidates("m", 0), urls(&[9001, 9002]));
    assert_eq!(hive.candidates("m", 0), urls(&[9002, 9001]));
    assert_eq!(hive.candidates("m", 0), urls(&[9001, 9002]));
}

#[test]
fn unknown_loads_fall_back_to_round_robin() {
    let mut hive = hive_with(
        vec![ep("a", 9001, &["m"]), ep("b", 9002, &["m"]), ep("c", 9003, &["m"])],
        vec![],
    );
    assert_eq!(hive.candidates("m", 0), urls(&[9001, 9002, 9003]));
    assert_eq!(hive.candidates("m", 0), urls(&[9002, 9003, 9001]));
    assert_eq!(hive.candidates("m", 0), urls(&[9003, 9001, 9002]));
}

#[test]
fn unknown_idle_joins_zero_load_tie() {
    let mut hive = hive_with(
        vec![ep("busy", 9001, &["m"]), ep("mystery", 9002, &["m"]), ep("idle", 9003, &["m"])],
        vec![(("busy", "m"), Load::Known(50)), (("idle", "m"), Load::Known(0))],
    );
    // Same effective load (0) round-robins in discovery order; busy last.
    assert_eq!(hive.candidates("m", 0), urls(&[9002, 9003, 9001]));
}

#[test]
fn hive_observed_load_counts_when_server_reports_zero() {
    let mut hive = hive_with(
        vec![ep("stuck", 9001, &["m"]), ep("idle", 9002, &["m"])],
        vec![(("stuck", "m"), Load::Known(0)), (("idle", "m"), Load::Known(0))],
    );
    // 4 requests the hive is serving on "stuck" right now: a `/load` frozen
    // at 0 must not outrank a truly idle backend.
    for _ in 0..4 {
        hive.track_inflight(&url(9001));
    }
    assert_eq!(hive.candidates("m", 0), urls(&[9002, 9001]));
    assert_eq!(hive.inflight(&url(9001)), 4);
    for _ in 0..4 {
        hive.release_inflight(&url(9001));
    }
    assert_eq!(hive.inflight(&url(9001)), 0);
    hive.release_inflight(&url(9001));
    assert_eq!(hive.inflight(&url(9001)), 0);
}

#[test]
fn unknown_model_has_no_candidates() {
    let mut hive = hive_with(vec![ep("a", 9001, &["m"])], vec![(("a", "m"), Load::Known(0))]);
    assert!(hive.candidates("nope", 0).is_empty());
}

#[test]
fn failed_backends_are_ranked_last_until_they_cooled_down() {
    let mut hive = hive_with(vec![ep("a", 9001, &["m"]), ep("b", 9002, &["m"])], vec![]);
    hive.track_inflight(&url(9002));
    hive.mark_failed(&url(9001), 1000);
    assert_eq!(hive.candidates("m", 1000), urls(&[9002, 9001]));
    let view = hive.render_view(1000 + FAILURE_COOLDOWN - 1);
    assert!(view.contains("127.0.0.1:9001 load=~0 (failing, ranked last)"), "{view}");
    assert_eq!(hive.candidates("m", 1000 + FAILURE_COOLDOWN), urls(&[9001, 9002]));
    hive.mark_failed(&url(9001), 50000);
    hive.mark_healthy(&url(9001));
    assert_eq!(hive.candidates("m", 50000), urls(&[9001, 9002]));
}

#[test]
fn visited_backends_are_excluded() {
    let mut hive = hive_with(
        vec![ep("a", 9001, &["m"]), ep("b", 9002, &["m"])],
        vec![(("a", "m"), Load::Known(0)), (("b", "m"), Load::Known(0))],
    );
    let visited = vec![m("http://127.0.0.1:9001")];
    assert_eq!(hive.candidates_excluding("m", &visited, 0), urls(&[9002]));
    let all = vec![m("http://127.0.0.1:9001"), m("http://127.0.0.1:9002")];
    assert!(hive.candidates_excluding("m", &all, 0).is_empty());
}

#[test]
fn hives_whose_every_route_was_visited_are_excluded() {
    let mut peer = ep("p", 9001, &["m", "k"]);
    peer.hive_id = Some(m("p"));
    peer.paths.insert(m("m"), vec![vec![m("p"), m("q")], vec![m("p"), m("r")]]);
    let mut hive = hive_with(vec![peer], vec![]);
    assert_eq!(hive.candidates_excluding("m", &vec![m("q")], 0), urls(&[9001]));
    assert!(hive.candidates_excluding("m", &vec![m("q"), m("r")], 0).is_empty());
    assert!(hive.candidates_excluding("m", &vec![m("p")], 0).is_empty());
    // Nothing recorded: one opaque hop.
    assert!(hive.candidates_excluding("k", &vec![m("p")], 0).is_empty());
    assert_eq!(hive.candidates_excluding("k", &vec![m("q")], 0), urls(&[9001]));
}

#[test]
fn via_header_parses_ordered_and_deduped() {
    assert_eq!(
        parse_via(Some(
            "http://127.0.0.1:8335, http://127.0.0.1:8080 ,http://127.0.0.1:8335"
        )),
        vec!["http://127.0.0.1:8335".to_string(), "http://127.0.0.1:8080".to_string()]
    );
    assert!(parse_via(None).is_empty());
    assert!(parse_via(Some(" , ,")).is_empty());
}

#[test]
fn view_orders_backends_by_decreasing_load() {
    let mut hive = hive_with(
        vec![ep("idle", 9001, &["m"]), ep("busy", 9002, &["m"]), ep("mystery", 9003, &["m"])],
        vec![(("idle", "m"), Load::Known(0)), (("busy", "m"), Load::Known(7))],
    );
    hive.track_inflight(&url(9003));
    hive.track_inflight(&url(9003));
    let view = hive.render_view(0);
    let busy = view.find("127.0.0.1:9002 load=7").expect("busy row");
    let approx = view.find("127.0.0.1:9003 load=~2").expect("approx row");
    let idle = view.find("127.0.0.1:9001 load=~0").expect("idle row");
    assert!(busy < approx && approx < idle, "{view}");
    assert_eq!(
        view,
        "🐝 hive: 1 model, 3 backends\n  m (3 backends):\n    127.0.0.1:9002 load=7\n    127.0.0.1:9003 load=~2\n    127.0.0.1:9001 load=~0"
    );
}

#[test]
fn view_handles_empty_hive() {
    assert_eq!(new_hive().render_view(0), "🐝 hive: 0 models, 0 backends");
}

#[test]
fn backends_view_mirrors_stdout_rows() {
    let mut hive = hive_with(
        vec![ep("busy", 9001, &["m"]), ep("idle", 9002, &["m"])],
        vec![(("busy", "m"), Load::Known(7))],
    );
    hive.track_inflight(&url(9002));
    hive.track_inflight(&url(9002));
    let view = hive.backends_view(0);
    assert_eq!(view.models.len(), 1);
    assert_eq!(view.models[0].id, "m");
    let rows = &view.models[0].backends;
    assert_eq!(rows.len(), 2);
    // Decreasing load: exact 7 first, approx ~2 second.
    assert_eq!(rows[0].ip, "127.0.0.1");
    assert_eq!(rows[0].port, Some(9001));
    assert_eq!((rows[0].load, rows[0].exact), (7, true));
    assert_eq!((rows[1].load, rows[1].exact), (2, false));
    // Same data the stdout view renders.
    let text = hive.render_view(0);
    assert!(text.contains("127.0.0.1:9001 load=7"));
    assert!(text.contains("127.0.0.1:9002 load=~2"));
}

#[test]
fn the_view_is_logged_only_when_it_changed() {
    let mut hive = new_hive();
    assert_eq!(hive.log_view(0).as_deref(), Some("🐝 hive: 0 models, 0 backends"));
    assert_eq!(hive.log_view(0), None);
    hive.set_endpoints(vec![ep("a", 9001, &["m", "a"])]);
    let text = hive.log_view(0).unwrap();
    assert!(text.starts_with("🐝 hive: 2 models, 2 backends\n  a (1 backend):"), "{text}");
    assert_eq!(hive.refresh_load(vec![], 0), None);
}

#[test]
fn base_urls_split_into_host_port_and_path() {
    let split = |u: &str| Hive::split_host_port(u);
    assert_eq!(split("http://127.0.0.1:9037"), (m("127.0.0.1"), Some(9037), m("")));
    assert_eq!(
        split("http://127.0.0.1:8180/general-stage1/v1"),
        (m("127.0.0.1"), Some(8180), m("/general-stage1/v1"))
    );
    assert_eq!(split("https://host/x:1"), (m("host"), None, m("/x:1")));
    assert_eq!(split("http://[::1]:80"), (m("[::1]"), Some(80), m("")));
    assert_eq!(split("http://h:x"), (m("h"), None, m("")));
}

#[test]
fn aggregate_load_is_what_the_next_request_faces() {
    let hive = hive_with(
        vec![ep("a", 9001, &["m"]), ep("b", 9002, &["m"]), ep("c", 9003, &["m"])],
        vec![
            (("a", "m"), Load::Known(10)),
            (("b", "m"), Load::Known(30)),
            (("c", "m"), Load::Known(32)),
        ],
    );
    assert_eq!(hive.aggregate_load(None), (10, true));
}

#[test]
fn aggregate_load_empty_hive_is_zero() {
    assert_eq!(new_hive().aggregate_load(None), (0, false));
}

#[test]
fn measured_idle_members_make_the_hive_exactly_idle() {
    // One saturated backend next to a measured-idle one: a new request
    // lands on the idle one, so upstream hives should see exactly 0.
    let hive = hive_with(
        vec![ep("idle", 9001, &["m"]), ep("hot", 9002, &["m"])],
        vec![(("idle", "m"), Load::Measured(0)), (("hot", "m"), Load::Measured(32))],
    );
    assert_eq!(hive.aggregate_load(None), (0, true));
}

#[test]
fn unverified_minimum_stays_approximate() {
    // A bare 0 (idle or untracked?) and an untracked member: the next request
    // may land on either, so the answer is ~0, never passed off as exact, even
    // next to an exact 32.
    let hive = hive_with(
        vec![ep("maybe", 9001, &["m"]), ep("hot", 9002, &["m"]), ep("mystery", 9003, &["m"])],
        vec![(("maybe", "m"), Load::Known(0)), (("hot", "m"), Load::Known(32))],
    );
    assert_eq!(hive.aggregate_load(None), (0, false));
    // Ties between an exact and an approximate minimum prefer exact.
    let mut tie = hive_with(
        vec![ep("a", 9001, &["m"]), ep("b", 9002, &["m"])],
        vec![(("a", "m"), Load::Known(3)), (("b", "m"), Load::Known(0))],
    );
    for _ in 0..3 {
        tie.track_inflight(&url(9002));
    }
    assert_eq!(tie.aggregate_load(None), (3, true));
}

#[test]
fn aggregate_load_scopes_to_one_model() {
    // "hot" is pressured on m2 only; "cold" serves m1 measured-idle.
    let hive = hive_with(
        vec![ep("hot", 9001, &["m1", "m2"]), ep("cold", 9002, &["m1"])],
        vec![
            (("hot", "m1"), Load::Measured(4)),
            (("hot", "m2"), Load::Measured(12)),
            (("cold", "m1"), Load::Measured(0)),
        ],
    );
    assert_eq!(hive.aggregate_load(Some("m2")), (12, true));
    assert_eq!(hive.aggregate_load(Some("m1")), (0, true));
    assert_eq!(hive.aggregate_load(Some("nope")), (0, false));
}

#[test]
fn load_endpoint_accepts_model_param() {
    let hive = hive_with(
        vec![ep("hot", 9001, &["m1", "m2"])],
        vec![(("hot", "m2"), Load::Known(12))],
    );
    let query = LoadQuery { model: Some(m("m2")) };
    let v = hive.server_load(query.model.as_deref());
    assert_eq!(v.get("server_load"), Some(&Json::Unsigned(12)));
    assert_eq!(v.get("hivllm").unwrap().get("exact"), Some(&Json::Bool(true)));
}

#[test]
fn bare_load_is_skipped_for_multi_model_backends() {
    let mut hive = hive_with(
        vec![ep("single", 9001, &["m1"]), ep("multi", 9002, &["m1", "m2"])],
        vec![],
    );
    let jobs = hive.load_jobs();
    assert_eq!(jobs.len(), 2);
    // Single-model backend: bare /load is that model's load.
    assert_eq!(jobs[0].chain, vec![ProbeGroup::Server, ProbeGroup::SingleModel]);
    // Multi-model backend: it cannot be attributed to one of them.
    assert_eq!(jobs[1].chain, vec![ProbeGroup::Server]);
    hive.refresh_load(
        vec![
            LoadAnswer { id: m("single"), covers: vec![m("m1")], load: Load::Known(99) },
            LoadAnswer { id: m("multi"), covers: vec![m("m1"), m("m2")], load: Load::Unknown },
        ],
        0,
    );
    assert_eq!(hive.load_of(&m("single"), &m("m1")), Load::Known(99));
    assert_eq!(hive.load_of(&m("multi"), &m("m1")), Load::Unknown);
    assert_eq!(hive.load_of(&m("multi"), &m("m2")), Load::Unknown);
}

#[test]
fn load_probes_run_once_per_server_and_per_model_only_for_hives() {
    let plain = ep("plain", 1, &["m1", "m2", "m3"]);
    let mut peer = ep("peer", 2, &["m1", "m2"]);
    peer.hive_id = Some("peer-hive".into());
    let idle = ep("none", 3, &[]);
    let mut hive = hive_with(vec![plain, peer, idle], vec![]);
    let jobs = hive.load_jobs();
    let asked: Vec<(&str, &str, usize, ProbeGroup)> = jobs
        .iter()
        .map(|j| (j.id.as_str(), j.asked.as_str(), j.covers.len(), j.chain[0]))
        .collect();
    assert_eq!(
        asked,
        vec![
            ("plain", "m1", 3, ProbeGroup::Server),
            ("peer", "m1", 1, ProbeGroup::Hive),
            ("peer", "m2", 1, ProbeGroup::Hive),
        ]
    );
    let answers = jobs
        .into_iter()
        .map(|j| LoadAnswer {
            load: if j.id == "plain" { Load::Measured(3) } else { Load::Measured(7) },
            id: j.id,
            covers: j.covers,
        })
        .collect();
    hive.refresh_load(answers, 0);
    for x in ["m1", "m2", "m3"] {
        assert_eq!(hive.load_of(&m("plain"), &m(x)), Load::Measured(3));
    }
    assert_eq!(hive.load_of(&m("peer"), &m("m2")), Load::Measured(7));
}

#[test]
fn hive_ids_are_unique_and_valid() {
    let (a, b) = (new_hive_id(), new_hive_id());
    assert_ne!(a, b);
    assert!(valid_hive_id(&a));
    assert!(!valid_hive_id("a,b"));
    assert!(!valid_hive_id("a b"));
    assert!(!valid_hive_id(""));
}

#[test]
fn hive_ids_are_sixteen_hexadecimal_digits() {
    assert_eq!(hive_id(0), "hive-0000000000000000");
    assert_eq!(hive_id(0x0123_4567_89ab_cdef), "hive-0123456789abcdef");
    assert_eq!(hive_id(u64::MAX), "hive-ffffffffffffffff");
    assert!(!valid_hive_id("grüezi"));
    assert!(!valid_hive_id("tab\t"));
    assert!(valid_hive_id("~!"));
}

#[test]
fn advertised_paths_skip_loops_and_stay_bounded() {
    let hive_member = |hid: &str, paths: Vec<Vec<&str>>| {
        let mut e = ep(hid, 1, &["m"]);
        e.base_url = format!("http://{hid}");
        e.hive_id = Some(hid.into());
        e.paths.insert(
            m("m"),
            paths
                .into_iter()
                .map(|p| p.into_iter().map(String::from).collect())
                .collect(),
        );
        e
    };
    let eps = vec![
        ep("direct", 9001, &["m"]),
        hive_member("x", vec![vec!["x"], vec!["x", "req"]]),
    ];
    let avoid = vec![m("req"), m("me")];
    // Direct first, then x; the route through the requester is dropped.
    assert_eq!(
        Hive::advertised_paths(&eps, "m", &avoid),
        vec![Vec::<String>::new(), vec!["x".to_string()]]
    );
    let many: Vec<DiscoveredEndpoint> = (0..20)
        .map(|i| hive_member(&format!("h{i}"), vec![vec![&format!("h{i}")]]))
        .collect();
    assert_eq!(
        Hive::advertised_paths(&many, "m", &avoid).len(),
        MAX_ADVERTISED_PATHS
    );
    // Too many hops, and the shortest first.
    let far = vec![hive_member(
        "f",
        vec![vec!["1", "2", "3", "4", "5", "6", "7", "8"], vec!["f", "g"], vec!["f"]],
    )];
    assert_eq!(
        Hive::advertised_paths(&far, "m", &avoid),
        vec![vec![m("f")], vec![m("f"), m("g")]]
    );
}

#[test]
fn hive_drops_itself_when_reached_by_another_address() {
    let hive = new_hive();
    let mut me = ep("me", 1, &["m"]);
    me.base_url = m("http://localhost:8335");
    me.hive_id = Some(hive.own_id());
    assert!(hive.without_self(vec![me]).is_empty());
}

/// What a hive that asks `of` for its models finds, as an endpoint.
fn probe(asking: &Hive, of: &Hive, base_url: &str) -> DiscoveredEndpoint {
    let body = of.list_models(Some(&asking.own_id()));
    let ids = body
        .get("data")
        .unwrap()
        .as_array()
        .unwrap()
        .iter()
        .map(|o| o.get("id").unwrap().as_str().unwrap().to_string())
        .collect();
    hivllm::discovery::static_endpoint(base_url, Probed::new(ids, &body, Some(of.own_id())))
}

fn backend(up: bool) -> DiscoveredEndpoint {
    ep("r", 9000, if up { &["m"] } else { &[] })
}

fn serves_m(h: &Hive) -> bool {
    h.snapshot().iter().any(|e| e.models.iter().any(|x| x == "m"))
}

#[test]
fn dead_model_does_not_survive_in_a_hive_ring() {
    // Ring A → B → C → A (each probes the next); only A has the real backend.
    let (mut a, mut b, mut c) = (new_hive(), new_hive(), new_hive());
    let round = |a: &mut Hive, b: &mut Hive, c: &mut Hive, up: bool| {
        let (r, to_b) = (backend(up), probe(a, b, "http://b"));
        a.set_endpoints(vec![r, to_b]);
        let to_c = probe(b, c, "http://c");
        b.set_endpoints(vec![to_c]);
        let to_a = probe(c, a, "http://a");
        c.set_endpoints(vec![to_a]);
    };
    for _ in 0..3 {
        round(&mut a, &mut b, &mut c, true);
    }
    // "m" travelled around: B reaches it through C then A.
    assert!(serves_m(&b));
    let snapshot = b.snapshot();
    assert_eq!(
        snapshot[0].paths.get(&m("m")),
        Some(&vec![vec![c.own_id(), a.own_id()]])
    );
    // A never learns its own model back through B.
    assert_eq!(a.candidates("m", 0), urls(&[9000]));
    // The backend stops serving "m".
    round(&mut a, &mut b, &mut c, false);
    assert!(!serves_m(&a), "the hive that lost the backend must drop it at once");
    assert!(!serves_m(&c));
    round(&mut a, &mut b, &mut c, false);
    for _ in 0..3 {
        for h in [&a, &b, &c] {
            assert!(!serves_m(h), "a hive still serves a dead model");
        }
        round(&mut a, &mut b, &mut c, false);
    }
}

#[test]
fn members_survive_a_few_missed_scans() {
    let mut hive = new_hive().with_drop_after(3);
    let a = ep("a", 9001, &["m"]);
    let b = ep("b", 9002, &["m"]);
    hive.set_endpoints(vec![a.dup(), b.dup()]);
    let urls_of =
        |h: &Hive| h.snapshot().iter().map(|e| e.base_url.clone()).collect::<Vec<String>>();
    // `a` misses two scans: still a member, last known models intact.
    for _ in 0..2 {
        hive.set_endpoints(vec![b.dup()]);
        assert_eq!(urls_of(&hive), urls(&[9001, 9002]));
    }
    assert_eq!(hive.candidates("m", 0).len(), 2);
    // Third miss in a row: gone.
    hive.set_endpoints(vec![b.dup()]);
    assert_eq!(urls_of(&hive), urls(&[9002]));
}

#[test]
fn answering_resets_the_miss_count_and_updates_models() {
    let mut hive = new_hive().with_drop_after(2);
    hive.set_endpoints(vec![ep("a", 9001, &["m"])]);
    hive.set_endpoints(vec![]); // miss 1
    // Answers again, now without "m": taken as-is, count reset.
    hive.set_endpoints(vec![ep("a", 9001, &["other"])]);
    assert_eq!(hive.snapshot()[0].models, vec!["other".to_string()]);
    hive.set_endpoints(vec![]); // miss 1 again, not 2
    assert_eq!(hive.snapshot().len(), 1);
    hive.set_endpoints(vec![]);
    assert!(hive.snapshot().is_empty());
}

#[test]
fn docker_members_and_drop_after_one_leave_at_once() {
    let mut container = ep("c", 9001, &["m"]);
    container.source = "docker".into();
    let mut hive = new_hive();
    hive.set_endpoints(vec![container]);
    hive.set_endpoints(vec![]);
    assert!(hive.snapshot().is_empty());

    let mut strict = new_hive().with_drop_after(1);
    strict.set_endpoints(vec![ep("a", 9001, &["m"])]);
    strict.set_endpoints(vec![]);
    assert!(strict.snapshot().is_empty());
}

#[test]
fn round_robin_state_is_per_model_and_pruned() {
    let mut hive = new_hive();
    hive.set_endpoints(vec![ep("a", 9001, &["m", "old"]), ep("b", 9002, &["m"])]);
    hive.candidates("m", 0);
    hive.candidates("old", 0);
    assert_eq!((hive.turn("m"), hive.turn("old")), (Some(1), Some(1)));
    // "old" is no longer served anywhere: its counter goes.
    hive.set_endpoints(vec![ep("a", 9001, &["m"]), ep("b", 9002, &["m"])]);
    assert_eq!((hive.turn("m"), hive.turn("old")), (Some(1), None));
}

#[test]
fn model_list_keeps_upstream_metadata() {
    let mut e = ep("vllm", 9001, &["m"]);
    e.model_meta.insert(
        m("m"),
        parse(
            br#"{"id": "m", "object": "model", "owned_by": "vllm", "max_model_len": 8192, "created": 42}"#,
        )
        .unwrap(),
    );
    let hive = hive_with(vec![e, ep("z", 9002, &["a", "m"])], vec![]);
    let list = hive.list_models(None);
    let data = list.get("data").unwrap().as_array().unwrap();
    assert_eq!(data.len(), 2);
    // In the order of their ids; without metadata `created` is zero.
    assert_eq!(data[0].get("id"), Some(&Json::Text(m("a"))));
    assert_eq!(data[0].get("created"), Some(&Json::Unsigned(0)));
    let x = &data[1];
    assert_eq!(x.get("max_model_len"), Some(&Json::Unsigned(8192)));
    assert_eq!(x.get("created"), Some(&Json::Unsigned(42)));
    assert_eq!(x.get("owned_by"), Some(&Json::Text(m("test")))); // the member's name
    assert!(x.get("hivllm").unwrap().get("paths").unwrap().as_array().is_some());
    let one = hive.get_model("m", None).unwrap();
    assert_eq!(one.get("max_model_len"), Some(&Json::Unsigned(8192)));
    assert_eq!(
        hive.get_model("nope", None).unwrap_err(),
        "model `nope` not found in hive"
    );
}

#[test]
fn models_the_caller_already_reaches_are_left_out() {
    let mut peer = ep("p", 9001, &["m"]);
    peer.hive_id = Some(m("p"));
    peer.paths.insert(m("m"), vec![vec![m("p"), m("caller")]]);
    let hive = hive_with(vec![peer], vec![]);
    assert_eq!(hive.model_objects(None).len(), 1);
    assert!(hive.model_objects(Some("caller")).is_empty());
    assert!(hive.get_model("m", Some("x, caller")).is_err());
}

#[test]
fn query_limits() {
    assert_eq!(QueriesQuery { limit: None }.entries(), 100);
    assert_eq!(QueriesQuery { limit: Some(7) }.entries(), 7);
    assert_eq!(QueriesQuery { limit: Some(5000) }.entries(), 1000);
}

#[test]
fn forwarded_routes_have_labels() {
    let all = routes();
    assert_eq!(all.len(), 16);
    assert!(all.iter().any(|r| r.path == "/v1/chat/completions" && r.label == "chat"));
    assert!(all.iter().any(|r| r.path == "/v2/rerank" && r.label == "rerank"));
}

#[test]
fn the_reported_load_is_that_of_the_next_backend() {
    let mut hive = hive_with(
        vec![ep("a", 9001, &["m"]), ep("b", 9002, &["m"])],
        vec![(("a", "m"), Load::Measured(4)), (("b", "m"), Load::Measured(2))],
    );
    assert_eq!(hive.candidates("m", 0)[0], url(9002));
    let report = hive.server_load(Some("m"));
    assert_eq!(hivllm::load::HivLoadProbe.read(Some(&report)), Load::Measured(2));
    // An approximation is not trusted by the hive that reads it.
    hive.track_inflight(&url(9001));
    hive.track_inflight(&url(9002));
    hive.track_inflight(&url(9002));
    hive.track_inflight(&url(9002));
    let report = hive.server_load(Some("m"));
    assert_eq!(report.get("server_load"), Some(&Json::Unsigned(3)));
    assert_eq!(hivllm::load::HivLoadProbe.read(Some(&report)), Load::Unknown);
}

#[test]
fn via_paths_survive_the_header() {
    let path = vec![m("hive-a"), m("hive-b"), m("x")];
    assert_eq!(parse_via(Some(&path.join(", "))), path);
}

#[test]
fn scans_merge_what_was_found_everywhere() {
    let mut hive = new_hive();
    let mut pinned = ep("pinned", 9001, &["b"]);
    pinned.source = m("static");
    hive.refresh(
        vec![ep("found", 9001, &["a"])],
        vec![pinned],
        vec![ep("docked", 9000, &["c"])],
    );
    let members = hive.snapshot();
    assert_eq!(members.len(), 2);
    assert_eq!(members[0].id, "docked");
    assert_eq!(members[1].models, vec![m("a"), m("b")]);
    assert_eq!(members[1].source, "static");
}

#[test]
fn each_model_takes_its_own_turns() {
    let mut hive = new_hive();
    hive.set_endpoints(vec![
        ep("a", 9001, &["m", "n"]),
        ep("b", 9002, &["n"]),
        ep("c", 9003, &["m", "n"]),
        ep("d", 9004, &["m"]),
    ]);
    let turns = [[9001, 9003, 9004], [9003, 9004, 9001], [9004, 9001, 9003]];
    for n in 0..7usize {
        for _ in 0..n {
            hive.candidates("n", n as u64);
        }
        assert_eq!(hive.candidates("m", n as u64), urls(&turns[n % 3]), "{n}");
    }
}

/// The member that a hive finds when it probes another.
fn peer(h: &Hive, port: u16, asker: &Hive) -> DiscoveredEndpoint {
    let body = h.list_models(Some(&asker.own_id()));
    let ids = body
        .get("data")
        .unwrap()
        .as_array()
        .unwrap()
        .iter()
        .map(|o| match o.get("id") {
            Some(Json::Text(id)) => id.clone(),
            other => panic!("{other:?}"),
        })
        .collect();
    let p = Probed::new(ids, &body, Some(h.own_id()));
    let mut e = ep(&format!("peer-{port}"), port, &[]);
    (e.models, e.hive_id, e.paths) = (p.models, p.hive_id, p.paths);
    e
}

#[test]
fn rings_of_hives_forget_a_dead_backend() {
    let ids = ["a", "b", "c"];
    let mut ring: Vec<Hive> = ids.iter().map(|i| new_hive().with_hive_id(m(i))).collect();
    let serves = |h: &Hive| h.list_models(None).get("data").unwrap().as_array().unwrap().len();
    let scan = |ring: &mut Vec<Hive>, i: usize, backend: bool| {
        let mut found: Vec<DiscoveredEndpoint> = (0..3)
            .filter(|j| *j != i)
            .map(|j| peer(&ring[j], 9100 + j as u16, &ring[i]))
            .collect();
        if backend && i == 0 {
            found.push(ep("real", 9001, &["m"]));
        }
        ring[i].set_endpoints(found);
    };
    for _ in 0..3 {
        for i in 0..3 {
            scan(&mut ring, i, true);
        }
    }
    assert!(ring.iter().all(|h| serves(h) == 1));
    // The backend is gone: the routes to it grow with each round until none is left.
    let mut rounds = 0;
    while ring.iter().any(|h| serves(h) > 0) {
        for i in 0..3 {
            scan(&mut ring, i, false);
        }
        rounds += 1;
        assert!(rounds <= 27, "still advertised");
    }
    for h in &mut ring {
        assert!(h.candidates("m", 0).is_empty());
    }
}
