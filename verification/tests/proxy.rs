use hivllm::discovery::{Credentials, DiscoveredEndpoint};
use hivllm::hive::loads::LoadAnswer;
use hivllm::hive::proxy::{
    failed_send, retryable, Action, Attempt, Auth, Event, Outcome, Proxy, Start,
};
use hivllm::hive::replies::{client_headers, error_body, health, Header};
use hivllm::hive::request::{json_request, parse_request, ModelQuery};
use hivllm::hive::Hive;
use hivllm::json::{parse, to_bytes, Json};
use hivllm::load::Load;
use hivllm::logging::stream::{feed_sse, StreamAcc};
use hivllm::logging::Truncate;
use hivllm::table::Table;

fn ep(id: &str, port: u16, models: &[&str]) -> DiscoveredEndpoint {
    DiscoveredEndpoint {
        id: id.to_string(),
        name: "test".into(),
        base_url: url(port),
        models: models.iter().map(|s| s.to_string()).collect(),
        source: "test".into(),
        hive_id: None,
        paths: Table::new(),
        model_meta: Table::new(),
    }
}

fn url(port: u16) -> String {
    format!("http://127.0.0.1:{port}")
}

fn text(s: &str) -> Json {
    Json::Text(s.to_string())
}

fn two_backends() -> Hive {
    let mut hive = Hive::new(0).with_hive_id("hive-me".to_string());
    hive.set_endpoints(vec![ep("first", 9001, &["m"]), ep("second", 9002, &["m"])]);
    let load = |id: &str, n: u64| LoadAnswer {
        id: id.to_string(),
        covers: vec!["m".to_string()],
        load: Load::Known(n),
    };
    hive.refresh_load(vec![load("first", 1), load("second", 5)], 0);
    hive
}

fn no_query() -> ModelQuery {
    ModelQuery { model: None }
}

fn start(hive: &mut Hive, body: &str, via: Option<&str>, auth: Option<&str>) -> Start {
    hive.proxy_by_model(
        &no_query(),
        Some("application/json"),
        via,
        auth,
        body.as_bytes().to_vec(),
        "/v1/chat/completions",
        0,
    )
}

fn chat(hive: &mut Hive, stream: bool) -> Proxy {
    let body = format!("{{\"model\": \"m\", \"messages\": [], \"stream\": {stream}}}");
    match start(hive, &body, None, None) {
        Start::Routed(p) => p,
        Start::Refused(o) => panic!("{o:?}"),
    }
}

fn refused(s: Start) -> Outcome {
    match s {
        Start::Refused(o) => o,
        Start::Routed(p) => panic!("{p:?}"),
    }
}

fn finished(a: Action) -> Outcome {
    match a {
        Action::Finish(o) => o,
        other => panic!("{other:?}"),
    }
}

fn send(p: &mut Proxy, hive: &mut Hive) -> Attempt {
    p.send(hive)
}

#[test]
fn retryable_errors_fail_over_to_the_next_backend() {
    for (code, cools) in [(503, true), (429, true), (500, false), (502, false)] {
        let mut hive = two_backends();
        let mut p = chat(&mut hive, false);
        let first = send(&mut p, &mut hive);
        assert_eq!(first.url, "http://127.0.0.1:9001/v1/chat/completions");
        assert!(matches!(p.step(&mut hive, Event::Answered(code), 0), Action::ReadRefusal));
        assert_eq!(hive.inflight(&url(9001)), 1);
        let next = p.step(&mut hive, Event::RefusalText("mock".to_string()), 0);
        assert!(matches!(next, Action::Send));
        assert_eq!(hive.inflight(&url(9001)), 0);
        let second = send(&mut p, &mut hive);
        assert_eq!(second.url, "http://127.0.0.1:9002/v1/chat/completions");
        assert!(matches!(p.step(&mut hive, Event::Answered(200), 0), Action::ReadBody(200)));
        let o = finished(p.step(&mut hive, Event::Body(b"{\"id\": \"ok\"}".to_vec()), 0));
        assert_eq!(o.status, 200, "{code}");
        assert_eq!(o.upstream.as_deref(), Some(url(9002).as_str()));
        assert_eq!(o.error, None);
        // Overload signals rank the backend last; request-specific errors don't.
        let order = hive.candidates("m", 0);
        assert_eq!(order[0] != url(9001), cools, "{code}: {order:?}");
    }
}

#[test]
fn streams_fail_over_before_any_byte_is_sent() {
    let mut hive = two_backends();
    let mut p = chat(&mut hive, true);
    send(&mut p, &mut hive);
    assert!(matches!(p.step(&mut hive, Event::Answered(503), 0), Action::ReadRefusal));
    assert!(matches!(p.step(&mut hive, Event::RefusalText(String::new()), 0), Action::Send));
    send(&mut p, &mut hive);
    assert!(matches!(p.step(&mut hive, Event::Answered(200), 0), Action::Relay(200, true)));
    let mut acc = StreamAcc::default();
    feed_sse(&mut acc, b"data: {\"choices\":[{\"delta\":{\"content\":\"ok\"}}]}\n\ndata: [DONE]\n\n");
    assert_eq!(hive.inflight(&url(9002)), 1);
    let o = finished(p.step(&mut hive, Event::Streamed(true, acc.summary()), 0));
    assert_eq!(hive.inflight(&url(9002)), 0);
    assert_eq!((o.status, o.stream, o.error), (200, true, None));
    assert_eq!(o.response.unwrap().content.as_deref(), Some("ok"));
}

#[test]
fn client_errors_and_gateway_timeouts_are_not_retried() {
    for code in [400, 404, 504] {
        let mut hive = two_backends();
        let mut p = chat(&mut hive, false);
        send(&mut p, &mut hive);
        match p.step(&mut hive, Event::Answered(code), 0) {
            Action::ReadBody(s) => assert_eq!(s, code),
            other => panic!("{code} must not be retried: {other:?}"),
        }
        let o = finished(p.step(&mut hive, Event::Body(b"not json".to_vec()), 0));
        assert_eq!(o.status, code);
        assert!(o.error.unwrap().starts_with(&format!("upstream status {code} ")));
        assert!(o.response.is_none() && o.usage.is_none());
    }
}

#[test]
fn last_candidate_error_is_passed_through() {
    let mut hive = two_backends();
    let mut p = chat(&mut hive, false);
    send(&mut p, &mut hive);
    p.step(&mut hive, Event::Answered(503), 0);
    p.step(&mut hive, Event::RefusalText("mock 503".to_string()), 0);
    send(&mut p, &mut hive);
    assert!(matches!(p.step(&mut hive, Event::Answered(500), 0), Action::ReadBody(500)));
    let body = br#"{"error": {"message": "mock 500"}, "usage": {"total_tokens": 6}}"#;
    let o = finished(p.step(&mut hive, Event::Body(body.to_vec()), 0));
    assert_eq!(o.status, 500);
    assert_eq!(o.error.as_deref(), Some("upstream status 500 Internal Server Error"));
    assert_eq!(o.usage.unwrap().get("total_tokens"), Some(&Json::Unsigned(6)));
    let raw = o.response.unwrap().raw.unwrap();
    assert_eq!(raw.get("error").unwrap().get("message"), Some(&text("mock 500")));
}

#[test]
fn unhealthy_backend_does_not_block_healthy_ones() {
    let mut hive = two_backends();
    let mut p = chat(&mut hive, false);
    send(&mut p, &mut hive);
    let next = p.step(&mut hive, Event::Unreachable("connection refused".to_string()), 10);
    assert!(matches!(next, Action::Send));
    send(&mut p, &mut hive);
    p.step(&mut hive, Event::Answered(200), 20);
    let o = finished(p.step(&mut hive, Event::Body(br#"{"id": "mock-1"}"#.to_vec()), 20));
    assert_eq!(o.status, 200);
    // The failure is remembered: the dead backend no longer looks idle.
    assert_eq!(hive.candidates("m", 20), vec![url(9002), url(9001)]);
    assert!(hive.render_view(20).contains("(failing, ranked last)"));
}

#[test]
fn every_candidate_failing_is_a_bad_gateway() {
    let mut hive = two_backends();
    let mut p = chat(&mut hive, true);
    send(&mut p, &mut hive);
    p.step(&mut hive, Event::Answered(503), 0);
    p.step(&mut hive, Event::RefusalText("loading".to_string()), 0);
    send(&mut p, &mut hive);
    let o = finished(p.step(&mut hive, Event::Unreachable("gone".to_string()), 0));
    assert_eq!((o.status, o.stream, o.upstream), (502, true, None));
    assert_eq!(
        o.error.as_deref(),
        Some("no hive member could serve model `m` (2 tried), last error: gone")
    );
    assert_eq!((hive.inflight(&url(9001)), hive.inflight(&url(9002))), (0, 0));
}

#[test]
fn refusals_are_noted_with_their_status_and_text() {
    let mut hive = two_backends();
    let mut p = chat(&mut hive, false);
    send(&mut p, &mut hive);
    p.step(&mut hive, Event::Answered(429), 0);
    let long = "y".repeat(301);
    p.step(&mut hive, Event::RefusalText(long), 0);
    let shown = format!("{p:?}");
    assert!(
        shown.contains("`http://127.0.0.1:9001` answered 429 Too Many Requests: yyy"),
        "{shown}"
    );
    assert!(shown.contains("…[truncated, 301 chars total]"), "{shown}");
}

#[test]
fn statuses_that_are_none_become_bad_gateways() {
    let mut hive = two_backends();
    let mut p = chat(&mut hive, false);
    send(&mut p, &mut hive);
    assert!(matches!(p.step(&mut hive, Event::Answered(99), 0), Action::ReadRefusal));
    assert!(retryable(502) && !retryable(504) && !retryable(200) && !retryable(404));
}

#[test]
fn timeout_is_answered_504_without_retrying_elsewhere() {
    let mut hive = two_backends();
    let mut p = chat(&mut hive, false);
    send(&mut p, &mut hive);
    let o = finished(p.step(&mut hive, Event::TimedOut("operation timed out".to_string()), 0));
    assert_eq!(o.status, 504);
    assert_eq!(
        o.error.as_deref(),
        Some("upstream `http://127.0.0.1:9001` timed out: operation timed out")
    );
    assert_eq!(hive.inflight(&url(9001)), 0);
    // A timeout is no reason to rank the backend last.
    assert_eq!(hive.candidates("m", 0)[0], url(9001));
}

#[test]
fn broken_answers_are_reported_not_retried() {
    for (timed_out, status, what) in [(true, 504, "timed out"), (false, 502, "failed")] {
        let mut hive = two_backends();
        let mut p = chat(&mut hive, false);
        send(&mut p, &mut hive);
        p.step(&mut hive, Event::Answered(200), 0);
        let o = finished(p.step(&mut hive, Event::BodyBroken(timed_out, "eof".to_string()), 0));
        assert_eq!(o.status, status);
        assert_eq!(
            o.error.unwrap(),
            format!("reading response from `http://127.0.0.1:9001` {what}: eof")
        );
    }
}

#[test]
fn broken_streams_are_logged_with_their_error() {
    let mut acc = StreamAcc::default();
    feed_sse(&mut acc, b"data: {\"choices\":[{\"delta\":{\"content\":\"half\"}}]}\n\n");
    acc.fail("operation timed out".to_string());
    let mut hive = two_backends();
    let mut p = chat(&mut hive, true);
    send(&mut p, &mut hive);
    p.step(&mut hive, Event::Answered(200), 0);
    let o = finished(p.step(&mut hive, Event::Streamed(true, acc.summary()), 0));
    assert_eq!(o.error.as_deref(), Some("stream broken: operation timed out"));
    assert_eq!(o.response.unwrap().content.as_deref(), Some("half"));
}

#[test]
fn dropped_and_failed_streams_are_logged_as_such() {
    for (complete, status, error) in [
        (false, 200, "stream ended before completion"),
        (false, 404, "stream ended before completion"),
        (true, 404, "upstream status 404 Not Found"),
    ] {
        let mut hive = two_backends();
        let mut p = chat(&mut hive, true);
        send(&mut p, &mut hive);
        p.step(&mut hive, Event::Answered(status), 0);
        let s = StreamAcc::default().summary();
        let o = finished(p.step(&mut hive, Event::Streamed(complete, s), 0));
        assert_eq!(o.error.as_deref(), Some(error));
        assert_eq!(o.response.unwrap().chunks, Some(0));
    }
}

#[test]
fn inflight_counts_while_non_streaming_upstream_generates() {
    let mut hive = two_backends();
    let mut p = chat(&mut hive, false);
    assert_eq!(hive.inflight(&url(9001)), 0);
    send(&mut p, &mut hive);
    assert_eq!(hive.inflight(&url(9001)), 1);
    p.step(&mut hive, Event::Answered(200), 0);
    assert_eq!(hive.inflight(&url(9001)), 1);
    p.step(&mut hive, Event::Body(b"{}".to_vec()), 0);
    assert_eq!(hive.inflight(&url(9001)), 0);
}

#[test]
fn client_disconnect_releases_inflight() {
    let mut hive = two_backends();
    let mut p = chat(&mut hive, false);
    send(&mut p, &mut hive);
    p.abandon(&mut hive);
    assert_eq!(hive.inflight(&url(9001)), 0);
    p.abandon(&mut hive);
    assert_eq!(hive.inflight(&url(9001)), 0);
}

#[test]
fn authorization_is_forwarded_only_when_opted_in() {
    for forward in [false, true] {
        let mut hive = two_backends().with_forward_auth(forward);
        let s = start(&mut hive, r#"{"model": "m"}"#, None, Some("Bearer secret"));
        let mut p = match s {
            Start::Routed(p) => p,
            Start::Refused(o) => panic!("{o:?}"),
        };
        match send(&mut p, &mut hive).auth {
            Auth::Forwarded(a) => assert!(forward && a == "Bearer secret"),
            Auth::Nothing => assert!(!forward),
            Auth::Bearer(k) => panic!("{k}"),
        }
    }
}

#[test]
fn backend_keys_are_used_for_probes_load_and_queries() {
    let creds = Credentials::new(vec![(url(9001), "backend-key".to_string())]);
    let mut hive = two_backends().with_credentials(creds).with_forward_auth(true);
    let jobs = hive.load_jobs();
    assert_eq!(jobs[0].key.as_deref(), Some("backend-key"));
    assert_eq!(jobs[1].key, None);
    let mut p = match start(&mut hive, r#"{"model": "m"}"#, None, Some("Bearer client-token")) {
        Start::Routed(p) => p,
        Start::Refused(o) => panic!("{o:?}"),
    };
    assert!(matches!(send(&mut p, &mut hive).auth, Auth::Bearer(k) if k == "backend-key"));
    p.step(&mut hive, Event::Unreachable(String::new()), 0);
    // Forwarded only to key-less backends.
    assert!(matches!(send(&mut p, &mut hive).auth, Auth::Forwarded(_)));
}

#[test]
fn hive_ping_pong_terminates_with_loop_detected() {
    // A forwards to B with Via:[A]; B's only candidate is A, already visited.
    let mut peer_a = ep("peer", 9009, &["m"]);
    peer_a.hive_id = Some("hive-a".to_string());
    let mut hb = Hive::new(0).with_hive_id("hive-b".to_string());
    hb.set_endpoints(vec![peer_a]);
    let o = refused(start(&mut hb, r#"{"model": "m"}"#, Some("hive-a"), None));
    assert_eq!(o.status, 502);
    assert_eq!(
        o.error.as_deref(),
        Some("loop detected: every backend for model `m` already visited (hive-a)")
    );
}

#[test]
fn requests_name_the_hives_they_went_through() {
    let mut hive = two_backends();
    let mut p = match start(&mut hive, r#"{"model": "m"}"#, Some("x,y, x"), None) {
        Start::Routed(p) => p,
        Start::Refused(o) => panic!("{o:?}"),
    };
    assert_eq!(send(&mut p, &mut hive).via, "x, y, hive-me");
    let mut p = match start(&mut hive, r#"{"model": "m"}"#, Some("hive-me, x"), None) {
        Start::Routed(p) => p,
        Start::Refused(o) => panic!("{o:?}"),
    };
    assert_eq!(send(&mut p, &mut hive).via, "hive-me, x");
}

#[test]
fn unknown_models_are_not_found() {
    let mut hive = Hive::new(0).with_hive_id("hive-me".to_string());
    hive.set_endpoints(vec![ep("a", 9001, &["z", "b"]), ep("c", 9002, &["b"])]);
    let o = refused(start(&mut hive, r#"{"model": "nope"}"#, None, None));
    assert_eq!(o.status, 404);
    assert_eq!(o.model, "nope");
    assert_eq!(
        o.error.as_deref(),
        Some("model `nope` not found in hive. Available: [\"b\", \"z\"]")
    );
}

#[test]
fn unreadable_requests_are_bad_requests() {
    let mut hive = two_backends();
    let o = refused(start(&mut hive, "{", None, None));
    assert_eq!((o.status, o.model.as_str()), (400, ""));
    assert_eq!(o.error.as_deref(), Some("invalid JSON body"));
    assert_eq!(o.request, Json::Null);
    let o = refused(start(&mut hive, r#"{"model": 3}"#, None, None));
    assert_eq!(
        o.error.as_deref(),
        Some("missing `model`: set JSON body {\"model\": \"...\"} or ?model=...")
    );
    assert_eq!(o.request.get("model"), Some(&Json::Unsigned(3)));
}

#[test]
fn extra_routes_reach_the_right_upstream_paths() {
    let mut gw = ep("gw", 1, &["m"]);
    gw.base_url = "http://h:1/gw/v1".to_string(); // path-routing gateway
    let mut hive = Hive::new(0).with_hive_id("hive-me".to_string());
    hive.set_endpoints(vec![gw]);
    for (path, expected) in [
        ("/v1/responses", "http://h:1/gw/v1/responses"),
        ("/v1/rerank", "http://h:1/gw/v1/rerank"),
        ("/v2/rerank", "http://h:1/gw/v2/rerank"),
        ("/tokenize", "http://h:1/gw/tokenize"),
        ("/v1/audio/speech", "http://h:1/gw/v1/audio/speech"),
    ] {
        let body = br#"{"model": "m", "input": "x"}"#.to_vec();
        match hive.proxy_by_model(&no_query(), None, None, None, body, path, 0) {
            Start::Routed(mut p) => assert_eq!(p.send(&mut hive).url, expected),
            Start::Refused(o) => panic!("{o:?}"),
        }
    }
}

#[test]
fn audio_uploads_route_by_form_field_and_pass_through_intact() {
    let body: &[u8] = b"--B0\r\nContent-Disposition: form-data; name=\"model\"\r\n\r\nwhisper\r\n\
--B0\r\nContent-Disposition: form-data; name=\"file\"; filename=\"a.wav\"\r\n\
Content-Type: audio/wav\r\n\r\nRIFF\x00\xff\r\n--B0--\r\n";
    let mut hive = Hive::new(0).with_hive_id("hive-me".to_string());
    hive.set_endpoints(vec![ep("w", 9001, &["whisper"])]);
    let s = hive.proxy_by_model(
        &no_query(),
        Some("multipart/form-data; boundary=B0"),
        None,
        None,
        body.to_vec(),
        "/v1/audio/transcriptions",
        0,
    );
    let mut p = match s {
        Start::Routed(p) => p,
        Start::Refused(o) => panic!("{o:?}"),
    };
    let a = p.send(&mut hive);
    assert_eq!(a.url, "http://127.0.0.1:9001/v1/audio/transcriptions");
    assert_eq!(a.content_type, "multipart/form-data; boundary=B0");
    assert_eq!(&p.body()[..], body);
    p.step(&mut hive, Event::Answered(200), 0);
    let o = finished(p.step(&mut hive, Event::Body(b"{}".to_vec()), 0));
    let entry = hive.log_query("now".to_string(), "transcriptions", o, 5);
    assert_eq!(entry.route, "transcriptions");
    assert_eq!(entry.model, "whisper");
    assert_eq!(entry.request.get("form").unwrap().get("model"), Some(&text("whisper")));
    let files = entry.request.get("files").unwrap().as_array().unwrap();
    assert_eq!(files[0].get("filename"), Some(&text("a.wav")));
    assert_eq!(files[0].get("bytes"), Some(&Json::Unsigned(6)));
}

#[test]
fn forms_without_a_model_are_refused() {
    let body = b"--B\r\nContent-Disposition: form-data; name=stream\r\n\r\ntrue\r\n--B--".to_vec();
    let kind = Some("multipart/form-data; boundary=B");
    let (msg, request) = parse_request(&no_query(), kind, body.clone()).unwrap_err();
    assert_eq!(msg, "missing `model`: set form field `model` or ?model=...");
    assert_eq!(request.get("form").unwrap().get("stream"), Some(&text("true")));
    let query = ModelQuery { model: Some("q".to_string()) };
    let r = parse_request(&query, kind, body.clone()).unwrap();
    assert_eq!((r.model.as_str(), r.stream), ("q", true));
    assert_eq!(r.body, body);
}

#[test]
fn the_query_wins_and_the_body_is_rewritten() {
    let query = ModelQuery { model: Some("q".to_string()) };
    let r = parse_request(&query, None, br#"{"model": "b", "x": 1.5, "stream": true}"#.to_vec()).unwrap();
    assert_eq!((r.model.as_str(), r.stream), ("q", true));
    assert_eq!(r.body, br#"{"model":"q","stream":true,"x":1.5}"#.to_vec());
    assert_eq!(r.content_type, "application/json");
    // An empty query does not count.
    let empty = ModelQuery { model: Some(String::new()) };
    let r = json_request(&empty, parse(br#"{"model": "b"}"#)).unwrap();
    assert_eq!((r.model.as_str(), r.stream), ("b", false));
    // A body that is no object is forwarded as it is.
    let r = json_request(&query, parse(b"[1, 2]")).unwrap();
    assert_eq!(r.body, b"[1,2]".to_vec());
}

fn header(name: &str, value: &str) -> Header {
    Header { name: name.to_string(), value: value.as_bytes().to_vec() }
}

fn value<'a>(headers: &'a [Header], name: &str) -> Option<&'a [u8]> {
    headers.iter().find(|h| h.name == name).map(|h| h.value.as_slice())
}

#[test]
fn upstream_headers_pass_through_minus_cors_and_hop_by_hop() {
    let out = client_headers(
        vec![
            header("content-type", "application/json"),
            header("x-request-id", "req-42"),
            header("access-control-allow-origin", "*"),
            header("x-hivllm-id", "someone-else"),
            header("transfer-encoding", "chunked"),
            header("content-length", "3"),
            header("set-cookie", "a"),
            header("set-cookie", "b"),
        ],
        false,
    );
    assert_eq!(value(&out, "content-type"), Some("application/json".as_bytes()));
    assert_eq!(value(&out, "x-request-id"), Some("req-42".as_bytes()));
    assert!(value(&out, "access-control-allow-origin").is_none());
    assert!(value(&out, "x-hivllm-id").is_none());
    assert!(value(&out, "transfer-encoding").is_none());
    assert_eq!(out.len(), 4);
}

#[test]
fn successful_streams_keep_sse_headers() {
    let out = client_headers(vec![], true);
    assert_eq!(value(&out, "content-type"), Some("text/event-stream".as_bytes()));
    assert_eq!(value(&out, "cache-control"), Some("no-cache".as_bytes()));
    let out = client_headers(vec![header("cache-control", "no-store")], true);
    assert_eq!(value(&out, "cache-control"), Some("no-store".as_bytes()));
    let out = client_headers(vec![], false);
    assert_eq!(value(&out, "content-type"), Some("application/json".as_bytes()));
    assert!(value(&out, "cache-control").is_none());
}

#[test]
fn log_entries_are_truncated_as_configured() {
    let hive = two_backends().with_log_options(Truncate::Chars, 3);
    let o = Outcome {
        model: "model".to_string(),
        upstream: None,
        stream: false,
        status: 404,
        usage: None,
        error: Some("a long error".to_string()),
        request: text("abcdef"),
        response: None,
    };
    let e = hive.log_query("ts".to_string(), "chat", o, 12);
    assert_eq!(e.request, text("abc…[truncated, 6 chars total]"));
    assert_eq!(e.model, "model");
    assert_eq!(e.error.as_deref(), Some("a long error"));
    assert_eq!((e.status, e.latency_ms, e.ts.as_str()), (404, 12, "ts"));
}

#[test]
fn error_and_health_bodies() {
    assert_eq!(
        to_bytes(&error_body("no")),
        br#"{"error":{"message":"no","type":"hive_error"}}"#.to_vec()
    );
    assert_eq!(
        String::from_utf8(to_bytes(&health())).unwrap(),
        "{\"hive\":\"sticky 🐝\",\"status\":\"ok\"}"
    );
}

#[test]
fn overloaded_backends_are_ranked_last_also_when_none_is_left() {
    for code in [429, 503] {
        let mut hive = two_backends();
        // The first backend cools down already, and is the last candidate.
        hive.mark_failed(&url(9001), 0);
        let mut p = chat(&mut hive, false);
        assert_eq!(send(&mut p, &mut hive).url, url(9002) + "/v1/chat/completions");
        let tried = p.step(&mut hive, Event::Unreachable("gone".to_string()), 1_000);
        assert!(matches!(tried, Action::Send));
        assert_eq!(send(&mut p, &mut hive).url, url(9001) + "/v1/chat/completions");
        let last = p.step(&mut hive, Event::Answered(code), 9_000);
        assert!(matches!(last, Action::ReadBody(s) if s == code));
        // The second backend is back first, and the other 15 s after its answer.
        assert_eq!(hive.candidates("m", 16_000), [url(9002), url(9001)], "{code}");
        assert_eq!(hive.candidates("m", 23_999), [url(9002), url(9001)], "{code}");
        assert_eq!(hive.candidates("m", 24_000), [url(9001), url(9002)], "{code}");
    }
}

#[test]
fn any_other_answer_ends_a_cooldown() {
    for code in [200, 404, 500, 504] {
        let mut hive = two_backends();
        hive.mark_failed(&url(9001), 0);
        hive.mark_failed(&url(9002), 0);
        let mut p = chat(&mut hive, false);
        assert_eq!(send(&mut p, &mut hive).url, url(9001) + "/v1/chat/completions");
        p.step(&mut hive, Event::Answered(code), 1_000);
        hive.release_inflight(&url(9001));
        assert_eq!(hive.candidates("m", 2_000), [url(9001), url(9002)], "{code}");
    }
}

#[test]
fn sends_time_out_only_once_connected() {
    let text = || "e".to_string();
    assert!(matches!(failed_send(true, false, text()), Event::TimedOut(e) if e == "e"));
    assert!(matches!(failed_send(true, true, text()), Event::Unreachable(e) if e == "e"));
    assert!(matches!(failed_send(false, true, text()), Event::Unreachable(_)));
    assert!(matches!(failed_send(false, false, text()), Event::Unreachable(_)));
}
