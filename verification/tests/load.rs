use hivllm::json::{parse, Json};
use hivllm::load::{
    effective_load, probe_backend, HivLoadProbe, Load, VllmLoadProbe, VllmMetricsProbe,
};

fn json(text: &str) -> Json {
    parse(text.as_bytes()).unwrap()
}

#[test]
fn vllm_load_parses_server_load() {
    assert_eq!(VllmLoadProbe.read(Some(&json(r#"{"server_load": 3}"#))), Load::Known(3));
    assert_eq!(VllmLoadProbe.url("http://h:8000/"), "http://h:8000/load");
    assert_eq!(VllmLoadProbe.url("http://h:8000/gw/v1"), "http://h:8000/gw/load");
    assert_eq!(VllmLoadProbe.name(), "vllm-/load");
}

#[test]
fn fractional_and_negative_loads_are_cut_to_whole_ones() {
    assert_eq!(VllmLoadProbe.read(Some(&json(r#"{"server_load": 3.9}"#))), Load::Known(3));
    assert_eq!(VllmLoadProbe.read(Some(&json(r#"{"server_load": -7}"#))), Load::Known(0));
    assert_eq!(
        VllmLoadProbe.read(Some(&json(r#"{"server_load": 1e30}"#))),
        Load::Known(u64::MAX)
    );
}

#[test]
fn vllm_load_errors_and_disabled_tracking_mean_unknown() {
    assert_eq!(VllmLoadProbe.read(None), Load::Unknown);
    assert_eq!(VllmLoadProbe.read(Some(&json(r#"{"foo": 1}"#))), Load::Unknown);
    assert_eq!(VllmLoadProbe.read(Some(&json(r#"{"server_load": "3"}"#))), Load::Unknown);
    assert_eq!(VllmLoadProbe.read(Some(&json("[3]"))), Load::Unknown);
}

#[test]
fn unreachable_backend_is_unknown() {
    assert_eq!(VllmLoadProbe.read(None), Load::Unknown);
    assert_eq!(HivLoadProbe.read(None), Load::Unknown);
}

#[test]
fn first_known_probe_wins() {
    assert_eq!(probe_backend(&[Load::Unknown, Load::Known(7)]), Load::Known(7));
    assert_eq!(probe_backend(&[Load::Measured(0), Load::Known(7)]), Load::Measured(0));
    assert_eq!(probe_backend(&[Load::Unknown]), Load::Unknown);
    assert_eq!(probe_backend(&[]), Load::Unknown);
}

#[test]
fn hives_are_trusted_only_where_they_vouch() {
    let read = |s: &str| HivLoadProbe.read(Some(&json(s)));
    assert_eq!(read(r#"{"server_load": 7, "hivllm": {"exact": true}}"#), Load::Measured(7));
    assert_eq!(read(r#"{"server_load": 7, "hivllm": {"exact": false}}"#), Load::Unknown);
    assert_eq!(read(r#"{"server_load": 99}"#), Load::Unknown);
    assert_eq!(read(r#"{"hivllm": {"exact": true}}"#), Load::Unknown);
}

#[test]
fn effective_loads_cover_what_is_in_flight() {
    assert_eq!(effective_load(Load::Known(5), 2), (5, true));
    assert_eq!(effective_load(Load::Known(2), 5), (5, false));
    assert_eq!(effective_load(Load::Known(0), 0), (0, false));
    assert_eq!(effective_load(Load::Measured(0), 0), (0, true));
    assert_eq!(effective_load(Load::Measured(3), 4), (4, false));
    assert_eq!(effective_load(Load::Unknown, 4), (4, false));
}

#[test]
fn metrics_give_the_samples_of_the_request_gauges() {
    let text = "# HELP vllm:num_requests_running Number of requests running.\n\
# TYPE vllm:num_requests_running gauge\n\
vllm:num_requests_running{engine=\"0\",model_name=\"a}b {c\"} 3.0\n\
vllm:num_requests_running{engine=\"1\"} 1.0 1790244900123\r\n\
  vllm:num_requests_waiting 2\n\
vllm:num_requests_waiting_total 9\n\
vllm:num_requests_swapped{engine=\"0\"} 4.0\n\
vllm:num_requests_waiting\n\
vllm:num_requests_waiting{engine=\"0\"}\n";
    assert_eq!(VllmMetricsProbe.samples(text), ["3.0", "1.0", "2"]);
    assert!(VllmMetricsProbe.samples("").is_empty());
    assert_eq!(VllmMetricsProbe.name(), "vllm-/metrics");
    assert_eq!(VllmMetricsProbe.url("http://h:8000/v1"), "http://h:8000/metrics");
}
