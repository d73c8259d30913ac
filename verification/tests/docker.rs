use hivllm::discovery::Probed;
use hivllm::docker::{
    candidate_ports, container_backend, container_backends, container_endpoint, is_enabled,
    is_lifecycle, labeled_port, Container, ContainerJob, Reaction, Signal, Watch, ENABLE_LABEL,
    PORT_LABEL,
};
use hivllm::json::Json;
use hivllm::table::Table;

fn labels(pairs: &[(&str, &str)]) -> Table<String, String> {
    let mut t = Table::new();
    for (k, v) in pairs {
        t.insert(k.to_string(), v.to_string());
    }
    t
}

#[test]
fn enable_label_is_exact() {
    assert!(is_enabled(&labels(&[(ENABLE_LABEL, "true")])));
    assert!(!is_enabled(&labels(&[(ENABLE_LABEL, "1")])));
    assert!(!is_enabled(&labels(&[(ENABLE_LABEL, "True")])));
    assert!(!is_enabled(&labels(&[])));
}

#[test]
fn labeled_port_parses() {
    assert_eq!(labeled_port(&labels(&[(PORT_LABEL, "8080")])), Some(8080));
    assert_eq!(labeled_port(&labels(&[(PORT_LABEL, "x")])), None);
    assert_eq!(labeled_port(&labels(&[])), None);
}

#[test]
fn labeled_ports_are_numbers_of_sixteen_bits() {
    assert_eq!(labeled_port(&labels(&[(PORT_LABEL, "+80")])), Some(80));
    assert_eq!(labeled_port(&labels(&[(PORT_LABEL, "65535")])), Some(65535));
    for bad in ["65536", "", "+", "-1", " 80", "8 0", "99999999999999999999"] {
        assert_eq!(labeled_port(&labels(&[(PORT_LABEL, bad)])), None, "{bad}");
    }
}

#[test]
fn ports_prefer_label_then_exposed_then_well_known() {
    let ports = candidate_ports(&labels(&[(PORT_LABEL, "5000")]), &[8000, 8000]);
    assert_eq!(ports[0], 5000);
    assert!(ports.contains(&8000));
    assert!(ports.contains(&11434)); // well-known default
    assert_eq!(
        ports.len(),
        ports.iter().collect::<std::collections::HashSet<_>>().len()
    );
}

#[test]
fn ports_without_label_start_with_exposed() {
    let ports = candidate_ports(&labels(&[]), &[9000]);
    assert_eq!(ports[0], 9000);
}

#[test]
fn only_labeled_and_named_containers_are_probed() {
    let enabled = || Some(labels(&[(ENABLE_LABEL, "true")]));
    let jobs = container_backends(&vec![
        Container {
            labels: enabled(),
            names: Some(vec!["/llama".to_string(), "/other".to_string()]),
            private_ports: Some(vec![9001, 0, 9000]),
        },
        Container { labels: None, names: Some(vec!["/x".to_string()]), private_ports: None },
        Container { labels: enabled(), names: Some(vec!["/".to_string()]), private_ports: None },
        Container { labels: enabled(), names: Some(vec![]), private_ports: None },
        Container { labels: enabled(), names: None, private_ports: None },
    ]);
    assert_eq!(jobs.len(), 1);
    assert_eq!(jobs[0].name, "llama");
    assert_eq!(jobs[0].ports[..3], [9000, 9001, 11434]);
    let p = Probed::new(vec!["m".to_string()], &Json::Null, None);
    let ep = container_endpoint("llama", 9000, p);
    assert_eq!(ep.id, "docker-llama-9000");
    assert_eq!(ep.base_url, "http://llama:9000");
    assert_eq!(ep.source, "docker");
}

#[test]
fn lifecycle_events() {
    for a in ["start", "die", "stop", "destroy", "kill", "pause", "unpause", "rename"] {
        assert!(is_lifecycle(true, Some(a)));
        assert!(!is_lifecycle(false, Some(a)));
    }
    assert!(!is_lifecycle(true, Some("exec_create")));
    assert!(!is_lifecycle(true, None));
}

#[test]
fn bursts_of_events_refresh_once() {
    let mut w = Watch::Idle;
    assert_eq!(w.watch_events(Signal::Other), Reaction::Wait);
    assert_eq!(w.watch_events(Signal::Lifecycle), Reaction::WaitForQuiet);
    assert_eq!(w.watch_events(Signal::Lifecycle), Reaction::WaitForQuiet);
    assert_eq!(w.watch_events(Signal::Error), Reaction::WaitForQuiet);
    assert_eq!(w.watch_events(Signal::Other), Reaction::WaitForQuiet);
    assert_eq!(w.watch_events(Signal::Quiet), Reaction::Refresh);
    assert_eq!(w, Watch::Idle);
    assert_eq!(w.watch_events(Signal::Error), Reaction::Reconnect);
    assert_eq!(w.watch_events(Signal::Ended), Reaction::Reconnect);
    w.watch_events(Signal::Lifecycle);
    assert_eq!(w.watch_events(Signal::Ended), Reaction::Refresh);
}

#[test]
fn containers_are_backends_on_the_first_port_that_answers() {
    let job = ContainerJob { name: "llama".to_string(), ports: vec![9000, 9001, 11434] };
    let serves = |m: &str| Some(Probed::new(vec![m.to_string()], &Json::Null, None));
    assert!(container_backend(&job, vec![]).is_none());
    assert!(container_backend(&job, vec![None]).is_none());
    assert!(container_backend(&job, vec![None, None, None]).is_none());
    let early = container_backend(&job, vec![None, serves("a")]).unwrap();
    assert_eq!(early.id, "docker-llama-9001");
    assert_eq!(early.name, "llama");
    assert_eq!(early.base_url, "http://llama:9001");
    assert_eq!(early.source, "docker");
    assert_eq!(early.models, ["a"]);
    // What later ports answer changes nothing.
    let late = container_backend(&job, vec![None, serves("a"), serves("b")]).unwrap();
    assert_eq!((late.id, late.models), (early.id, early.models));
}

#[test]
fn the_labeled_port_wins() {
    let jobs = container_backends(&vec![Container {
        labels: Some(labels(&[(ENABLE_LABEL, "true"), (PORT_LABEL, "7777")])),
        names: Some(vec!["/c".to_string()]),
        private_ports: Some(vec![9000]),
    }]);
    let found = Some(Probed::new(vec!["m".to_string()], &Json::Null, None));
    let ep = container_backend(&jobs[0], vec![found.clone(), found]).unwrap();
    assert_eq!(ep.id, "docker-c-7777");
}
