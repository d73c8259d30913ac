//! Containers as backends: which of them to probe and on which ports, and what to
//! make of their lifecycle.
//!
//! Containers opt in by labels: `hivllm.enable=true` has a container probed,
//! `hivllm.port=8080` names its serving port. They are addressed by name, which
//! is stable across recreations.
use crate::deep::{
    deep_chars, deep_ports, distinct, keep_distinct, law_distinct_prefix, lemma_deep_push,
    lemma_distinct, lemma_distinct_of_distinct, lemma_filter,
};
use crate::discovery::{
    default_ports, well_known_ports, DiscoveredEndpoint, EndpointV, Probed, ProbedV,
};
use crate::order::{
    is_order, law_sorted_in_order, law_sorted_is_permutation, lemma_permutation_contains,
    lemma_permutation_distinct, sorted, stable_sort, Ranked,
};
use crate::table::Table;
use crate::text::{
    chars_of, decimal, law_number_read_back, lemma_decimal_injective, parse_u16, push_decimal,
    str_eq, string_of, strip_start, trim_start, u16_value, Class,
};
use vstd::prelude::*;
use vstd::string::*;

verus! {

broadcast use {deep_chars, deep_ports};

pub const ENABLE_LABEL: &'static str = "hivllm.enable";

pub const PORT_LABEL: &'static str = "hivllm.port";

/// Labels of a container.
pub type LabelsV = Map<Seq<char>, Seq<char>>;

/// Whether labels opt a container in.
pub open spec fn enabled(labels: LabelsV) -> bool {
    labels.contains_key("hivllm.enable"@) && labels["hivllm.enable"@] == "true"@
}

/// The serving port that labels give.
pub open spec fn port_label(labels: LabelsV) -> Option<u16> {
    if labels.contains_key("hivllm.port"@) {
        u16_value(labels["hivllm.port"@])
    } else {
        None
    }
}

/// The ports to probe, in order: the labeled one, the exposed ones, the well-known
/// ones, each once.
pub open spec fn probe_order(labels: LabelsV, exposed: Seq<u16>) -> Seq<u16> {
    let first = match port_label(labels) {
        Some(p) => seq![p],
        None => Seq::empty(),
    };
    distinct(first + sorted::<u16>(distinct(exposed)) + default_ports())
}

/// Labels gate discovery: exactly `hivllm.enable=true` opts in.
pub fn is_enabled(labels: &Table<String, String>) -> (r: bool)
    ensures
        r == enabled(labels@),
{
    match labels.get(&ENABLE_LABEL.to_owned()) {
        Some(v) => str_eq(v.as_str(), "true"),
        None => false,
    }
}

/// Explicit serving port from `hivllm.port=N`.
pub fn labeled_port(labels: &Table<String, String>) -> (r: Option<u16>)
    ensures
        r == port_label(labels@),
{
    match labels.get(&PORT_LABEL.to_owned()) {
        Some(v) => {
            let chars = chars_of(v.as_str());
            parse_u16(chars.as_slice())
        },
        None => None,
    }
}

/// Ports to probe, in order: explicit label, exposed private ports, well-known
/// LLM ports, each once.
pub fn candidate_ports(labels: &Table<String, String>, exposed: &[u16]) -> (r: Vec<u16>)
    ensures
        r@ == probe_order(labels@, exposed@),
{
    let mut ports: Vec<u16> = Vec::new();
    if let Some(p) = labeled_port(labels) {
        ports.push(p);
    }
    let ghost first = ports@;
    let mut exp = stable_sort(keep_distinct(vstd::slice::slice_to_vec(exposed)));
    let ghost middle = exp@;
    ports.append(&mut exp);
    let none: [u16; 0] = [];
    let mut known = well_known_ports(none.as_slice());
    proof {
        assert(default_ports() + none@ =~= default_ports());
        lemma_distinct_of_distinct(default_ports());
    }
    ports.append(&mut known);
    proof {
        assert(first =~= match port_label(labels@) {
            Some(p) => seq![p],
            None => Seq::empty(),
        });
        assert(ports@ =~= first + middle + default_ports());
    }
    keep_distinct(ports)
}

/// A running container.
#[derive(Debug)]
pub struct Container {
    pub labels: Option<Table<String, String>>,
    pub names: Option<Vec<String>>,
    /// Ports that it exposes on its networks.
    pub private_ports: Option<Vec<u16>>,
}

/// What a [`Container`] stands for.
pub struct ContainerV {
    pub labels: Option<LabelsV>,
    pub names: Option<Seq<Seq<char>>>,
    pub private_ports: Option<Seq<u16>>,
}

impl DeepView for Container {
    type V = ContainerV;

    open spec fn deep_view(&self) -> ContainerV {
        ContainerV {
            labels: self.labels.deep_view(),
            names: self.names.deep_view(),
            private_ports: self.private_ports.deep_view(),
        }
    }
}

/// The first name without leading slashes, if something is left of it.
pub open spec fn first_name(names: Option<Seq<Seq<char>>>) -> Option<Seq<char>> {
    match names {
        Some(ns) if ns.len() > 0 && strip_start(ns[0], Class::Only('/')).len() > 0 => Some(
            strip_start(ns[0], Class::Only('/')),
        ),
        _ => None,
    }
}

/// First container name, without Docker's leading `/`.
pub fn container_name(c: &Container) -> (r: Option<String>)
    ensures
        r.deep_view() == first_name(c.deep_view().names),
{
    match &c.names {
        Some(names) => {
            if names.len() == 0 {
                return None;
            }
            let v = chars_of(names[0].as_str());
            let name = trim_start(v.as_slice(), Class::Only('/'));
            if name.len() == 0 {
                None
            } else {
                Some(string_of(name))
            }
        },
        None => None,
    }
}

/// The ports of a container that are not zero.
pub open spec fn exposed_ports(ports: Option<Seq<u16>>) -> Seq<u16> {
    match ports {
        Some(ps) => ps.filter(|p: u16| p > 0),
        None => Seq::empty(),
    }
}

/// The name of a container to probe and the ports to try; nothing for one that
/// did not opt in or has no name.
pub open spec fn job_for(c: ContainerV) -> Option<(Seq<char>, Seq<u16>)> {
    match (c.labels, first_name(c.names)) {
        (Some(labels), Some(name)) if enabled(labels) => Some(
            (name, probe_order(labels, exposed_ports(c.private_ports))),
        ),
        _ => None,
    }
}

/// The names of the containers to probe and the ports to try.
pub open spec fn jobs_for(containers: Seq<ContainerV>) -> Seq<(Seq<char>, Seq<u16>)>
    decreases containers.len(),
{
    if containers.len() == 0 {
        Seq::empty()
    } else {
        let before = jobs_for(containers.drop_last());
        match job_for(containers.last()) {
            Some(j) => before.push(j),
            None => before,
        }
    }
}

/// The name of a container to probe and the ports to try.
#[derive(Debug)]
pub struct ContainerJob {
    pub name: String,
    pub ports: Vec<u16>,
}

impl DeepView for ContainerJob {
    type V = (Seq<char>, Seq<u16>);

    open spec fn deep_view(&self) -> (Seq<char>, Seq<u16>) {
        (self.name@, self.ports@)
    }
}

/// The ports of a container that are not zero.
fn nonzero_ports(ports: &Option<Vec<u16>>) -> (r: Vec<u16>)
    ensures
        r@ == exposed_ports(ports.deep_view()),
{
    let mut out: Vec<u16> = Vec::new();
    if let Some(ps) = ports {
        let ghost keep = |p: u16| p > 0;
        let mut i: usize = 0;
        proof {
            reveal(Seq::filter);
            assert(out@ =~= ps@.take(0).filter(keep));
        }
        while i < ps.len()
            invariant
                i <= ps@.len(),
                keep == (|p: u16| p > 0),
                out@ == ps@.take(i as int).filter(keep),
            decreases ps@.len() - i,
        {
            proof {
                reveal(Seq::filter);
                assert(ps@.take(i + 1).drop_last() =~= ps@.take(i as int));
                assert(ps@.take(i + 1).last() == ps@[i as int]);
            }
            if ps[i] > 0 {
                out.push(ps[i]);
            }
            i = i + 1;
        }
        proof {
            assert(ps@.take(i as int) =~= ps@);
        }
    }
    out
}

/// The name of a container to probe and the ports to try.
fn container_job(c: &Container) -> (r: Option<ContainerJob>)
    ensures
        r.deep_view() == job_for(c.deep_view()),
{
    match &c.labels {
        Some(labels) => {
            if !is_enabled(labels) {
                return None;
            }
            match container_name(c) {
                Some(name) => {
                    let exposed = nonzero_ports(&c.private_ports);
                    let ports = candidate_ports(labels, exposed.as_slice());
                    Some(ContainerJob { name, ports })
                },
                None => None,
            }
        },
        None => None,
    }
}

/// The containers to probe: for each its name and the ports to try in order.
pub fn container_backends(containers: &Vec<Container>) -> (r: Vec<ContainerJob>)
    ensures
        r.deep_view() == jobs_for(containers.deep_view()),
{
    let ghost s = containers.deep_view();
    let mut out: Vec<ContainerJob> = Vec::new();
    let mut i: usize = 0;
    proof {
        assert(out.deep_view() =~= jobs_for(s.take(0)));
    }
    while i < containers.len()
        invariant
            i <= containers@.len(),
            s == containers.deep_view(),
            out.deep_view() == jobs_for(s.take(i as int)),
        decreases containers@.len() - i,
    {
        proof {
            assert(s.take(i + 1).drop_last() =~= s.take(i as int));
            assert(s.take(i + 1).last() == containers@[i as int].deep_view());
        }
        if let Some(job) = container_job(&containers[i]) {
            let ghost before = out;
            out.push(job);
            proof {
                lemma_deep_push(before, out, job);
            }
        }
        i = i + 1;
    }
    proof {
        assert(s.take(i as int) =~= s);
    }
    out
}

/// The base URL of a port of a container.
pub open spec fn container_url(name: Seq<char>, port: u16) -> Seq<char> {
    "http://"@ + name + ":"@ + decimal(port as nat)
}

/// The base URL of a port of a container.
pub fn container_base_url(name: &str, port: u16) -> (r: String)
    ensures
        r@ == container_url(name@, port),
{
    let mut s = "http://".to_owned();
    s.append(name);
    s.append(":");
    push_decimal(&mut s, port as u64);
    s
}

/// The endpoint of a container that answered a probe on a port.
pub open spec fn answered_on(name: Seq<char>, port: u16, probed: ProbedV) -> EndpointV {
    EndpointV {
        id: "docker-"@ + name + "-"@ + decimal(port as nat),
        name,
        base_url: container_url(name, port),
        models: probed.models,
        source: "docker"@,
        hive_id: probed.hive_id,
        paths: probed.paths,
        model_meta: probed.model_meta,
    }
}

/// The endpoint of a container that answered a probe on a port.
pub fn container_endpoint(name: &str, port: u16, probed: Probed) -> (r: DiscoveredEndpoint)
    ensures
        r@ == answered_on(name@, port, probed@),
{
    let mut id = "docker-".to_owned();
    id.append(name);
    id.append("-");
    push_decimal(&mut id, port as u64);
    DiscoveredEndpoint {
        id,
        name: name.to_owned(),
        base_url: container_base_url(name, port),
        models: probed.models,
        source: "docker".to_owned(),
        hive_id: probed.hive_id,
        paths: probed.paths,
        model_meta: probed.model_meta,
    }
}

/// The endpoint of a container whose ports were probed in order: that of the first
/// port that answered.
pub open spec fn first_backend(
    job: (Seq<char>, Seq<u16>),
    answers: Seq<Option<ProbedV>>,
) -> Option<EndpointV>
    decreases answers.len(),
{
    if answers.len() == 0 {
        None
    } else {
        match (first_backend(job, answers.drop_last()), answers.last()) {
            (Some(e), _) => Some(e),
            (None, Some(p)) => Some(answered_on(job.0, job.1[answers.len() - 1], p)),
            (None, None) => None,
        }
    }
}

/// The endpoint of a container, from what its ports answered so far, in the order
/// they are to be tried: a container is one backend, on the first port that
/// answered.
pub fn container_backend(job: &ContainerJob, answers: Vec<Option<Probed>>) -> (r: Option<
    DiscoveredEndpoint,
>)
    requires
        answers@.len() <= job.ports@.len(),
    ensures
        r.deep_view() == first_backend(job.deep_view(), answers.deep_view()),
{
    let ghost all = answers@;
    let ghost s = answers.deep_view();
    let mut found: Option<DiscoveredEndpoint> = None;
    let n: usize = job.ports.len();
    let mut i: usize = 0;
    for answer in it: answers
        invariant
            it.seq() == all,
            s.len() == all.len(),
            all.len() <= job.ports@.len() == n,
            forall|k: int| 0 <= k < all.len() ==> s[k] == all[k].deep_view(),
            i == it.index(),
            found.deep_view() == first_backend(job.deep_view(), s.take(it.index() as int)),
    {
        proof {
            assert(s.take(i + 1).drop_last() =~= s.take(i as int));
            assert(s.take(i + 1).last() == answer.deep_view());
        }
        if let Some(probed) = answer {
            if found.is_none() {
                found = Some(container_endpoint(job.name.as_str(), job.ports[i], probed));
            }
        }
        i = i + 1;
    }
    proof {
        assert(s.take(s.len() as int) =~= s);
    }
    found
}

/// Container lifecycle actions worth a new scan.
pub open spec fn is_lifecycle_action(action: Seq<char>) -> bool {
    ||| action == "start"@
    ||| action == "die"@
    ||| action == "stop"@
    ||| action == "destroy"@
    ||| action == "kill"@
    ||| action == "pause"@
    ||| action == "unpause"@
    ||| action == "rename"@
}

/// Whether an event is worth a new scan.
pub open spec fn is_change(of_container: bool, action: Option<Seq<char>>) -> bool {
    of_container && match action {
        Some(a) => is_lifecycle_action(a),
        None => false,
    }
}

/// Whether an event is about the lifecycle of a container.
pub fn is_lifecycle(of_container: bool, action: Option<&str>) -> (r: bool)
    ensures
        r == (of_container && match action {
            Some(a) => is_lifecycle_action(a@),
            None => false,
        }),
        r == is_change(
            of_container,
            match action {
                Some(a) => Some(a@),
                None => None,
            },
        ),
{
    match action {
        Some(a) => of_container && (str_eq(a, "start") || str_eq(a, "die") || str_eq(a, "stop")
            || str_eq(a, "destroy") || str_eq(a, "kill") || str_eq(a, "pause") || str_eq(
            a,
            "unpause",
        ) || str_eq(a, "rename")),
        None => false,
    }
}

/// Where the watch over container events is.
#[derive(Debug, Clone, Copy, PartialEq, Eq, Structural)]
pub enum Watch {
    /// Nothing happened yet.
    Idle,
    /// Something happened: waiting for quiet, so that a burst counts once.
    Settling,
}

/// What the event stream of the Engine gave.
#[derive(Debug, Clone, Copy, PartialEq, Eq, Structural)]
pub enum Signal {
    /// A lifecycle event of a container.
    Lifecycle,
    /// Another event.
    Other,
    /// An error.
    Error,
    /// The end of the stream.
    Ended,
    /// Nothing for the time of a quiet window.
    Quiet,
}

/// What to do next.
#[derive(Debug, Clone, Copy, PartialEq, Eq, Structural)]
pub enum Reaction {
    /// Wait for the next event.
    Wait,
    /// Wait for the next event, for a quiet window at most.
    WaitForQuiet,
    /// Subscribe again after a pause.
    Reconnect,
    /// Scan again, and subscribe again.
    Refresh,
}

/// What follows a signal.
pub open spec fn watched(w: Watch, s: Signal) -> (Watch, Reaction) {
    match (w, s) {
        (Watch::Idle, Signal::Lifecycle) => (Watch::Settling, Reaction::WaitForQuiet),
        (Watch::Idle, Signal::Error) | (Watch::Idle, Signal::Ended) => (
            Watch::Idle,
            Reaction::Reconnect,
        ),
        (Watch::Idle, _) => (Watch::Idle, Reaction::Wait),
        (Watch::Settling, Signal::Quiet) | (Watch::Settling, Signal::Ended) => (
            Watch::Idle,
            Reaction::Refresh,
        ),
        (Watch::Settling, _) => (Watch::Settling, Reaction::WaitForQuiet),
    }
}

impl Watch {
    /// Decides what follows a signal: a burst of lifecycle events has the hive
    /// scanned once, when it is over.
    pub fn watch_events(&mut self, signal: Signal) -> (r: Reaction)
        ensures
            (*final(self), r) == watched(*old(self), signal),
    {
        match (*self, signal) {
            (Watch::Idle, Signal::Lifecycle) => {
                *self = Watch::Settling;
                Reaction::WaitForQuiet
            },
            (Watch::Idle, Signal::Error) | (Watch::Idle, Signal::Ended) => Reaction::Reconnect,
            (Watch::Idle, _) => Reaction::Wait,
            (Watch::Settling, Signal::Quiet) | (Watch::Settling, Signal::Ended) => {
                *self = Watch::Idle;
                Reaction::Refresh
            },
            (Watch::Settling, _) => Reaction::WaitForQuiet,
        }
    }
}

/// The watch after signals.
pub open spec fn watched_all(w: Watch, signals: Seq<Signal>) -> Watch
    decreases signals.len(),
{
    if signals.len() == 0 {
        w
    } else {
        watched(watched_all(w, signals.drop_last()), signals.last()).0
    }
}

/// The number of signals that had the hive scanned.
pub open spec fn refreshes(w: Watch, signals: Seq<Signal>) -> nat
    decreases signals.len(),
{
    if signals.len() == 0 {
        0
    } else {
        let before = watched_all(w, signals.drop_last());
        refreshes(w, signals.drop_last()) + if watched(before, signals.last()).1
            == Reaction::Refresh {
            1nat
        } else {
            0nat
        }
    }
}

/// The number of lifecycle signals.
pub open spec fn changes(signals: Seq<Signal>) -> nat
    decreases signals.len(),
{
    if signals.len() == 0 {
        0
    } else {
        changes(signals.drop_last()) + if signals.last() == Signal::Lifecycle {
            1nat
        } else {
            0nat
        }
    }
}

/// The hive is scanned at most once for each lifecycle event, and a change that
/// was not followed by a scan yet is still being waited for.
pub proof fn law_no_scan_without_change(signals: Seq<Signal>)
    ensures
        refreshes(Watch::Idle, signals) + (if watched_all(Watch::Idle, signals)
            == Watch::Settling {
            1nat
        } else {
            0nat
        }) <= changes(signals),
    decreases signals.len(),
{
    if signals.len() > 0 {
        law_no_scan_without_change(signals.drop_last());
    }
}

/// A burst has the hive scanned once: after a lifecycle event, however many events
/// follow without a quiet window, the next scan comes when it is quiet.
pub proof fn law_burst_scans_once(burst: Seq<Signal>)
    requires
        forall|i: int|
            0 <= i < burst.len() ==> #[trigger] burst[i] != Signal::Quiet && burst[i]
                != Signal::Ended,
    ensures
        watched_all(Watch::Settling, burst) == Watch::Settling,
        refreshes(Watch::Settling, burst) == 0,
        refreshes(Watch::Settling, burst.push(Signal::Quiet)) == 1,
        watched_all(Watch::Settling, burst.push(Signal::Quiet)) == Watch::Idle,
    decreases burst.len(),
{
    let whole = burst.push(Signal::Quiet);
    assert(whole.drop_last() =~= burst);
    if burst.len() > 0 {
        let b = burst.drop_last();
        assert forall|i: int| 0 <= i < b.len() implies #[trigger] b[i] != Signal::Quiet && b[i]
            != Signal::Ended by {
            assert(b[i] == burst[i]);
        }
        law_burst_scans_once(b);
        assert(burst[burst.len() - 1] == burst.last());
    }
    assert(watched_all(Watch::Settling, burst) == Watch::Settling);
    assert(refreshes(Watch::Settling, burst) == 0);
    assert(whole.last() == Signal::Quiet);
    assert(refreshes(Watch::Settling, whole) == 1);
}

/// A labeled port is tried first; no port is tried twice; every exposed and every
/// well-known port is tried.
pub proof fn law_probe_order(labels: LabelsV, exposed: Seq<u16>, p: u16)
    ensures
        probe_order(labels, exposed).no_duplicates(),
        port_label(labels) matches Some(first) ==> probe_order(labels, exposed).len() > 0
            && probe_order(labels, exposed)[0] == first,
        exposed.contains(p) || default_ports().contains(p) ==> probe_order(
            labels,
            exposed,
        ).contains(p),
{
    let first = match port_label(labels) {
        Some(q) => seq![q],
        None => Seq::empty(),
    };
    let middle = sorted::<u16>(distinct(exposed));
    let all = first + middle + default_ports();
    lemma_distinct(all);
    lemma_distinct(exposed);
    law_sorted_is_permutation::<u16>(distinct(exposed));
    lemma_permutation_contains(middle, distinct(exposed), p);
    if exposed.contains(p) {
        assert(distinct(exposed).contains(p));
        let k = choose|k: int| 0 <= k < middle.len() && middle[k] == p;
        assert(all[first.len() + k] == p);
        assert(all.contains(p));
        assert(distinct(all).contains(p));
    }
    if default_ports().contains(p) {
        let k = choose|k: int| 0 <= k < default_ports().len() && default_ports()[k] == p;
        assert(all[first.len() + middle.len() + k] == p);
        assert(all.contains(p));
        assert(distinct(all).contains(p));
    }
    if port_label(labels) is Some {
        lemma_first_stays(all);
    }
}

/// The first item of a list is the first of its distinct items.
proof fn lemma_first_stays<T>(s: Seq<T>)
    requires
        s.len() > 0,
    ensures
        distinct(s).len() > 0,
        distinct(s)[0] == s[0],
    decreases s.len(),
{
    if s.len() > 1 {
        lemma_first_stays(s.drop_last());
    } else {
        assert(distinct(s.drop_last()) =~= Seq::empty());
    }
}

/// A container is a backend exactly if one of its ports answers, and then on the
/// first that does: what later ports answer changes nothing, so that probing may
/// stop there.
pub proof fn law_first_answer_wins(
    job: (Seq<char>, Seq<u16>),
    answers: Seq<Option<ProbedV>>,
    k: int,
)
    requires
        0 <= k <= answers.len(),
        forall|i: int| 0 <= i < k ==> #[trigger] answers[i] is None,
        k < answers.len() ==> answers[k] is Some,
    ensures
        k == answers.len() ==> first_backend(job, answers) is None,
        k < answers.len() ==> first_backend(job, answers) == Some(
            answered_on(job.0, job.1[k], answers[k]->0),
        ),
        k < answers.len() ==> first_backend(job, answers.take(k + 1)) == first_backend(
            job,
            answers,
        ),
    decreases answers.len(),
{
    if answers.len() > 0 {
        let rest = answers.drop_last();
        if k < rest.len() {
            assert(rest[k] == answers[k]);
        } else if k == answers.len() {
            assert(answers[k - 1] is None);
        }
        assert forall|i: int| 0 <= i < k && i < rest.len() implies #[trigger] rest[i] is None by {
            assert(answers[i] is None);
        }
        law_first_answer_wins(
            job,
            rest,
            if k < rest.len() {
                k
            } else {
                rest.len() as int
            },
        );
        if k < rest.len() {
            assert(rest.take(k + 1) =~= answers.take(k + 1));
        } else {
            assert(answers.take(answers.len() as int) =~= answers);
        }
    }
}

/// Where the labeled port of a container answers, it is the container's backend,
/// whatever other ports answer.
pub proof fn law_labeled_port_wins(
    name: Seq<char>,
    labels: LabelsV,
    exposed: Seq<u16>,
    answers: Seq<Option<ProbedV>>,
)
    requires
        port_label(labels) is Some,
        0 < answers.len() <= probe_order(labels, exposed).len(),
        answers[0] is Some,
    ensures
        first_backend((name, probe_order(labels, exposed)), answers) == Some(
            answered_on(name, port_label(labels)->0, answers[0]->0),
        ),
{
    law_probe_order(labels, exposed, 0);
    law_first_answer_wins((name, probe_order(labels, exposed)), answers, 0);
}

/// What the ports of a container answer, in the order they are to be tried, from
/// what the base URLs answer.
pub open spec fn answers_of(
    job: (Seq<char>, Seq<u16>),
    probe: spec_fn(Seq<char>) -> Option<ProbedV>,
) -> Seq<Option<ProbedV>> {
    job.1.map_values(|p: u16| probe(container_url(job.0, p)))
}

/// The backend of a container, from what the base URLs answer.
pub open spec fn backend_of(
    c: ContainerV,
    probe: spec_fn(Seq<char>) -> Option<ProbedV>,
) -> Option<EndpointV> {
    match job_for(c) {
        Some(job) => first_backend(job, answers_of(job, probe)),
        None => None,
    }
}

/// Exactly the containers that opted in, have a name and answer on a port of their
/// probe order are backends, each once: on the first such port.
pub proof fn law_answering_containers_are_backends(
    c: ContainerV,
    probe: spec_fn(Seq<char>) -> Option<ProbedV>,
)
    ensures
        match (c.labels, first_name(c.names)) {
            (Some(labels), Some(name)) if enabled(labels) => {
                let ports = probe_order(labels, exposed_ports(c.private_ports));
                match backend_of(c, probe) {
                    Some(e) => exists|k: int|
                        0 <= k < ports.len() && probe(container_url(name, #[trigger] ports[k]))
                            is Some && (forall|i: int|
                            0 <= i < k ==> probe(container_url(name, #[trigger] ports[i])) is None)
                            && e == answered_on(
                            name,
                            ports[k],
                            probe(container_url(name, ports[k]))->0,
                        ),
                    None => forall|i: int|
                        0 <= i < ports.len() ==> probe(container_url(name, #[trigger] ports[i]))
                            is None,
                }
            },
            _ => backend_of(c, probe) is None,
        },
{
    if let Some(job) = job_for(c) {
        let answers = answers_of(job, probe);
        let k = lemma_first_answer(answers);
        law_first_answer_wins(job, answers, k);
        assert forall|i: int| 0 <= i < k implies probe(
            container_url(job.0, #[trigger] job.1[i]),
        ) is None by {
            assert(answers[i] is None);
        }
        if k < answers.len() {
            assert(answers[k] == probe(container_url(job.0, job.1[k])));
        }
    }
}

/// The first answer, or the number of ports without one.
proof fn lemma_first_answer(answers: Seq<Option<ProbedV>>) -> (k: int)
    ensures
        0 <= k <= answers.len(),
        forall|i: int| 0 <= i < k ==> #[trigger] answers[i] is None,
        k < answers.len() ==> answers[k] is Some,
    decreases answers.len(),
{
    if answers.len() == 0 {
        0
    } else {
        let rest = answers.drop_last();
        let k = lemma_first_answer(rest);
        assert forall|i: int| 0 <= i < k implies #[trigger] answers[i] is None by {
            assert(rest[i] is None);
        }
        if k < rest.len() {
            assert(rest[k] == answers[k]);
            k
        } else if answers.last() is Some {
            k
        } else {
            k + 1
        }
    }
}

/// A container opts in with the label that is exactly `true`, and in no other way.
pub proof fn law_enabled(labels: LabelsV, v: Seq<char>)
    ensures
        enabled(labels.insert("hivllm.enable"@, v)) <==> v == "true"@,
        !enabled(labels.remove("hivllm.enable"@)),
{
}

/// The labeled port is the number that its label holds.
pub proof fn law_port_label(labels: LabelsV, port: u16)
    ensures
        port_label(labels.insert("hivllm.port"@, decimal(port as nat))) == Some(port),
        port_label(labels.remove("hivllm.port"@)) is None,
{
    law_number_read_back(port);
}

/// No port is tried but the labeled one, those that the container exposes and the
/// well-known ones.
pub proof fn law_no_other_port(labels: LabelsV, exposed: Seq<u16>, p: u16)
    requires
        probe_order(labels, exposed).contains(p),
    ensures
        port_label(labels) == Some(p) || exposed.contains(p) || default_ports().contains(p),
{
    let first = match port_label(labels) {
        Some(q) => seq![q],
        None => Seq::empty(),
    };
    let middle = sorted::<u16>(distinct(exposed));
    let all = first + middle + default_ports();
    lemma_distinct(all);
    lemma_distinct(exposed);
    law_sorted_is_permutation::<u16>(distinct(exposed));
    lemma_permutation_contains(middle, distinct(exposed), p);
    assert(all.contains(p));
    let k = choose|k: int| 0 <= k < all.len() && all[k] == p;
    if k < first.len() {
        assert(first[k] == p);
    } else if k < first.len() + middle.len() {
        assert(middle[k - first.len()] == p);
        assert(distinct(exposed).contains(p));
    } else {
        assert(default_ports()[k - first.len() - middle.len()] == p);
    }
}

/// Without a label the exposed ports are tried first, in increasing order.
pub proof fn law_exposed_ports_first(labels: LabelsV, exposed: Seq<u16>, p: u16) -> (n: int)
    requires
        port_label(labels) is None,
    ensures
        0 <= n <= probe_order(labels, exposed).len(),
        probe_order(labels, exposed).take(n).contains(p) <==> exposed.contains(p),
        forall|i: int, j: int|
            0 <= i < j < n ==> #[trigger] probe_order(labels, exposed)[i] < #[trigger] probe_order(
                labels,
                exposed,
            )[j],
{
    let d = distinct(exposed);
    let middle = sorted::<u16>(d);
    let none = Seq::<u16>::empty();
    let order = probe_order(labels, exposed);
    lemma_distinct(exposed);
    law_sorted_is_permutation::<u16>(d);
    lemma_permutation_contains(middle, d, p);
    lemma_permutation_distinct(d, middle);
    lemma_distinct_of_distinct(middle);
    law_distinct_prefix(middle, default_ports());
    assert(none + middle + default_ports() =~= middle + default_ports());
    let n = middle.len() as int;
    assert(order.take(n) =~= middle);
    assert(is_order::<u16>());
    law_sorted_in_order::<u16>(d);
    assert forall|i: int, j: int| 0 <= i < j < n implies #[trigger] order[i]
        < #[trigger] order[j] by {
        assert(order[i] == middle[i] && order[j] == middle[j]);
        assert(!u16::before(middle[j], middle[i]));
        assert(middle[i] != middle[j]);
    }
    n
}

/// A container is named by its first name without the slashes before it.
pub proof fn law_first_name(slashes: Seq<char>, name: Seq<char>, others: Seq<Seq<char>>)
    requires
        forall|i: int| 0 <= i < slashes.len() ==> #[trigger] slashes[i] == '/',
        name.len() > 0,
        name.first() != '/',
    ensures
        first_name(Some(seq![slashes + name] + others)) == Some(name),
        first_name(Some(seq![slashes] + others)) is None,
        first_name(Some(Seq::empty())) is None,
        first_name(None) is None,
{
    lemma_leading_slashes(slashes, name);
    lemma_leading_slashes(slashes, Seq::empty());
    assert(slashes + Seq::<char>::empty() =~= slashes);
    assert((seq![slashes + name] + others)[0] == slashes + name);
    assert((seq![slashes] + others)[0] == slashes);
}

/// Slashes before a name are stripped.
proof fn lemma_leading_slashes(slashes: Seq<char>, name: Seq<char>)
    requires
        forall|i: int| 0 <= i < slashes.len() ==> #[trigger] slashes[i] == '/',
        name.len() > 0 ==> name.first() != '/',
    ensures
        strip_start(slashes + name, Class::Only('/')) == name,
    decreases slashes.len(),
{
    let s = slashes + name;
    if slashes.len() > 0 {
        let rest = slashes.drop_first();
        assert forall|i: int| 0 <= i < rest.len() implies #[trigger] rest[i] == '/' by {
            assert(rest[i] == slashes[i + 1]);
        }
        lemma_leading_slashes(rest, name);
        assert(s.drop_first() =~= rest + name);
        assert(s.first() == slashes[0]);
    } else {
        assert(s =~= name);
    }
}

/// The ports of a container count, but for zero.
pub proof fn law_exposed_ports(ports: Seq<u16>, p: u16)
    ensures
        exposed_ports(Some(ports)).contains(p) <==> ports.contains(p) && p > 0,
        exposed_ports(None).len() == 0,
{
    lemma_filter(ports, |q: u16| q > 0, p);
}

/// Every container that opted in and has a name is probed, and no other.
pub proof fn law_who_is_probed(containers: Seq<ContainerV>, j: (Seq<char>, Seq<u16>))
    ensures
        jobs_for(containers).contains(j) <==> exists|i: int|
            0 <= i < containers.len() && job_for(#[trigger] containers[i]) == Some(j),
    decreases containers.len(),
{
    if containers.len() > 0 {
        let rest = containers.drop_last();
        let (before, all) = (jobs_for(rest), jobs_for(containers));
        law_who_is_probed(rest, j);
        if before.contains(j) {
            let k = choose|k: int| 0 <= k < before.len() && before[k] == j;
            assert(all[k] == j);
            let i = choose|i: int| 0 <= i < rest.len() && job_for(#[trigger] rest[i]) == Some(j);
            assert(containers[i] == rest[i]);
        }
        if all.contains(j) && !before.contains(j) {
            let k = choose|k: int| 0 <= k < all.len() && all[k] == j;
            if k < before.len() {
                assert(before[k] == j);
            }
            assert(job_for(containers[containers.len() - 1]) == Some(j));
        }
        if exists|i: int|
            0 <= i < containers.len() && job_for(#[trigger] containers[i]) == Some(j) {
            let i = choose|i: int|
                0 <= i < containers.len() && job_for(#[trigger] containers[i]) == Some(j);
            if i < rest.len() {
                assert(rest[i] == containers[i]);
            } else {
                assert(all[before.len() as int] == j);
            }
        }
    }
}

/// A backend in a container is reached by the name of the container and the port that
/// answered, serves what the probe found there and is marked as found through Docker.
pub proof fn law_container_backend(name: Seq<char>, port: u16, other: u16, probed: ProbedV)
    ensures
        ({
            let e = answered_on(name, port, probed);
            &&& e.base_url == "http://"@ + name + ":"@ + decimal(port as nat)
            &&& e.name == name && e.source == "docker"@
            &&& e.models == probed.models && e.hive_id == probed.hive_id
            &&& e.paths == probed.paths && e.model_meta == probed.model_meta
            &&& e.id == answered_on(name, other, probed).id ==> port == other
        }),
{
    let start = "docker-"@ + name + "-"@;
    let (a, b) = (start + decimal(port as nat), start + decimal(other as nat));
    if a == b {
        assert(decimal(port as nat) =~= a.skip(start.len() as int));
        assert(decimal(other as nat) =~= b.skip(start.len() as int));
        lemma_decimal_injective(port as nat, other as nat);
    }
}

/// The actions that are worth a scan are those that start, stop or rename a container.
pub proof fn law_lifecycle_actions(action: Seq<char>)
    ensures
        is_lifecycle_action(action) <==> seq![
            "start"@,
            "die"@,
            "stop"@,
            "destroy"@,
            "kill"@,
            "pause"@,
            "unpause"@,
            "rename"@,
        ].contains(action),
{
    let all = seq![
        "start"@,
        "die"@,
        "stop"@,
        "destroy"@,
        "kill"@,
        "pause"@,
        "unpause"@,
        "rename"@,
    ];
    assert(all[0] == "start"@ && all[1] == "die"@ && all[2] == "stop"@ && all[3] == "destroy"@);
    assert(all[4] == "kill"@ && all[5] == "pause"@ && all[6] == "unpause"@ && all[7] == "rename"@);
}

/// A change is followed by a scan as soon as it is quiet or the stream of events ends;
/// without a change a stream that broke or ended is opened again.
pub proof fn law_change_is_scanned(s: Signal)
    ensures
        watched(Watch::Idle, Signal::Lifecycle).0 == Watch::Settling,
        watched(Watch::Settling, s).1 == Reaction::Refresh <==> s == Signal::Quiet || s
            == Signal::Ended,
        watched(Watch::Idle, s).1 == Reaction::Reconnect <==> s == Signal::Error || s
            == Signal::Ended,
        watched(Watch::Idle, s).1 != Reaction::Refresh,
{
}

/// Events of anything but containers, and events without an action, are passed over.
pub proof fn law_changes(action: Seq<char>)
    ensures
        is_change(true, Some(action)) <==> is_lifecycle_action(action),
        !is_change(false, Some(action)),
        !is_change(true, None),
{
}

/// Containers are probed in the order they are listed, each once.
pub proof fn law_probed_in_order(containers: Seq<ContainerV>, c: ContainerV)
    ensures
        jobs_for(containers.push(c)) == match job_for(c) {
            Some(j) => jobs_for(containers).push(j),
            None => jobs_for(containers),
        },
        jobs_for(Seq::empty()).len() == 0,
{
    assert(containers.push(c).drop_last() =~= containers);
}

} // verus!
