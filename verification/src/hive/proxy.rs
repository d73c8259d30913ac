//! What the hive does with a routed request.
//!
//! [`Proxy`] is the state of one request on its way. The program that runs it
//! sends what [`Proxy::send`] says and hands back what came of it as an
//! [`Event`]; [`Proxy::step`] decides what to do next.
//!
//! Candidates are tried in order. An unreachable backend, or one that answers
//! that it is overloaded or broken, fails over to the next one. A timeout does
//! not: the backend accepted the request and may still be generating, so trying
//! elsewhere would run the same generation twice.
use crate::deep::{
    contains, keep_distinct, lemma_deep_push, lemma_distinct_of_distinct, lemma_filter_all,
};
use crate::discovery::{join_upstream_path, key_for, upstream_path_of};
use crate::hive::membership::models_of;
use crate::hive::request::{
    parse_request, parse_via, request_of, via_of, ModelQuery, ParsedRequest, RequestV,
};
use crate::hive::routing::{
    after_decision, cools, failed, flying, healthy, law_candidates_are_the_servers,
    law_cooldown_expires, law_release_undoes_track, law_visited_never_tried, no_idle_entries,
    ranking, released, row_urls, servers, unvisited, url_leads_back,
};
use crate::hive::view::model_names;
use crate::hive::paths::{advertised, law_advertised};
use crate::hive::{is_graphic, is_hive_id, FAILURE_COOLDOWN, Hive, HiveV};
use crate::json::{json_parsed, member, parse, Json, JsonV};
use crate::logging::stream::{nonempty, StreamSummary, SummaryV};
use crate::logging::{
    cut_text, extract_response, extracted, truncate_text, LoggedResponse, ResponseV,
};
use crate::order::{lemma_permutation_contains, stable_sort};
use crate::text::{
    decimal, lemma_split_append, lemma_strip_nothing, push_decimal, split, strip, Class,
};
use vstd::prelude::*;
use vstd::string::*;

verus! {

/// One proxied query, as it is logged.
#[derive(Debug)]
pub struct Outcome {
    pub model: String,
    pub upstream: Option<String>,
    pub stream: bool,
    pub status: u16,
    pub usage: Option<Json>,
    pub error: Option<String>,
    pub request: Json,
    pub response: Option<LoggedResponse>,
}

/// What an [`Outcome`] stands for.
pub struct OutcomeV {
    pub model: Seq<char>,
    pub upstream: Option<Seq<char>>,
    pub stream: bool,
    pub status: u16,
    pub usage: Option<JsonV>,
    pub error: Option<Seq<char>>,
    pub request: JsonV,
    pub response: Option<ResponseV>,
}

impl View for Outcome {
    type V = OutcomeV;

    open spec fn view(&self) -> OutcomeV {
        OutcomeV {
            model: self.model@,
            upstream: self.upstream.deep_view(),
            stream: self.stream,
            status: self.status,
            usage: self.usage.deep_view(),
            error: self.error.deep_view(),
            request: self.request@,
            response: self.response.deep_view(),
        }
    }
}

/// The credentials that a request carries to a backend.
#[derive(Debug)]
pub enum Auth {
    /// None.
    Nothing,
    /// The backend's own key, as a bearer token.
    Bearer(String),
    /// The client's `Authorization` header.
    Forwarded(String),
}

/// What [`Auth`] stands for.
pub enum AuthV {
    Nothing,
    Bearer(Seq<char>),
    Forwarded(Seq<char>),
}

impl View for Auth {
    type V = AuthV;

    open spec fn view(&self) -> AuthV {
        match self {
            Auth::Nothing => AuthV::Nothing,
            Auth::Bearer(k) => AuthV::Bearer(k@),
            Auth::Forwarded(a) => AuthV::Forwarded(a@),
        }
    }
}

/// A request to send to a backend, with [`Proxy::body`] as its body.
#[derive(Debug)]
pub struct Attempt {
    pub url: String,
    pub content_type: String,
    /// Value of the Via header.
    pub via: String,
    pub auth: Auth,
}

/// What an [`Attempt`] stands for.
pub struct AttemptV {
    pub url: Seq<char>,
    pub content_type: Seq<char>,
    pub via: Seq<char>,
    pub auth: AuthV,
}

impl View for Attempt {
    type V = AttemptV;

    open spec fn view(&self) -> AttemptV {
        AttemptV {
            url: self.url@,
            content_type: self.content_type@,
            via: self.via@,
            auth: self.auth@,
        }
    }
}

/// Where a request is on its way.
#[derive(Debug, Clone, Copy, PartialEq, Eq, Structural)]
pub enum Phase {
    /// The next candidate can be sent to.
    Ready,
    /// Sent, no answer yet.
    Sent,
    /// Answered with a status worth another candidate; its text is being read.
    Refused(u16),
    /// The answer is being relayed as a stream.
    Relaying(u16),
    /// The answer is being read.
    Reading(u16),
    /// Answered.
    Done,
}

/// What came of a request to a backend.
#[derive(Debug)]
pub enum Event {
    /// The backend answered with a status.
    Answered(u16),
    /// The backend took the request and then said nothing for too long.
    TimedOut(String),
    /// The backend could not be reached.
    Unreachable(String),
    /// The text of a refusal.
    RefusalText(String),
    /// The complete answer.
    Body(Vec<u8>),
    /// The answer broke off; whether it timed out, and the error.
    BodyBroken(bool, String),
    /// The stream is over; whether it came to its end, and what it gave.
    Streamed(bool, StreamSummary),
}

/// What an [`Event`] stands for.
pub enum EventV {
    Answered(u16),
    TimedOut(Seq<char>),
    Unreachable(Seq<char>),
    RefusalText(Seq<char>),
    Body(Seq<u8>),
    BodyBroken(bool, Seq<char>),
    Streamed(bool, SummaryV),
}

impl View for Event {
    type V = EventV;

    open spec fn view(&self) -> EventV {
        match self {
            Event::Answered(s) => EventV::Answered(*s),
            Event::TimedOut(e) => EventV::TimedOut(e@),
            Event::Unreachable(e) => EventV::Unreachable(e@),
            Event::RefusalText(t) => EventV::RefusalText(t@),
            Event::Body(b) => EventV::Body(b@),
            Event::BodyBroken(t, e) => EventV::BodyBroken(*t, e@),
            Event::Streamed(c, s) => EventV::Streamed(*c, s.deep_view()),
        }
    }
}

/// What to do next.
#[derive(Debug)]
pub enum Action {
    /// Send to the next candidate.
    Send,
    /// Read the text of the refusal.
    ReadRefusal,
    /// Relay the answer as a stream; whether it succeeded.
    Relay(u16, bool),
    /// Read the answer.
    ReadBody(u16),
    /// The request is answered: log it, and unless an answer is being passed on,
    /// tell the client the error.
    Finish(Outcome),
}

/// What an [`Action`] stands for.
pub enum ActionV {
    Send,
    ReadRefusal,
    Relay(u16, bool),
    ReadBody(u16),
    Finish(OutcomeV),
}

impl View for Action {
    type V = ActionV;

    open spec fn view(&self) -> ActionV {
        match self {
            Action::Send => ActionV::Send,
            Action::ReadRefusal => ActionV::ReadRefusal,
            Action::Relay(s, ok) => ActionV::Relay(*s, *ok),
            Action::ReadBody(s) => ActionV::ReadBody(*s),
            Action::Finish(o) => ActionV::Finish(o@),
        }
    }
}

/// One request on its way.
#[derive(Debug)]
pub struct Proxy {
    request: ParsedRequest,
    /// API path of the request.
    path: String,
    candidates: Vec<String>,
    /// The candidate that is being tried.
    next: usize,
    via: String,
    /// The client's token, if it may be passed on.
    auth: Option<String>,
    last_error: String,
    phase: Phase,
}

/// What a [`Proxy`] stands for.
pub struct ProxyV {
    pub request: RequestV,
    pub path: Seq<char>,
    pub candidates: Seq<Seq<char>>,
    pub next: nat,
    pub via: Seq<char>,
    pub auth: Option<Seq<char>>,
    pub last_error: Seq<char>,
    pub phase: Phase,
}

impl View for Proxy {
    type V = ProxyV;

    closed spec fn view(&self) -> ProxyV {
        ProxyV {
            request: self.request@,
            path: self.path@,
            candidates: self.candidates.deep_view(),
            next: self.next as nat,
            via: self.via@,
            auth: self.auth.deep_view(),
            last_error: self.last_error@,
            phase: self.phase,
        }
    }
}

impl ProxyV {
    /// The candidate that is being tried.
    pub open spec fn upstream(self) -> Seq<char> {
        self.candidates[self.next as int]
    }

    /// Whether no other candidate is left.
    pub open spec fn at_last(self) -> bool {
        self.next + 1 == self.candidates.len()
    }

    /// While a request is on its way there is a candidate to try, and after a
    /// refusal there is another one.
    pub open spec fn wf(self) -> bool {
        &&& self.phase != Phase::Done ==> self.next < self.candidates.len()
        &&& self.phase is Refused ==> !self.at_last()
    }

    /// Whether a request to a backend is under way.
    pub open spec fn outstanding(self) -> bool {
        self.phase != Phase::Ready && self.phase != Phase::Done
    }

    /// Whether an event can come in this phase.
    pub open spec fn expects(self, e: EventV) -> bool {
        match e {
            EventV::Answered(_) | EventV::TimedOut(_) | EventV::Unreachable(_) => self.phase
                == Phase::Sent,
            EventV::RefusalText(_) => self.phase is Refused,
            EventV::Body(_) | EventV::BodyBroken(_, _) => self.phase is Reading,
            EventV::Streamed(_, _) => self.phase is Relaying,
        }
    }
}

/// Upstream statuses worth another candidate: the backend limits its rate (429),
/// is broken (500), a bad gateway, e.g. a downstream hive's `loop detected` (502),
/// or unavailable or still loading (503). Never 504 (the generation may still be
/// running downstream) nor other 4xx (the client's mistake, which every backend
/// would repeat).
pub fn retryable(status: u16) -> (r: bool)
    ensures
        r == worth_another(status),
{
    status == 429 || status == 500 || status == 502 || status == 503
}

/// Whether a status is worth another candidate.
pub open spec fn worth_another(status: u16) -> bool {
    status == 429 || status == 500 || status == 502 || status == 503
}

/// Whether a backend that answers with a status is ranked last for a while.
pub open spec fn means_overload(status: u16) -> bool {
    status == 503 || status == 429
}

/// Whether a status says that a request succeeded.
pub open spec fn succeeded(status: u16) -> bool {
    200 <= status < 300
}

/// The status that the client is told: one that is none becomes 502.
pub open spec fn told_status(raw: u16) -> u16 {
    if 100 <= raw <= 999 {
        raw
    } else {
        502
    }
}

/// The reason phrase that the `http` crate knows for a status.
pub uninterp spec fn reason_phrase(status: u16) -> Option<Seq<char>>;

/// Calls `http::StatusCode::canonical_reason`, which looks the status up in a
/// table; there is none for a number that is no status.
#[verifier::external_body]
fn reason_of(status: u16) -> (r: Option<String>)
    ensures
        r.deep_view() == reason_phrase(status),
{
    axum::http::StatusCode::from_u16(status).ok().and_then(|s| s.canonical_reason()).map(
        |s| s.to_string(),
    )
}

/// A status and its reason phrase.
pub open spec fn status_text(status: u16) -> Seq<char> {
    decimal(status as nat) + " "@ + (match reason_phrase(status) {
        Some(r) => r,
        None => "<unknown status code>"@,
    })
}

/// Appends a status and its reason phrase.
fn push_status(s: &mut String, status: u16)
    ensures
        final(s)@ == old(s)@ + status_text(status),
{
    push_decimal(s, status as u64);
    s.append(" ");
    match reason_of(status) {
        Some(r) => s.append(r.as_str()),
        None => s.append("<unknown status code>"),
    }
    proof {
        assert(s@ =~= old(s)@ + status_text(status));
    }
}

/// Items with a separator between them.
pub open spec fn joined(items: Seq<Seq<char>>, sep: Seq<char>) -> Seq<char>
    decreases items.len(),
{
    if items.len() == 0 {
        Seq::empty()
    } else if items.len() == 1 {
        items[0]
    } else {
        joined(items.drop_last(), sep) + sep + items.last()
    }
}

/// Items with a separator between them.
fn join(items: &Vec<String>, sep: &str) -> (r: String)
    ensures
        r@ == joined(items.deep_view(), sep@),
{
    let ghost s = items.deep_view();
    let mut out: String = String::new();
    let mut i: usize = 0;
    proof {
        assert(out@ =~= joined(s.take(0), sep@));
    }
    while i < items.len()
        invariant
            i <= items@.len(),
            s == items.deep_view(),
            out@ == joined(s.take(i as int), sep@),
        decreases items@.len() - i,
    {
        proof {
            assert(s.take(i + 1).drop_last() =~= s.take(i as int));
            assert(s.take(i + 1).last() == items@[i as int]@);
        }
        if i > 0 {
            out.append(sep);
        }
        out.append(items[i].as_str());
        proof {
            assert(out@ =~= joined(s.take(i + 1), sep@));
        }
        i = i + 1;
    }
    proof {
        assert(s.take(i as int) =~= s);
    }
    out
}

/// Names in brackets, as `{:?}` shows a vector of them.
pub uninterp spec fn debug_list(names: Seq<Seq<char>>) -> Seq<char>;

/// Formats a vector of strings with `{:?}`; the text depends on them alone.
#[verifier::external_body]
fn show_names(names: &Vec<String>) -> (r: String)
    ensures
        r@ == debug_list(names.deep_view()),
{
    format!("{:?}", names)
}

/// The outcome of a request that never reached a backend.
pub open spec fn refusal(
    model: Seq<char>,
    status: u16,
    error: Seq<char>,
    request: JsonV,
) -> OutcomeV {
    OutcomeV {
        model,
        upstream: None,
        stream: false,
        status,
        usage: None,
        error: Some(error),
        request,
        response: None,
    }
}

/// The message for a request that went in a circle.
pub open spec fn loop_message(model: Seq<char>, via: Seq<Seq<char>>) -> Seq<char> {
    "loop detected: every backend for model `"@ + model + "` already visited ("@ + joined(
        via,
        ", "@,
    ) + ")"@
}

/// The message for a model that no member serves.
pub open spec fn unknown_message(h: HiveV, model: Seq<char>) -> Seq<char> {
    "model `"@ + model + "` not found in hive. Available: "@ + debug_list(model_names(h))
}

/// The path that a forwarded request carries: what came, and this hive.
pub open spec fn forwarded_path(via: Seq<Seq<char>>, me: Seq<char>) -> Seq<Seq<char>> {
    if via.contains(me) {
        via
    } else {
        via.push(me)
    }
}

/// A request at its start: either answered at once, or on its way.
pub enum StartV {
    Refused(OutcomeV),
    Routed(ProxyV),
}

/// What becomes of a request that was read: `via` is the path it came by.
pub open spec fn routed(
    h: HiveV,
    r: RequestV,
    via: Seq<Seq<char>>,
    authorization: Option<Seq<char>>,
    path: Seq<char>,
    now: u64,
) -> StartV {
    let all = row_urls(ranking(h, r.model, now));
    let candidates = unvisited(h.endpoints, all, r.model, via);
    if candidates.len() > 0 {
        StartV::Routed(
            ProxyV {
                request: r,
                path,
                candidates,
                next: 0,
                via: joined(forwarded_path(via, h.own_id), ", "@),
                auth: if h.forward_auth {
                    authorization
                } else {
                    None
                },
                last_error: Seq::empty(),
                phase: Phase::Ready,
            },
        )
    } else if all.len() > 0 {
        StartV::Refused(refusal(r.model, 502, loop_message(r.model, via), r.request))
    } else {
        StartV::Refused(refusal(r.model, 404, unknown_message(h, r.model), r.request))
    }
}

/// The outcome for the candidate that is being tried.
pub open spec fn outcome(
    p: ProxyV,
    stream: bool,
    status: u16,
    usage: Option<JsonV>,
    error: Option<Seq<char>>,
    response: Option<ResponseV>,
) -> OutcomeV {
    OutcomeV {
        model: p.request.model,
        upstream: Some(p.upstream()),
        stream,
        status,
        usage,
        error,
        request: p.request.request,
        response,
    }
}

/// The error that is logged for a status.
pub open spec fn status_error(status: u16) -> Option<Seq<char>> {
    if succeeded(status) {
        None
    } else {
        Some("upstream status "@ + status_text(status))
    }
}

/// The outcome when every candidate failed.
pub open spec fn exhausted(p: ProxyV, last_error: Seq<char>) -> OutcomeV {
    OutcomeV {
        model: p.request.model,
        upstream: None,
        stream: p.request.stream,
        status: 502,
        usage: None,
        error: Some(
            "no hive member could serve model `"@ + p.request.model + "` ("@ + decimal(
                p.candidates.len(),
            ) + " tried), last error: "@ + last_error,
        ),
        request: p.request.request,
        response: None,
    }
}

/// The credentials for the candidate that is being tried: its own key, else the
/// client's token if it may be passed on.
pub open spec fn auth_for(p: ProxyV, h: HiveV) -> AuthV {
    match key_for(h.credentials, p.upstream()) {
        Some(k) => AuthV::Bearer(k),
        None => match p.auth {
            Some(a) => AuthV::Forwarded(a),
            None => AuthV::Nothing,
        },
    }
}

/// The request to send to the candidate that is being tried.
pub open spec fn attempt(p: ProxyV, h: HiveV) -> AttemptV {
    AttemptV {
        url: upstream_path_of(p.upstream(), p.path),
        content_type: p.request.content_type,
        via: p.via,
        auth: auth_for(p, h),
    }
}

/// The hive with one request more in flight on `url`.
pub open spec fn one_more(h: HiveV, url: Seq<char>) -> HiveV {
    HiveV { inflight: h.inflight.insert(url, (flying(h, url) + 1) as u64), ..h }
}

/// The hive with one request less in flight on `url`.
pub open spec fn one_less(h: HiveV, url: Seq<char>) -> HiveV {
    HiveV { inflight: released(h.inflight, url), ..h }
}

/// What follows when the candidate that is being tried is given up.
pub open spec fn next_candidate(p: ProxyV, h: HiveV, last_error: Seq<char>) -> (
    ProxyV,
    HiveV,
    ActionV,
) {
    let h = one_less(h, p.upstream());
    if p.at_last() {
        (
            ProxyV { phase: Phase::Done, last_error, ..p },
            h,
            ActionV::Finish(exhausted(p, last_error)),
        )
    } else {
        (
            ProxyV { phase: Phase::Ready, next: p.next + 1, last_error, ..p },
            h,
            ActionV::Send,
        )
    }
}

/// What follows when the request is answered.
pub open spec fn finished(p: ProxyV, h: HiveV, o: OutcomeV) -> (ProxyV, HiveV, ActionV) {
    (ProxyV { phase: Phase::Done, ..p }, one_less(h, p.upstream()), ActionV::Finish(o))
}

/// What follows when the client goes away.
pub open spec fn abandoned(p: ProxyV, h: HiveV) -> (ProxyV, HiveV) {
    (
        ProxyV { phase: Phase::Done, ..p },
        if p.outstanding() {
            one_less(h, p.upstream())
        } else {
            h
        },
    )
}

/// What follows when a backend answered with a status: another candidate if the
/// status is worth one and there is one, else its answer is passed on. A backend
/// that is overloaded is ranked last for a while, whoever comes next.
pub open spec fn answered(p: ProxyV, h: HiveV, raw: u16, now: u64) -> (ProxyV, HiveV, ActionV) {
    let status = told_status(raw);
    let h = if means_overload(status) {
        failed(h, p.upstream(), now)
    } else {
        healthy(h, p.upstream())
    };
    if !p.at_last() && worth_another(status) {
        (ProxyV { phase: Phase::Refused(status), ..p }, h, ActionV::ReadRefusal)
    } else if p.request.stream {
        (
            ProxyV { phase: Phase::Relaying(status), ..p },
            h,
            ActionV::Relay(status, succeeded(status)),
        )
    } else {
        (ProxyV { phase: Phase::Reading(status), ..p }, h, ActionV::ReadBody(status))
    }
}

/// The error that is noted for a refusal.
pub open spec fn refusal_error(url: Seq<char>, status: u16, text: Seq<char>) -> Seq<char> {
    "`"@ + url + "` answered "@ + status_text(status) + ": "@ + cut_text(text, 300)
}

/// The outcome of a complete answer; `parsed` is its value, if it is JSON.
pub open spec fn answer_outcome(p: ProxyV, status: u16, parsed: Option<JsonV>) -> OutcomeV {
    outcome(
        p,
        false,
        status,
        match parsed {
            Some(v) => member(v, "usage"@),
            None => None,
        },
        status_error(status),
        match parsed {
            Some(v) => Some(extracted(v)),
            None => None,
        },
    )
}

/// The outcome of an answer that broke off.
pub open spec fn broken_outcome(p: ProxyV, timed_out: bool, e: Seq<char>) -> OutcomeV {
    outcome(
        p,
        false,
        if timed_out {
            504
        } else {
            502
        },
        None,
        Some(
            "reading response from `"@ + p.upstream() + (if timed_out {
                "` timed out: "@
            } else {
                "` failed: "@
            }) + e,
        ),
        None,
    )
}

/// The error that is logged for a stream: what broke it, that it did not come to
/// its end, or its status.
pub open spec fn stream_error(status: u16, complete: bool, s: SummaryV) -> Option<Seq<char>> {
    match s.error {
        Some(e) => Some("stream broken: "@ + e),
        None => if complete {
            status_error(status)
        } else {
            Some("stream ended before completion"@)
        },
    }
}

/// What a log keeps of a stream.
pub open spec fn stream_response(s: SummaryV) -> ResponseV {
    ResponseV {
        content: nonempty(s.content),
        reasoning: nonempty(s.reasoning),
        tool_calls: s.tool_calls,
        finish_reason: s.finish_reason,
        chunks: Some(s.chunks),
        raw: None,
    }
}

/// What follows an event.
pub open spec fn after(p: ProxyV, h: HiveV, e: EventV, now: u64) -> (ProxyV, HiveV, ActionV) {
    match (e, p.phase) {
        (EventV::Answered(raw), _) => answered(p, h, raw, now),
        (EventV::TimedOut(text), _) => finished(
            p,
            h,
            outcome(
                p,
                p.request.stream,
                504,
                None,
                Some("upstream `"@ + p.upstream() + "` timed out: "@ + text),
                None,
            ),
        ),
        (EventV::Unreachable(text), _) => next_candidate(p, failed(h, p.upstream(), now), text),
        (EventV::RefusalText(text), Phase::Refused(status)) => next_candidate(
            p,
            h,
            refusal_error(p.upstream(), status, text),
        ),
        (EventV::Body(bytes), Phase::Reading(status)) => finished(
            p,
            h,
            answer_outcome(p, status, json_parsed(bytes)),
        ),
        (EventV::BodyBroken(timed_out, text), _) => finished(
            p,
            h,
            broken_outcome(p, timed_out, text),
        ),
        (EventV::Streamed(complete, s), Phase::Relaying(status)) => finished(
            p,
            h,
            outcome(
                p,
                true,
                status,
                None,
                stream_error(status, complete, s),
                Some(stream_response(s)),
            ),
        ),
        _ => (p, h, ActionV::Send),
    }
}

/// A request at its start: either answered at once, or on its way.
#[derive(Debug)]
pub enum Start {
    /// Answered with an error, before any backend was asked.
    Refused(Outcome),
    /// On its way.
    Routed(Proxy),
}

impl View for Start {
    type V = StartV;

    open spec fn view(&self) -> StartV {
        match self {
            Start::Refused(o) => StartV::Refused(o@),
            Start::Routed(p) => StartV::Routed(p@),
        }
    }
}

/// The outcome of a request that never reached a backend.
fn refuse(model: String, status: u16, error: String, request: Json) -> (r: Outcome)
    ensures
        r@ == refusal(model@, status, error@, request@),
{
    Outcome {
        model,
        upstream: None,
        stream: false,
        status,
        usage: None,
        error: Some(error),
        request,
        response: None,
    }
}

/// What becomes of a request before any backend is asked: one that cannot be
/// read is answered with 400; one for a model that no member serves with 404; one
/// whose every backend was visited already with 502.
pub open spec fn started(
    h: HiveV,
    query: Option<Seq<char>>,
    content_type: Option<Seq<char>>,
    via: Option<Seq<char>>,
    authorization: Option<Seq<char>>,
    body: Seq<u8>,
    path: Seq<char>,
    now: u64,
) -> (StartV, HiveV) {
    match request_of(query, content_type, body) {
        Ok(r) => (
            routed(h, r, via_of(via), authorization, path, now),
            after_decision(h, r.model, now),
        ),
        Err((msg, request)) => (StartV::Refused(refusal(""@, 400, msg, request)), h),
    }
}

/// The text of an option.
pub open spec fn text_option(s: Option<&str>) -> Option<Seq<char>> {
    match s {
        Some(t) => Some(t@),
        None => None,
    }
}

impl Hive {
    /// Routes a request that was read: `via_path` is the path it came by. One
    /// routing decision is made, and then the loop filter.
    pub fn route(
        &mut self,
        request: ParsedRequest,
        via_path: Vec<String>,
        authorization: Option<&str>,
        path: &str,
        now: u64,
    ) -> (r: Start)
        ensures
            r@ == routed(
                old(self)@,
                request@,
                via_path.deep_view(),
                text_option(authorization),
                path@,
                now,
            ),
            final(self)@ == after_decision(old(self)@, request@.model, now),
            r matches Start::Routed(p) ==> p@.wf(),
    {
        let all = self.candidates(request.model.as_str(), now);
        let served_somewhere = all.len() > 0;
        let candidates = self.without_visited(request.model.as_str(), all, &via_path);
        if candidates.len() == 0 {
            if served_somewhere {
                let mut msg = "loop detected: every backend for model `".to_owned();
                msg.append(request.model.as_str());
                msg.append("` already visited (");
                let visited = join(&via_path, ", ");
                msg.append(visited.as_str());
                msg.append(")");
                return Start::Refused(refuse(request.model, 502, msg, request.request));
            }
            let available = stable_sort(keep_distinct(models_of(&self.endpoints)));
            let mut msg = "model `".to_owned();
            msg.append(request.model.as_str());
            msg.append("` not found in hive. Available: ");
            let names = show_names(&available);
            msg.append(names.as_str());
            return Start::Refused(refuse(request.model, 404, msg, request.request));
        }
        // The client's token is only passed on when the operator opted in:
        // otherwise it would reach every candidate, not just the one it was
        // meant for.
        let auth = match authorization {
            Some(a) => if self.forward_auth {
                Some(a.to_owned())
            } else {
                None
            },
            None => None,
        };
        // What came, plus ourselves.
        let ghost came = via_path.deep_view();
        let mut fwd_path = via_path;
        if !contains(&fwd_path, &self.own_id) {
            let ghost before = fwd_path;
            let me = self.own_id.clone();
            fwd_path.push(me);
            proof {
                lemma_deep_push(before, fwd_path, me);
            }
        }
        let via = join(&fwd_path, ", ");
        Start::Routed(
            Proxy {
                request,
                path: path.to_owned(),
                candidates,
                next: 0,
                via,
                auth,
                last_error: String::new(),
                phase: Phase::Ready,
            },
        )
    }

    /// Takes a request in: reads it, and routes it to a backend that serves its
    /// model. `content_type`, `via` and `authorization` are its headers.
    pub fn proxy_by_model(
        &mut self,
        query: &ModelQuery,
        content_type: Option<&str>,
        via: Option<&str>,
        authorization: Option<&str>,
        body: Vec<u8>,
        path: &str,
        now: u64,
    ) -> (r: Start)
        ensures
            (r@, final(self)@) == started(
                old(self)@,
                query.model.deep_view(),
                text_option(content_type),
                text_option(via),
                text_option(authorization),
                body@,
                path@,
                now,
            ),
            r matches Start::Routed(p) ==> p@.wf(),
    {
        match parse_request(query, content_type, body) {
            Ok(request) => self.route(request, parse_via(via), authorization, path, now),
            Err((msg, request)) => {
                let nothing = "".to_owned();
                Start::Refused(refuse(nothing, 400, msg, request))
            },
        }
    }
}

impl Proxy {
    /// The body to send.
    pub fn body(&self) -> (r: &Vec<u8>)
        ensures
            r@ == self@.request.body,
    {
        &self.request.body
    }

    /// The candidate that is being tried.
    pub fn upstream(&self) -> (r: &String)
        requires
            self@.next < self@.candidates.len(),
        ensures
            r@ == self@.upstream(),
    {
        &self.candidates[self.next]
    }

    /// What to send to the next candidate. The request is counted against it from
    /// now on: backends may say nothing until they are done, so counting later
    /// would miss the whole busy period.
    pub fn send(&mut self, hive: &mut Hive) -> (r: Attempt)
        requires
            old(self)@.wf(),
            old(self)@.phase == Phase::Ready,
            flying(old(hive)@, old(self)@.upstream()) < u64::MAX,
        ensures
            r@ == attempt(old(self)@, old(hive)@),
            final(self)@ == (ProxyV { phase: Phase::Sent, ..old(self)@ }),
            final(self)@.wf(),
            final(hive)@ == one_more(old(hive)@, old(self)@.upstream()),
    {
        let upstream = self.candidates[self.next].clone();
        let auth = match hive.key_of(upstream.as_str()) {
            Some(k) => Auth::Bearer(k),
            None => match &self.auth {
                Some(a) => Auth::Forwarded(a.clone()),
                None => Auth::Nothing,
            },
        };
        let r = Attempt {
            url: join_upstream_path(upstream.as_str(), self.path.as_str()),
            content_type: self.request.content_type.clone(),
            via: self.via.clone(),
            auth,
        };
        hive.track_inflight(upstream.as_str());
        self.phase = Phase::Sent;
        r
    }

    /// Gives the request up, e.g. because the client went away. What is under way
    /// is no longer counted.
    pub fn abandon(&mut self, hive: &mut Hive)
        requires
            old(self)@.wf(),
        ensures
            final(self)@ == (ProxyV { phase: Phase::Done, ..old(self)@ }),
            final(self)@.wf(),
            final(hive)@ == (if old(self)@.outstanding() {
                one_less(old(hive)@, old(self)@.upstream())
            } else {
                old(hive)@
            }),
            (final(self)@, final(hive)@) == abandoned(old(self)@, old(hive)@),
    {
        match self.phase {
            Phase::Ready | Phase::Done => {},
            _ => {
                hive.release_inflight(self.candidates[self.next].as_str());
            },
        }
        self.phase = Phase::Done;
    }

    /// The outcome for the candidate that is being tried.
    fn outcome(
        &self,
        stream: bool,
        status: u16,
        usage: Option<Json>,
        error: Option<String>,
        response: Option<LoggedResponse>,
    ) -> (r: Outcome)
        requires
            self@.next < self@.candidates.len(),
        ensures
            r@ == outcome(
                self@,
                stream,
                status,
                usage.deep_view(),
                error.deep_view(),
                response.deep_view(),
            ),
    {
        Outcome {
            model: self.request.model.clone(),
            upstream: Some(self.candidates[self.next].clone()),
            stream,
            status,
            usage,
            error,
            request: self.request.request.copy(),
            response,
        }
    }

    /// Ends the request with an outcome.
    fn finish(&mut self, hive: &mut Hive, o: Outcome) -> (r: Action)
        requires
            old(self)@.next < old(self)@.candidates.len(),
        ensures
            (final(self)@, final(hive)@, r@) == finished(old(self)@, old(hive)@, o@),
    {
        hive.release_inflight(self.candidates[self.next].as_str());
        self.phase = Phase::Done;
        Action::Finish(o)
    }

    /// Gives the candidate that is being tried up.
    fn give_up(&mut self, hive: &mut Hive, last_error: String) -> (r: Action)
        requires
            old(self)@.next < old(self)@.candidates.len(),
        ensures
            (final(self)@, final(hive)@, r@) == next_candidate(
                old(self)@,
                old(hive)@,
                last_error@,
            ),
            final(self)@.wf(),
    {
        hive.release_inflight(self.candidates[self.next].as_str());
        let tried: usize = self.candidates.len();
        if self.next + 1 < tried {
            self.next = self.next + 1;
            self.last_error = last_error;
            self.phase = Phase::Ready;
            return Action::Send;
        }
        let mut msg = "no hive member could serve model `".to_owned();
        msg.append(self.request.model.as_str());
        msg.append("` (");
        push_decimal(&mut msg, tried as u64);
        msg.append(" tried), last error: ");
        msg.append(last_error.as_str());
        self.last_error = last_error;
        self.phase = Phase::Done;
        Action::Finish(
            Outcome {
                model: self.request.model.clone(),
                upstream: None,
                stream: self.request.stream,
                status: 502,
                usage: None,
                error: Some(msg),
                request: self.request.request.copy(),
                response: None,
            },
        )
    }

    /// The outcome of a complete answer; `parsed` is its value, if it is JSON.
    pub fn answer_outcome(&self, status: u16, parsed: Option<Json>) -> (r: Outcome)
        requires
            self@.next < self@.candidates.len(),
        ensures
            r@ == answer_outcome(self@, status, parsed.deep_view()),
    {
        let (usage, response) = match &parsed {
            Some(v) => {
                let usage = match v.get("usage") {
                    Some(u) => Some(u.copy()),
                    None => None,
                };
                (usage, Some(extract_response(v)))
            },
            None => (None, None),
        };
        self.outcome(false, status, usage, error_of_status(status), response)
    }

    /// Decides what follows an event.
    pub fn step(&mut self, hive: &mut Hive, event: Event, now: u64) -> (r: Action)
        requires
            old(self)@.wf(),
            old(self)@.expects(event@),
            now + FAILURE_COOLDOWN <= u64::MAX,
        ensures
            (final(self)@, final(hive)@, r@) == after(old(self)@, old(hive)@, event@, now),
            final(self)@.wf(),
    {
        let upstream = self.candidates[self.next].clone();
        let left: usize = self.candidates.len() - self.next;
        match event {
            Event::Answered(raw) => {
                let status: u16 = if 100 <= raw && raw <= 999 {
                    raw
                } else {
                    502
                };
                if status == 503 || status == 429 {
                    hive.mark_failed(upstream.as_str(), now);
                } else {
                    hive.mark_healthy(upstream.as_str());
                }
                if left > 1 && retryable(status) {
                    self.phase = Phase::Refused(status);
                    Action::ReadRefusal
                } else if self.request.stream {
                    self.phase = Phase::Relaying(status);
                    Action::Relay(status, 200 <= status && status < 300)
                } else {
                    self.phase = Phase::Reading(status);
                    Action::ReadBody(status)
                }
            },
            Event::TimedOut(e) => {
                let mut msg = "upstream `".to_owned();
                msg.append(upstream.as_str());
                msg.append("` timed out: ");
                msg.append(e.as_str());
                let o = self.outcome(self.request.stream, 504, None, Some(msg), None);
                self.finish(hive, o)
            },
            Event::Unreachable(e) => {
                hive.mark_failed(upstream.as_str(), now);
                self.give_up(hive, e)
            },
            Event::RefusalText(text) => {
                let status: u16 = match self.phase {
                    Phase::Refused(s) => s,
                    _ => 502,
                };
                let mut msg = "`".to_owned();
                msg.append(upstream.as_str());
                msg.append("` answered ");
                push_status(&mut msg, status);
                msg.append(": ");
                let detail = truncate_text(text.as_str(), 300);
                msg.append(detail.as_str());
                self.give_up(hive, msg)
            },
            Event::Body(bytes) => {
                let status: u16 = match self.phase {
                    Phase::Reading(s) => s,
                    _ => 502,
                };
                let o = self.answer_outcome(status, parse(bytes.as_slice()));
                self.finish(hive, o)
            },
            Event::BodyBroken(timed_out, e) => {
                let mut msg = "reading response from `".to_owned();
                msg.append(upstream.as_str());
                if timed_out {
                    msg.append("` timed out: ");
                } else {
                    msg.append("` failed: ");
                }
                msg.append(e.as_str());
                let status: u16 = if timed_out {
                    504
                } else {
                    502
                };
                let o = self.outcome(false, status, None, Some(msg), None);
                self.finish(hive, o)
            },
            Event::Streamed(complete, summary) => {
                let status: u16 = match self.phase {
                    Phase::Relaying(s) => s,
                    _ => 502,
                };
                let error = match &summary.error {
                    Some(e) => {
                        let mut msg = "stream broken: ".to_owned();
                        msg.append(e.as_str());
                        Some(msg)
                    },
                    None => if complete {
                        error_of_status(status)
                    } else {
                        Some("stream ended before completion".to_owned())
                    },
                };
                let response = summary.into_response();
                let o = self.outcome(true, status, None, error, Some(response));
                self.finish(hive, o)
            },
        }
    }
}

/// The error that is logged for a status.
fn error_of_status(status: u16) -> (r: Option<String>)
    ensures
        r.deep_view() == status_error(status),
{
    if 200 <= status && status < 300 {
        None
    } else {
        let mut msg = "upstream status ".to_owned();
        push_status(&mut msg, status);
        Some(msg)
    }
}

/// A request moves on through its candidates, never back, and is over at last:
/// each time it is sent again it is to the next candidate. What was routed stays
/// as it is.
pub proof fn law_progress(p: ProxyV, h: HiveV, e: EventV, now: u64)
    requires
        p.wf(),
        p.expects(e),
    ensures
        ({
            let (q, _, a) = after(p, h, e, now);
            &&& q.wf()
            &&& q.candidates == p.candidates && q.request == p.request && q.auth == p.auth && q.via
                == p.via
            &&& a is Send <==> q.phase == Phase::Ready
            &&& a is Send ==> q.next == p.next + 1 && q.next < p.candidates.len()
            &&& !(a is Send) ==> q.next == p.next
            &&& a is Finish <==> q.phase == Phase::Done
        }),
{
}

/// A request is counted as long as it is under way, and no longer: an event that
/// ends or moves it on releases the count of its backend, any other leaves the
/// counts alone.
pub proof fn law_inflight_balanced(p: ProxyV, h: HiveV, e: EventV, now: u64)
    requires
        p.wf(),
        p.expects(e),
    ensures
        ({
            let (q, g, _) = after(p, h, e, now);
            g.inflight == if q.outstanding() {
                h.inflight
            } else {
                released(h.inflight, p.upstream())
            }
        }),
{
}

/// From the moment a request is sent until it is over, one more request is counted
/// against its backend, and in the end as many as before.
pub proof fn law_attempt_leaves_no_count(p: ProxyV, h: HiveV, e: EventV, now: u64)
    requires
        p.wf(),
        p.expects(e),
        no_idle_entries(h.inflight),
        flying(h, p.upstream()) < u64::MAX,
        !after(p, one_more(h, p.upstream()), e, now).0.outstanding(),
    ensures
        after(p, one_more(h, p.upstream()), e, now).1.inflight == h.inflight,
{
    law_release_undoes_track(h, p.upstream());
    law_inflight_balanced(p, one_more(h, p.upstream()), e, now);
}

/// A timeout is answered with 504 and never tried elsewhere: the generation may
/// still be running.
pub proof fn law_timeout_not_retried(p: ProxyV, h: HiveV, text: Seq<char>, now: u64)
    ensures
        ({
            let a = after(p, h, EventV::TimedOut(text), now).2;
            a is Finish && a->Finish_0.status == 504
        }),
{
}

/// Only 429, 500, 502 and 503 are worth another candidate, and only while there is
/// one. Any other answer, and the answer of the last candidate, is passed on with
/// its status.
pub proof fn law_answer_passed_on(p: ProxyV, h: HiveV, raw: u16, now: u64)
    requires
        100 <= raw <= 999,
    ensures
        ({
            let a = after(p, h, EventV::Answered(raw), now).2;
            if (raw == 429 || raw == 500 || raw == 502 || raw == 503) && !p.at_last() {
                a == ActionV::ReadRefusal
            } else {
                a == ActionV::ReadBody(raw) || a == ActionV::Relay(raw, 200 <= raw < 300)
            }
        }),
{
}

/// A backend is ranked last for a while exactly after it could not be reached or
/// answered 429 or 503, also where no other candidate is left; any other answer
/// ends its cooldown.
pub proof fn law_who_cools_down(p: ProxyV, h: HiveV, e: EventV, now: u64)
    requires
        p.wf(),
        p.expects(e),
        now + FAILURE_COOLDOWN <= u64::MAX,
    ensures
        ({
            let g = after(p, h, e, now).1;
            let u = p.upstream();
            match e {
                EventV::Unreachable(_) => g.cooldown == failed(h, u, now).cooldown,
                EventV::Answered(s) if s == 429 || s == 503 => g.cooldown == failed(
                    h,
                    u,
                    now,
                ).cooldown,
                EventV::Answered(_) => g.cooldown == h.cooldown.remove(u),
                _ => g.cooldown == h.cooldown,
            }
        }),
{
}

/// A backend that could not be reached or answered 429 or 503 cools down for
/// exactly the cooldown, until which it stands behind every backend that does not
/// (see [`crate::hive::routing::law_cooling_backends_last`]).
pub proof fn law_failed_backend_cools_down(p: ProxyV, h: HiveV, e: EventV, now: u64, later: u64)
    requires
        p.wf(),
        p.expects(e),
        now + FAILURE_COOLDOWN <= u64::MAX,
        e is Unreachable || e == EventV::Answered(429) || e == EventV::Answered(503),
    ensures
        cools(after(p, h, e, now).1, p.upstream(), later) <==> later < now + FAILURE_COOLDOWN,
{
    law_who_cools_down(p, h, e, now);
    law_cooldown_expires(h, p.upstream(), now, later);
}

/// What became of a request that could not be sent.
pub open spec fn send_failure(timed_out: bool, connecting: bool, error: Seq<char>) -> EventV {
    if timed_out && !connecting {
        EventV::TimedOut(error)
    } else {
        EventV::Unreachable(error)
    }
}

/// What became of a request that could not be sent, from how the sending failed: a
/// backend that was connected to and then said nothing took the request.
pub fn failed_send(timed_out: bool, connecting: bool, error: String) -> (r: Event)
    ensures
        r@ == (if timed_out && !connecting {
            EventV::TimedOut(error@)
        } else {
            EventV::Unreachable(error@)
        }),
        r@ == send_failure(timed_out, connecting, error@),
{
    if timed_out && !connecting {
        Event::TimedOut(error)
    } else {
        Event::Unreachable(error)
    }
}

/// Unless the operator opted in, a client's token never leaves the hive.
pub proof fn law_token_stays(
    h: HiveV,
    r: RequestV,
    via: Seq<Seq<char>>,
    authorization: Option<Seq<char>>,
    path: Seq<char>,
    now: u64,
    later: HiveV,
)
    requires
        !h.forward_auth,
    ensures
        routed(h, r, via, authorization, path, now) matches StartV::Routed(p) ==> p.auth is None
            && !(attempt(p, later).auth is Forwarded),
{
}

/// A backend's own key wins over a client's token.
pub proof fn law_own_key_wins(p: ProxyV, h: HiveV, key: Seq<char>)
    requires
        key_for(h.credentials, p.upstream()) == Some(key),
    ensures
        attempt(p, h).auth == AuthV::Bearer(key),
{
}

/// A request is never sent back to a hive that it came through: no candidate leads
/// to none but visited hives.
pub proof fn law_never_sent_back(
    h: HiveV,
    r: RequestV,
    via: Seq<Seq<char>>,
    authorization: Option<Seq<char>>,
    path: Seq<char>,
    now: u64,
)
    ensures
        routed(h, r, via, authorization, path, now) matches StartV::Routed(p) ==> p.wf() && forall|
            i: int,
        |
            0 <= i < p.candidates.len() ==> !url_leads_back(
                h.endpoints,
                #[trigger] p.candidates[i],
                r.model,
                via,
            ),
{
    let all = row_urls(ranking(h, r.model, now));
    let left = unvisited(h.endpoints, all, r.model, via);
    assert forall|i: int| 0 <= i < left.len() implies !url_leads_back(
        h.endpoints,
        #[trigger] left[i],
        r.model,
        via,
    ) by {
        assert(left.contains(left[i]));
        law_visited_never_tried(h.endpoints, all, r.model, via, left[i]);
    }
}

/// The path of a forwarded request names this hive and every hive it came through.
pub proof fn law_forwarded_path(path: Seq<Seq<char>>, me: Seq<char>, hop: Seq<char>)
    ensures
        forwarded_path(path, me).contains(hop) <==> path.contains(hop) || hop == me,
        path.no_duplicates() ==> forwarded_path(path, me).no_duplicates(),
{
    let f = forwarded_path(path, me);
    if !path.contains(me) {
        assert(f[path.len() as int] == me);
        if path.contains(hop) {
            let k = choose|k: int| 0 <= k < path.len() && path[k] == hop;
            assert(f[k] == hop);
        }
        if f.contains(hop) {
            let k = choose|k: int| 0 <= k < f.len() && f[k] == hop;
            if k < path.len() {
                assert(path[k] == hop);
            }
        }
    }
}

/// A request that reaches no backend is answered with 400 where it cannot be read,
/// 404 where no member serves its model, and 502 where every backend was visited.
pub proof fn law_refusals(
    h: HiveV,
    query: Option<Seq<char>>,
    content_type: Option<Seq<char>>,
    via: Option<Seq<char>>,
    authorization: Option<Seq<char>>,
    body: Seq<u8>,
    path: Seq<char>,
    now: u64,
)
    ensures
        ({
            let start = started(h, query, content_type, via, authorization, body, path, now).0;
            match request_of(query, content_type, body) {
                Err(_) => start is Refused && start->Refused_0.status == 400,
                Ok(r) => {
                    let serving = servers(h.endpoints, r.model);
                    &&& start is Refused && start->Refused_0.status == 404 <==> serving.len() == 0
                    &&& start is Refused && start->Refused_0.status == 502 <==> serving.len() > 0
                        && forall|i: int|
                        0 <= i < serving.len() ==> url_leads_back(
                            h.endpoints,
                            #[trigger] serving[i],
                            r.model,
                            via_of(via),
                        )
                },
            }
        }),
{
    if let Ok(r) = request_of(query, content_type, body) {
        broadcast use vstd::seq_lib::group_to_multiset_ensures;

        let path = via_of(via);
        let all = row_urls(ranking(h, r.model, now));
        let serving = servers(h.endpoints, r.model);
        let left = unvisited(h.endpoints, all, r.model, path);
        law_candidates_are_the_servers(h, r.model, now);
        assert(all.len() == serving.len()) by {
            assert(all.len() == all.to_multiset().len());
            assert(serving.len() == serving.to_multiset().len());
        }
        if left.len() > 0 {
            let u = left[0];
            assert(left.contains(u));
            law_visited_never_tried(h.endpoints, all, r.model, path, u);
            lemma_permutation_contains(all, serving, u);
            let k = choose|k: int| 0 <= k < serving.len() && serving[k] == u;
            assert(!url_leads_back(h.endpoints, serving[k], r.model, path));
        } else {
            assert forall|i: int| 0 <= i < serving.len() implies url_leads_back(
                h.endpoints,
                #[trigger] serving[i],
                r.model,
                path,
            ) by {
                let u = serving[i];
                assert(serving.contains(u));
                lemma_permutation_contains(all, serving, u);
                law_visited_never_tried(h.endpoints, all, r.model, path, u);
            }
            if all.len() == 0 {
                assert(left =~= Seq::empty());
            }
        }
        if all.len() == 0 && left.len() > 0 {
            assert(left.contains(left[0]));
            law_visited_never_tried(h.endpoints, all, r.model, path, left[0]);
        }
    }
}

/// The pieces of a header that joins ids: the ids, all but the first after a space.
proof fn lemma_joined_pieces(path: Seq<Seq<char>>)
    requires
        path.len() > 0,
        forall|i: int| 0 <= i < path.len() ==> is_hive_id(#[trigger] path[i]),
    ensures
        split(joined(path, ", "@), Class::Only(',')).map_values(
            |p: Seq<char>| strip(p, Class::Space),
        ) == path,
    decreases path.len(),
{
    reveal_strlit(", ");
    reveal_strlit(" ");
    let k = Class::Only(',');
    let f = |p: Seq<char>| strip(p, Class::Space);
    let id = path.last();
    assert(is_hive_id(path[path.len() - 1]));
    assert(is_graphic(id[0]) && is_graphic(id[id.len() - 1]));
    lemma_strip_nothing(id);
    assert forall|i: int| 0 <= i < id.len() implies !k.has(#[trigger] id[i]) by {
        assert(id[i] != ',');
    }
    if path.len() == 1 {
        let empty = Seq::<char>::empty();
        lemma_split_append(empty, id, k);
        assert(empty + id =~= id);
        assert(split(id, k) =~= seq![id]) by {
            assert(split(empty, k) =~= seq![empty]);
        }
        assert(split(id, k).map_values(f) =~= path);
    } else {
        let rest = path.drop_last();
        assert forall|i: int| 0 <= i < rest.len() implies is_hive_id(#[trigger] rest[i]) by {
            assert(rest[i] == path[i]);
        }
        lemma_joined_pieces(rest);
        let a = joined(rest, ", "@);
        let comma = a.push(',');
        assert(comma.drop_last() =~= a);
        assert(split(comma, k) == split(a, k).push(Seq::empty()));
        let tail = " "@ + id;
        assert forall|i: int| 0 <= i < tail.len() implies !k.has(#[trigger] tail[i]) by {
            if i > 0 {
                assert(tail[i] == id[i - 1]);
            }
        }
        lemma_split_append(comma, tail, k);
        assert(a + ", "@ + id =~= comma + tail);
        let pieces = split(comma + tail, k);
        assert(split(comma, k).drop_last() =~= split(a, k));
        assert(Seq::<char>::empty() + tail =~= tail);
        assert(pieces =~= split(a, k).push(tail));
        assert(pieces.map_values(f) =~= split(a, k).map_values(f).push(id));
        assert(rest.push(id) =~= path);
    }
}

/// The path that one hive sends in its Via header is the path that the next hive
/// reads from it.
pub proof fn law_via_read_back(path: Seq<Seq<char>>)
    requires
        path.no_duplicates(),
        forall|i: int| 0 <= i < path.len() ==> is_hive_id(#[trigger] path[i]),
    ensures
        via_of(Some(joined(path, ", "@))) == path,
{
    let k = Class::Only(',');
    let f = |p: Seq<char>| strip(p, Class::Space);
    let keep = |p: Seq<char>| p.len() > 0;
    let trimmed = split(joined(path, ", "@), k).map_values(f);
    if path.len() > 0 {
        lemma_joined_pieces(path);
        lemma_filter_all(trimmed, keep);
    } else {
        let empty = Seq::<char>::empty();
        assert(split(empty, k) =~= seq![empty]);
        assert(strip(empty, Class::Space) =~= empty);
        assert(trimmed =~= seq![empty]);
        lemma_filter_all(trimmed.drop_last(), keep);
        reveal(Seq::filter);
        assert(trimmed.filter(keep) =~= path);
    }
    lemma_distinct_of_distinct(path);
}

/// A hive that names itself in its question is told of no route through itself.
pub proof fn law_requester_avoided(h: HiveV, requester: Seq<char>, model: Seq<char>, i: int)
    requires
        is_hive_id(requester),
        0 <= i < advertised(
            h.endpoints,
            model,
            via_of(Some(requester)).push(h.own_id),
        ).len(),
    ensures
        ({
            let p = advertised(h.endpoints, model, via_of(Some(requester)).push(h.own_id))[i];
            !p.contains(requester) && !p.contains(h.own_id)
        }),
{
    let path = seq![requester];
    law_via_read_back(path);
    assert(joined(path, ", "@) == requester);
    let avoid = via_of(Some(requester)).push(h.own_id);
    assert(avoid[0] == requester && avoid[1] == h.own_id);
    law_advertised(h.endpoints, model, avoid);
    let p = advertised(h.endpoints, model, avoid)[i];
    if p.contains(requester) {
        let k = choose|k: int| 0 <= k < p.len() && p[k] == requester;
        assert(avoid.contains(p[k]));
    }
    if p.contains(h.own_id) {
        let k = choose|k: int| 0 <= k < p.len() && p[k] == h.own_id;
        assert(avoid.contains(p[k]));
    }
}

/// A request goes to the members that serve its model and do not lead back, in the
/// order of their ranking, as it came; the client's token goes with it exactly if the
/// operator opted in.
pub proof fn law_routed(
    h: HiveV,
    r: RequestV,
    via: Seq<Seq<char>>,
    authorization: Option<Seq<char>>,
    path: Seq<char>,
    now: u64,
    u: Seq<char>,
)
    ensures
        match routed(h, r, via, authorization, path, now) {
            StartV::Routed(p) => {
                &&& p.request == r && p.path == path && p.next == 0 && p.phase == Phase::Ready
                &&& p.candidates.contains(u) <==> servers(h.endpoints, r.model).contains(u)
                    && !url_leads_back(h.endpoints, u, r.model, via)
                &&& p.candidates == row_urls(ranking(h, r.model, now)).filter(
                    |c: Seq<char>| !url_leads_back(h.endpoints, c, r.model, via),
                )
                &&& h.forward_auth ==> p.auth == authorization
                &&& !h.forward_auth ==> p.auth is None
                &&& p.via == joined(forwarded_path(via, h.own_id), ", "@)
            },
            StartV::Refused(o) => o.model == r.model && o.request == r.request && o.error is Some
                && o.upstream is None && o.usage is None && o.response is None && !o.stream,
        },
{
    let all = row_urls(ranking(h, r.model, now));
    law_candidates_are_the_servers(h, r.model, now);
    lemma_permutation_contains(all, servers(h.endpoints, r.model), u);
    law_visited_never_tried(h.endpoints, all, r.model, via, u);
}

/// Each attempt is for the path that was asked for on the candidate that is tried, with
/// the content type and the Via path of the request. A candidate without a key of its
/// own gets the client's token where there is one to pass on, and nothing else.
pub proof fn law_attempt(p: ProxyV, h: HiveV)
    ensures
        ({
            let a = attempt(p, h);
            &&& a.url == upstream_path_of(p.candidates[p.next as int], p.path)
            &&& a.content_type == p.request.content_type && a.via == p.via
            &&& key_for(h.credentials, p.upstream()) is None ==> match p.auth {
                Some(t) => a.auth == AuthV::Forwarded(t),
                None => a.auth is Nothing,
            }
        }),
{
}

/// Whatever ends a request, the outcome is logged for the model and the request that
/// were routed, and for the candidate that was tried, if one answered.
pub proof fn law_outcome_of_request(p: ProxyV, h: HiveV, e: EventV, now: u64)
    requires
        p.wf(),
        p.expects(e),
    ensures
        after(p, h, e, now).2 matches ActionV::Finish(o) ==> {
            &&& o.model == p.request.model && o.request == p.request.request
            &&& match o.upstream {
                Some(u) => u == p.candidates[p.next as int],
                None => e is Unreachable && o.status == 502 && o.error is Some,
            }
        },
{
}

/// A complete answer is logged with its status, its usage and what it says; it is an
/// error exactly if its status is none of success.
pub proof fn law_answer_outcome(p: ProxyV, h: HiveV, bytes: Seq<u8>, status: u16, now: u64)
    requires
        p.phase == Phase::Reading(status),
    ensures
        after(p, h, EventV::Body(bytes), now).2 matches ActionV::Finish(o) && {
            &&& o.status == status && !o.stream
            &&& o.error is None <==> 200 <= status < 300
            &&& match json_parsed(bytes) {
                Some(v) => o.usage == member(v, "usage"@) && o.response == Some(extracted(v)),
                None => o.usage is None && o.response is None,
            }
        },
{
}

/// An answer that breaks off is logged as a gateway timeout or a bad gateway, with the
/// reason at the end of its error; so is a request that times out.
pub proof fn law_broken_outcome(p: ProxyV, h: HiveV, timed_out: bool, text: Seq<char>, now: u64)
    ensures
        after(p, h, EventV::BodyBroken(timed_out, text), now).2 matches ActionV::Finish(o) && {
            &&& o.status == if timed_out {
                504u16
            } else {
                502u16
            }
            &&& o.error matches Some(m) && text.is_suffix_of(m)
            &&& o.usage is None && o.response is None && !o.stream
        },
        after(p, h, EventV::TimedOut(text), now).2 matches ActionV::Finish(o) && {
            &&& o.status == 504 && o.stream == p.request.stream
            &&& o.error matches Some(m) && text.is_suffix_of(m)
            &&& o.usage is None && o.response is None
        },
{
    let start = "reading response from `"@ + p.upstream() + (if timed_out {
        "` timed out: "@
    } else {
        "` failed: "@
    });
    let m = start + text;
    assert(m.subrange(m.len() - text.len(), m.len() as int) =~= text);
    let n = "upstream `"@ + p.upstream() + "` timed out: "@ + text;
    assert(n.subrange(n.len() - text.len(), n.len() as int) =~= text);
}

/// A stream is logged with what was said in it; it is an error exactly if it broke, did
/// not come to its end, or its status is none of success.
pub proof fn law_stream_outcome(
    p: ProxyV,
    h: HiveV,
    complete: bool,
    s: SummaryV,
    status: u16,
    now: u64,
)
    requires
        p.phase == Phase::Relaying(status),
    ensures
        after(p, h, EventV::Streamed(complete, s), now).2 matches ActionV::Finish(o) && {
            &&& o.status == status && o.stream && o.usage is None
            &&& o.error is None <==> s.error is None && complete && 200 <= status < 300
            &&& s.error matches Some(e) ==> o.error matches Some(m) && e.is_suffix_of(m)
            &&& o.response matches Some(r) && {
                &&& match r.content {
                    Some(c) => c == s.content && c.len() > 0,
                    None => s.content.len() == 0,
                }
                &&& match r.reasoning {
                    Some(c) => c == s.reasoning && c.len() > 0,
                    None => s.reasoning.len() == 0,
                }
                &&& r.tool_calls == s.tool_calls && r.finish_reason == s.finish_reason
                &&& r.chunks == Some(s.chunks) && r.raw is None
            }
        },
{
    if let Some(e) = s.error {
        let m = "stream broken: "@ + e;
        assert(m.subrange(m.len() - e.len(), m.len() as int) =~= e);
    }
}

/// When the last candidate cannot be reached the client is told why it could not; a
/// candidate before it passes the request on, and the reason is kept.
pub proof fn law_unreachable(p: ProxyV, h: HiveV, text: Seq<char>, now: u64)
    requires
        p.next < p.candidates.len(),
    ensures
        ({
            let (q, _, a) = after(p, h, EventV::Unreachable(text), now);
            if p.next + 1 < p.candidates.len() {
                a is Send && q.next == p.next + 1 && q.last_error == text
            } else {
                a matches ActionV::Finish(o) && o.status == 502 && o.stream == p.request.stream && (
                o.error matches Some(m) && text.is_suffix_of(m))
            }
        }),
{
    let m = "no hive member could serve model `"@ + p.request.model + "` ("@ + decimal(
        p.candidates.len(),
    ) + " tried), last error: "@ + text;
    assert(m.subrange(m.len() - text.len(), m.len() as int) =~= text);
}

/// A refusal that is passed over is noted with the backend that gave it and with what
/// it said, at most 300 characters of it.
pub proof fn law_refusal_noted(p: ProxyV, h: HiveV, status: u16, text: Seq<char>, now: u64)
    requires
        p.phase == Phase::Refused(status),
        p.wf(),
    ensures
        ({
            let (q, _, a) = after(p, h, EventV::RefusalText(text), now);
            &&& a is Send && q.next == p.next + 1
            &&& ("`"@ + p.upstream() + "` answered "@ + decimal(status as nat)).is_prefix_of(
                q.last_error,
            )
            &&& cut_text(text, 300).is_suffix_of(q.last_error)
        }),
{
    let cut = cut_text(text, 300);
    let m = refusal_error(p.upstream(), status, text);
    let start = "`"@ + p.upstream() + "` answered "@ + decimal(status as nat);
    assert(m.subrange(m.len() - cut.len(), m.len() as int) =~= cut);
    assert(start =~= m.subrange(0, start.len() as int));
}

/// A status that is none is told as a bad gateway.
pub proof fn law_odd_status(p: ProxyV, h: HiveV, raw: u16, now: u64)
    requires
        raw < 100 || raw > 999,
    ensures
        after(p, h, EventV::Answered(raw), now) == after(p, h, EventV::Answered(502), now),
{
}

/// An answer to a streaming request is relayed, any other is read whole, each with the
/// status that the client is told.
pub proof fn law_how_answers_are_read(p: ProxyV, h: HiveV, raw: u16, now: u64)
    requires
        100 <= raw <= 999,
        raw != 429 && raw != 500 && raw != 502 && raw != 503,
    ensures
        ({
            let (q, _, a) = after(p, h, EventV::Answered(raw), now);
            if p.request.stream {
                a == ActionV::Relay(raw, 200 <= raw < 300) && q.phase == Phase::Relaying(raw)
            } else {
                a == ActionV::ReadBody(raw) && q.phase == Phase::Reading(raw)
            }
        }),
{
}

/// Of the hive, requests on their way change the counts and the cooldowns, and nothing
/// else.
pub proof fn law_hive_kept(p: ProxyV, h: HiveV, e: EventV, now: u64, url: Seq<char>)
    ensures
        after(p, h, e, now).1 == (HiveV {
            inflight: after(p, h, e, now).1.inflight,
            cooldown: after(p, h, e, now).1.cooldown,
            ..h
        }),
        one_more(h, url) == (HiveV { inflight: one_more(h, url).inflight, ..h }),
        one_less(h, url) == (HiveV { inflight: one_less(h, url).inflight, ..h }),
        flying(h, url) < u64::MAX ==> flying(one_more(h, url), url) == flying(h, url) + 1,
        flying(h, url) > 0 ==> flying(one_less(h, url), url) == flying(h, url) - 1,
{
}

/// A request that cannot be read leaves the hive as it is and is logged with the reason
/// and with what was read of it.
pub proof fn law_unreadable(
    h: HiveV,
    query: Option<Seq<char>>,
    content_type: Option<Seq<char>>,
    via: Option<Seq<char>>,
    authorization: Option<Seq<char>>,
    body: Seq<u8>,
    path: Seq<char>,
    now: u64,
)
    ensures
        ({
            let (start, g) = started(h, query, content_type, via, authorization, body, path, now);
            match request_of(query, content_type, body) {
                Err((msg, request)) => {
                    &&& g == h
                    &&& start matches StartV::Refused(o) && o.error == Some(msg) && o.request
                        == request && o.upstream is None
                },
                Ok(r) => {
                    &&& g == after_decision(h, r.model, now)
                    &&& start == routed(h, r, via_of(via), authorization, path, now)
                },
            }
        }),
{
}

/// Items are joined by putting the separator between them.
pub proof fn law_joined(items: Seq<Seq<char>>, last: Seq<char>, sep: Seq<char>)
    ensures
        joined(seq![last], sep) == last,
        items.len() > 0 ==> joined(items.push(last), sep) == joined(items, sep) + sep + last,
        joined(Seq::empty(), sep).len() == 0,
{
    assert(items.push(last).drop_last() =~= items);
}

/// A request that could not be sent is tried elsewhere, unless a backend was connected to
/// and may have taken it; either way the reason is kept.
pub proof fn law_send_failure(p: ProxyV, h: HiveV, connecting: bool, error: Seq<char>, now: u64)
    requires
        p.next + 1 < p.candidates.len(),
    ensures
        after(p, h, send_failure(false, connecting, error), now).2 is Send,
        after(p, h, send_failure(true, true, error), now).2 is Send,
        after(p, h, send_failure(true, false, error), now).2 is Finish,
        after(p, h, send_failure(false, connecting, error), now).0.last_error == error,
{
}

/// A client that goes away leaves no count behind: what was counted when its request was
/// sent is released, once.
pub proof fn law_abandoned(p: ProxyV, h: HiveV)
    requires
        no_idle_entries(h.inflight),
        flying(h, p.upstream()) < u64::MAX,
    ensures
        p.outstanding() ==> abandoned(p, one_more(h, p.upstream())).1 == h,
        p.phase == Phase::Ready || p.phase == Phase::Done ==> abandoned(p, h).1 == h,
        abandoned(p, h).0.phase == Phase::Done,
        abandoned(abandoned(p, h).0, h).1 == h,
{
    law_release_undoes_track(h, p.upstream());
}

/// Who is refused is told why: which models there are, or which hives were visited.
pub proof fn law_refusal_messages(h: HiveV, model: Seq<char>, via: Seq<Seq<char>>)
    ensures
        ("model `"@ + model + "` not found"@).is_prefix_of(unknown_message(h, model)),
        debug_list(model_names(h)).is_suffix_of(unknown_message(h, model)),
        (joined(via, ", "@) + ")"@).is_suffix_of(loop_message(model, via)),
        ("loop detected: every backend for model `"@ + model).is_prefix_of(
            loop_message(model, via),
        ),
{
    reveal_strlit("` not found");
    reveal_strlit("` not found in hive. Available: ");
    let m = unknown_message(h, model);
    let start = "model `"@ + model + "` not found"@;
    let names = debug_list(model_names(h));
    assert(start =~= m.subrange(0, start.len() as int));
    assert(names =~= m.subrange(m.len() - names.len(), m.len() as int));
    let l = loop_message(model, via);
    let end = joined(via, ", "@) + ")"@;
    let head = "loop detected: every backend for model `"@ + model;
    assert(end =~= l.subrange(l.len() - end.len(), l.len() as int));
    assert(head =~= l.subrange(0, head.len() as int));
}

/// When no candidate could be reached the client is told for which model, and how many
/// were tried.
pub proof fn law_exhausted_message(p: ProxyV, last_error: Seq<char>)
    ensures
        exhausted(p, last_error).error matches Some(m) && (
        "no hive member could serve model `"@ + p.request.model + "` ("@ + decimal(
            p.candidates.len(),
        )).is_prefix_of(m),
{
    let m = exhausted(p, last_error).error->0;
    let start = "no hive member could serve model `"@ + p.request.model + "` ("@ + decimal(
        p.candidates.len(),
    );
    assert(start =~= m.subrange(0, start.len() as int));
}

/// A hive adds itself behind the hives that a request came through, which stay in order.
pub proof fn law_path_grows_at_its_end(path: Seq<Seq<char>>, me: Seq<char>)
    ensures
        path.is_prefix_of(forwarded_path(path, me)),
        !path.contains(me) ==> forwarded_path(path, me).last() == me && forwarded_path(
            path,
            me,
        ).len() == path.len() + 1,
{
    assert(path =~= forwarded_path(path, me).subrange(0, path.len() as int));
}

/// The error of a status tells the status, and a success is no error.
pub proof fn law_status_error(status: u16)
    ensures
        200 <= status < 300 ==> status_error(status) is None,
        status < 200 || status >= 300 ==> (status_error(status) matches Some(m) && (
        "upstream status "@ + decimal(status as nat)).is_prefix_of(m)),
        reason_phrase(status) matches Some(r) ==> r.is_suffix_of(status_text(status)),
{
    let m = "upstream status "@ + status_text(status);
    let start = "upstream status "@ + decimal(status as nat);
    assert(start =~= m.subrange(0, start.len() as int));
    if let Some(r) = reason_phrase(status) {
        let t = status_text(status);
        assert(r =~= t.subrange(t.len() - r.len(), t.len() as int));
    }
}

} // verus!
