//! Loads of backends and how they are read.
//!
//! A probe never excludes a backend: anything but a clear signal is
//! [`Load::Unknown`], and backends of unknown load stay fully usable.
use crate::deep::{deep_chars, lemma_deep_push};
use crate::discovery::{is_root, law_prefix_not_doubled, server_root, server_root_of};
use crate::json::{member, Json, JsonV};
use crate::text::{
    after_last, chars_of, cut_once, is_space, law_after_last, law_one_word, law_words_round,
    lemma_cut, lemma_no_cut, lemma_strip_nothing, lines, split_lines, split_once, split_words,
    str_eq, string_of, strip, tail_after_last, trim, words, Class,
};
use vstd::prelude::*;
use vstd::string::*;

verus! {

broadcast use deep_chars;

/// Load of one backend.
#[derive(Debug, Clone, Copy, PartialEq, Eq, Structural)]
pub enum Load {
    /// Tracked request count (vLLM `server_load`). A zero may mean that the
    /// server does not track its requests.
    Known(u64),
    /// Request count that the server vouches for, zero included.
    Measured(u64),
    /// No usable signal.
    Unknown,
}

impl View for Load {
    type V = Load;

    open spec fn view(&self) -> Load {
        *self
    }
}

impl DeepView for Load {
    type V = Load;

    open spec fn deep_view(&self) -> Load {
        *self
    }
}

/// The larger of two loads.
pub open spec fn larger(a: u64, b: u64) -> u64 {
    if a < b {
        b
    } else {
        a
    }
}

/// The load to route on, and whether the server vouches for it: the larger of
/// what the server reports and what the hive itself has in flight there.
pub open spec fn effective(server: Load, flying: u64) -> (u64, bool) {
    match server {
        Load::Known(n) => (larger(n, flying), n > 0 && n >= flying),
        Load::Measured(n) => (larger(n, flying), n >= flying),
        Load::Unknown => (flying, false),
    }
}

/// The load to route on, and whether the server vouches for it. A report that
/// does not cover the requests in flight, or a tracked count of zero, is not
/// vouched for.
pub fn effective_load(server: Load, flying: u64) -> (r: (u64, bool))
    ensures
        r == effective(server, flying),
{
    match server {
        Load::Known(n) => (if n < flying {
            flying
        } else {
            n
        }, n > 0 && n >= flying),
        Load::Measured(n) => (if n < flying {
            flying
        } else {
            n
        }, n >= flying),
        Load::Unknown => (flying, false),
    }
}

/// The first load that is known.
pub open spec fn first_known(answers: Seq<Load>) -> Load
    decreases answers.len(),
{
    if answers.len() == 0 {
        Load::Unknown
    } else if answers.first() != Load::Unknown {
        answers.first()
    } else {
        first_known(answers.drop_first())
    }
}

/// The load of a backend from what its probes answered, in order: the first
/// clear signal wins.
pub fn probe_backend(answers: &[Load]) -> (r: Load)
    ensures
        r == first_known(answers@),
{
    let mut i: usize = 0;
    proof {
        assert(answers@.skip(0) =~= answers@);
    }
    while i < answers.len()
        invariant
            i <= answers@.len(),
            first_known(answers@) == first_known(answers@.skip(i as int)),
        decreases answers@.len() - i,
    {
        proof {
            assert(answers@.skip(i as int).drop_first() =~= answers@.skip(i + 1));
        }
        match answers[i] {
            Load::Unknown => {},
            load => {
                return load;
            },
        }
        i = i + 1;
    }
    Load::Unknown
}

/// The number with its fraction cut off, as a `u64` holds it: what lies outside
/// its range becomes its nearest end.
pub uninterp spec fn whole_part(n: serde_json::Number) -> Option<u64>;

/// Calls `serde_json::Number::as_f64` and casts the result to `u64`, which cuts
/// the fraction off and saturates. Its result depends on the number alone.
#[verifier::external_body]
fn number_whole_part(n: &serde_json::Number) -> (r: Option<u64>)
    ensures
        r == whole_part(*n),
{
    n.as_f64().map(|x| x as u64)
}

/// The count that a load report gives under `server_load`.
pub open spec fn reported_count(body: JsonV) -> Option<u64> {
    match member(body, "server_load"@) {
        Some(JsonV::Unsigned(n)) => Some(n),
        Some(JsonV::Other(n)) => whole_part(n),
        _ => None,
    }
}

/// The count that a load report gives under `server_load`.
pub fn report_count(body: &Json) -> (r: Option<u64>)
    ensures
        r == reported_count(body@),
{
    match body.get("server_load") {
        Some(v) => match v.as_u64() {
            Some(n) => Some(n),
            None => match v {
                Json::Other(n) => number_whole_part(n),
                _ => None,
            },
        },
        None => None,
    }
}

/// vLLM `GET /load`, answered with `{"server_load": N}`.
pub struct VllmLoadProbe;

impl VllmLoadProbe {
    /// The name of the probe.
    pub fn name(&self) -> (r: &'static str)
        ensures
            r@ == "vllm-/load"@,
    {
        "vllm-/load"
    }

    /// Where to ask.
    pub fn url(&self, base_url: &str) -> (r: String)
        ensures
            r@ == server_root_of(base_url@) + "/load"@,
            r@ == load_url(base_url@),
    {
        let mut url = server_root(base_url);
        url.append("/load");
        url
    }

    /// The load that an answer gives. `body` is what a successful answer holds;
    /// nothing where there was no answer, an error status or no JSON.
    pub fn read(&self, body: Option<&Json>) -> (r: Load)
        ensures
            r == (match body {
                Some(b) => match reported_count(b@) {
                    Some(n) => Load::Known(n),
                    None => Load::Unknown,
                },
                None => Load::Unknown,
            }),
            r == told_load(
                match body {
                    Some(b) => Some(b@),
                    None => None,
                },
            ),
    {
        match body {
            Some(b) => match report_count(b) {
                Some(n) => Load::Known(n),
                None => Load::Unknown,
            },
            None => Load::Unknown,
        }
    }
}

/// Where a server is asked for its load.
pub open spec fn load_url(base_url: Seq<char>) -> Seq<char> {
    server_root_of(base_url) + "/load"@
}

/// Where a server is asked for its metrics.
pub open spec fn metrics_url(base_url: Seq<char>) -> Seq<char> {
    server_root_of(base_url) + "/metrics"@
}

/// The load that a plain server's answer gives.
pub open spec fn told_load(body: Option<JsonV>) -> Load {
    match body {
        Some(b) => match reported_count(b) {
            Some(n) => Load::Known(n),
            None => Load::Unknown,
        },
        None => Load::Unknown,
    }
}

/// The load that a hive's answer gives.
pub open spec fn vouched_load(body: Option<JsonV>) -> Load {
    match body {
        Some(b) if vouched(b) => match reported_count(b) {
            Some(n) => Load::Measured(n),
            None => Load::Unknown,
        },
        _ => Load::Unknown,
    }
}

/// Whether a load report carries the marker of a hive that vouches for it.
pub open spec fn vouched(body: JsonV) -> bool {
    match member(body, "hivllm"@) {
        Some(mark) => member(mark, "exact"@) == Some(JsonV::Bool(true)),
        None => false,
    }
}

/// A hive's `GET /load?model=`, answered with
/// `{"server_load": N, "hivllm": {"exact": bool}}`.
pub struct HivLoadProbe;

impl HivLoadProbe {
    /// The name of the probe.
    pub fn name(&self) -> (r: &'static str)
        ensures
            r@ == "hivllm-/load"@,
    {
        "hivllm-/load"
    }

    /// Where to ask.
    pub fn url(&self, base_url: &str) -> (r: String)
        ensures
            r@ == server_root_of(base_url@) + "/load"@,
            r@ == load_url(base_url@),
    {
        let mut url = server_root(base_url);
        url.append("/load");
        url
    }

    /// The load that an answer gives: only a number that the hive vouches for
    /// is trusted.
    pub fn read(&self, body: Option<&Json>) -> (r: Load)
        ensures
            r == (match body {
                Some(b) if vouched(b@) => match reported_count(b@) {
                    Some(n) => Load::Measured(n),
                    None => Load::Unknown,
                },
                _ => Load::Unknown,
            }),
            r == vouched_load(
                match body {
                    Some(b) => Some(b@),
                    None => None,
                },
            ),
    {
        let b = match body {
            Some(b) => b,
            None => {
                return Load::Unknown;
            },
        };
        let exact = match b.get("hivllm") {
            Some(mark) => match mark.get("exact") {
                Some(Json::Bool(e)) => *e,
                _ => false,
            },
            None => false,
        };
        if !exact {
            return Load::Unknown;
        }
        match report_count(b) {
            Some(n) => Load::Measured(n),
            None => Load::Unknown,
        }
    }
}

/// Whether a metric counts requests that a vLLM server runs or queues.
pub open spec fn is_gauge(name: Seq<char>) -> bool {
    name == "vllm:num_requests_running"@ || name == "vllm:num_requests_waiting"@
}

/// The sample that a line of metrics gives of a gauge: the name, labels in braces or
/// none, the sample, and maybe a timestamp.
pub open spec fn sample_in(line: Seq<char>) -> Option<Seq<char>> {
    match (split_once(line, '{'), after_last(line, '}')) {
        (Some((name, _)), Some(behind)) => if is_gauge(strip(name, Class::Space)) && words(
            behind,
        ).len() > 0 {
            Some(words(behind)[0])
        } else {
            None
        },
        _ => if words(line).len() > 1 && is_gauge(words(line)[0]) {
            Some(words(line)[1])
        } else {
            None
        },
    }
}

/// The samples that lines of metrics give of the gauges, in order.
pub open spec fn samples_in(rows: Seq<Seq<char>>) -> Seq<Seq<char>>
    decreases rows.len(),
{
    if rows.len() == 0 {
        Seq::empty()
    } else {
        let before = samples_in(rows.drop_last());
        match sample_in(rows.last()) {
            Some(s) => before.push(s),
            None => before,
        }
    }
}

/// Whether a metric counts requests that a vLLM server runs or queues.
fn counts_requests(name: &[char]) -> (r: bool)
    ensures
        r == is_gauge(name@),
{
    let text = string_of(name);
    str_eq(text.as_str(), "vllm:num_requests_running") || str_eq(
        text.as_str(),
        "vllm:num_requests_waiting",
    )
}

/// The sample that a line of metrics gives of a gauge.
fn read_sample(line: &[char]) -> (r: Option<String>)
    ensures
        r.deep_view() == sample_in(line@),
{
    match (cut_once(line, '{'), tail_after_last(line, '}')) {
        (Some((name, _)), Some(behind)) => {
            let rest = split_words(behind);
            if counts_requests(trim(name, Class::Space)) && rest.len() > 0 {
                proof {
                    assert(rest.deep_view()[0] == rest@[0]@);
                }
                Some(string_of(rest[0].as_slice()))
            } else {
                None
            }
        },
        _ => {
            let all = split_words(line);
            proof {
                assert(all@.len() > 1 ==> all.deep_view()[0] == all@[0]@ && all.deep_view()[1]
                    == all@[1]@);
            }
            if all.len() > 1 && counts_requests(all[0].as_slice()) {
                Some(string_of(all[1].as_slice()))
            } else {
                None
            }
        },
    }
}

/// vLLM `GET /metrics`, which always exports the requests that run and wait.
pub struct VllmMetricsProbe;

impl VllmMetricsProbe {
    /// The name of the probe.
    pub fn name(&self) -> (r: &'static str)
        ensures
            r@ == "vllm-/metrics"@,
    {
        "vllm-/metrics"
    }

    /// Where to ask.
    pub fn url(&self, base_url: &str) -> (r: String)
        ensures
            r@ == server_root_of(base_url@) + "/metrics"@,
            r@ == metrics_url(base_url@),
    {
        let mut url = server_root(base_url);
        url.append("/metrics");
        url
    }

    /// The samples that an answer gives of the requests that run and wait, one for
    /// each engine and gauge: their sum is the load.
    pub fn samples(&self, text: &str) -> (r: Vec<String>)
        ensures
            r.deep_view() == samples_in(lines(text@)),
    {
        let chars = chars_of(text);
        let rows = split_lines(chars.as_slice());
        let ghost all = rows.deep_view();
        let mut out: Vec<String> = Vec::new();
        let mut i: usize = 0;
        proof {
            assert(out.deep_view() =~= samples_in(all.take(0)));
        }
        while i < rows.len()
            invariant
                i <= rows@.len(),
                all == rows.deep_view(),
                out.deep_view() == samples_in(all.take(i as int)),
            decreases rows@.len() - i,
        {
            proof {
                assert(all.take(i + 1).drop_last() =~= all.take(i as int));
                assert(all.take(i + 1).last() == rows@[i as int]@);
            }
            if let Some(s) = read_sample(rows[i].as_slice()) {
                let ghost before = out;
                out.push(s);
                proof {
                    lemma_deep_push(before, out, s);
                }
            }
            i = i + 1;
        }
        proof {
            assert(all.take(i as int) =~= all);
        }
        out
    }
}

/// The load to route on is the larger of what a server reports and what the hive has
/// in flight there, never their sum and never less than either. A measured count is
/// vouched for exactly if it covers what is in flight, a tracked one only if it is
/// positive too. Without a report it is what is in flight, and not vouched for.
pub proof fn law_effective_load(n: u64, flying: u64)
    ensures
        ({
            let (known, sure) = effective(Load::Known(n), flying);
            &&& known >= n && known >= flying && (known == n || known == flying)
            &&& sure <==> n > 0 && n >= flying
        }),
        ({
            let (measured, sure) = effective(Load::Measured(n), flying);
            &&& measured >= n && measured >= flying && (measured == n || measured == flying)
            &&& sure <==> n >= flying
        }),
        effective(Load::Unknown, flying) == (flying, false),
{
}

/// More load never looks like less: where a report or the requests in flight grow, so
/// does the load to route on, or it stays.
pub proof fn law_effective_load_grows(n: u64, m: u64, flying: u64, more: u64)
    requires
        n <= m,
        flying <= more,
    ensures
        effective(Load::Known(n), flying).0 <= effective(Load::Known(m), more).0,
        effective(Load::Measured(n), flying).0 <= effective(Load::Measured(m), more).0,
        effective(Load::Unknown, flying).0 <= effective(Load::Measured(n), more).0,
{
}

/// The first probe with a clear signal decides, whatever later ones answer; without
/// one the load is unknown.
pub proof fn law_first_signal_wins(answers: Seq<Load>, i: int)
    requires
        0 <= i <= answers.len(),
        forall|j: int| 0 <= j < i ==> #[trigger] answers[j] == Load::Unknown,
        i < answers.len() ==> answers[i] != Load::Unknown,
    ensures
        first_known(answers) == if i < answers.len() {
            answers[i]
        } else {
            Load::Unknown
        },
    decreases answers.len(),
{
    if answers.len() > 0 && i > 0 {
        let rest = answers.drop_first();
        assert(answers[0] == Load::Unknown);
        assert forall|j: int| 0 <= j < i - 1 implies #[trigger] rest[j] == Load::Unknown by {
            assert(rest[j] == answers[j + 1]);
        }
        law_first_signal_wins(rest, i - 1);
    }
}

/// A report gives the count under its key if it is an unsigned integer, and none if
/// there is no number under it.
pub proof fn law_reported_count(o: Map<Seq<char>, JsonV>, n: u64)
    ensures
        reported_count(JsonV::Object(o.insert("server_load"@, JsonV::Unsigned(n)))) == Some(n),
        reported_count(JsonV::Object(o.remove("server_load"@))) is None,
        o.contains_key("server_load"@) && !(o["server_load"@] is Unsigned) && !(
        o["server_load"@] is Other) ==> reported_count(JsonV::Object(o)) is None,
{
}

/// A hive vouches for a report exactly if its marker says that it is exact.
pub proof fn law_vouched(o: Map<Seq<char>, JsonV>, m: Map<Seq<char>, JsonV>, exact: bool)
    ensures
        vouched(
            JsonV::Object(
                o.insert("hivllm"@, JsonV::Object(m.insert("exact"@, JsonV::Bool(exact)))),
            ),
        ) == exact,
        !vouched(JsonV::Object(o.insert("hivllm"@, JsonV::Object(m.remove("exact"@))))),
        !vouched(JsonV::Object(o.remove("hivllm"@))),
{
}

/// Whether a text is one word.
pub open spec fn is_word(w: Seq<char>) -> bool {
    w.len() > 0 && forall|i: int| 0 <= i < w.len() ==> !is_space(#[trigger] w[i])
}

/// The sample of a gauge with labels is what stands behind them.
pub proof fn law_labeled_sample(running: bool, labels: Seq<char>, value: Seq<char>)
    requires
        is_word(value),
        !value.contains('}'),
    ensures
        ({
            let name = if running {
                "vllm:num_requests_running"@
            } else {
                "vllm:num_requests_waiting"@
            };
            sample_in(name + "{"@ + labels + "} "@ + value) == Some(value)
        }),
{
    reveal_strlit("vllm:num_requests_running");
    reveal_strlit("vllm:num_requests_waiting");
    reveal_strlit("{");
    reveal_strlit("} ");
    let name = if running {
        "vllm:num_requests_running"@
    } else {
        "vllm:num_requests_waiting"@
    };
    let line = name + "{"@ + labels + "} "@ + value;
    let behind = seq![' '] + value;
    assert(line =~= name + (seq!['{'] + (labels + "} "@ + value)));
    lemma_cut(name, '{', labels + "} "@ + value);
    lemma_strip_nothing(name);
    assert(line =~= (name + "{"@ + labels) + seq!['}'] + behind);
    assert(!behind.contains('}')) by {
        if behind.contains('}') {
            let j = choose|j: int| 0 <= j < behind.len() && behind[j] == '}';
            assert(value[j - 1] == '}');
        }
    }
    law_after_last(name + "{"@ + labels, '}', behind);
    let empty = Seq::<char>::empty();
    assert(behind =~= empty + seq![' '] + value);
    law_words_round(empty, ' ', value);
    law_one_word(empty);
    law_one_word(value);
    assert(words(behind) =~= seq![value]);
}

/// A timestamp behind a sample does not matter, with labels or without.
pub proof fn law_timestamp_ignored(labels: Seq<char>, value: Seq<char>, stamp: Seq<char>)
    requires
        is_word(value),
        is_word(stamp),
        !value.contains('}') && !value.contains('{'),
        !stamp.contains('}') && !stamp.contains('{'),
    ensures
        sample_in(
            "vllm:num_requests_running"@ + "{"@ + labels + "} "@ + (value + seq![' '] + stamp),
        ) == Some(value),
        sample_in("vllm:num_requests_running"@ + " "@ + (value + seq![' '] + stamp)) == Some(value),
{
    reveal_strlit("vllm:num_requests_running");
    reveal_strlit("{");
    reveal_strlit("} ");
    reveal_strlit(" ");
    let name = "vllm:num_requests_running"@;
    let tail = value + seq![' '] + stamp;
    let behind = seq![' '] + tail;
    let empty = Seq::<char>::empty();
    law_words_round(value, ' ', stamp);
    law_one_word(value);
    law_one_word(stamp);
    assert(words(tail) =~= seq![value, stamp]);
    assert(!tail.contains('{') && !tail.contains('}')) by {
        assert forall|i: int| 0 <= i < tail.len() implies #[trigger] tail[i] != '{' && tail[i]
            != '}' by {
            if i < value.len() {
                assert(value.contains(value[i]));
            } else if i > value.len() {
                assert(stamp.contains(stamp[i - value.len() - 1]));
            }
        }
    }
    let line = name + "{"@ + labels + "} "@ + tail;
    assert(line =~= name + (seq!['{'] + (labels + "} "@ + tail)));
    lemma_cut(name, '{', labels + "} "@ + tail);
    lemma_strip_nothing(name);
    assert(line =~= (name + "{"@ + labels) + seq!['}'] + behind);
    assert(!behind.contains('}')) by {
        if behind.contains('}') {
            let j = choose|j: int| 0 <= j < behind.len() && behind[j] == '}';
            assert(tail.contains(tail[j - 1]));
        }
    }
    law_after_last(name + "{"@ + labels, '}', behind);
    assert(behind =~= empty + seq![' '] + tail);
    law_words_round(empty, ' ', tail);
    law_one_word(empty);
    assert(words(behind) =~= seq![value, stamp]);
    let plain = name + " "@ + tail;
    assert(plain =~= name + seq![' '] + tail);
    law_words_round(name, ' ', tail);
    law_one_word(name);
    assert(words(plain) =~= seq![name, value, stamp]);
    assert forall|i: int| 0 <= i < plain.len() implies #[trigger] plain[i] != '{' by {
        if i > name.len() {
            assert(tail.contains(tail[i - name.len() - 1]));
        }
    }
    lemma_no_cut(plain, '{');
}

/// The sample of a gauge without labels is the word behind its name; other metrics
/// give none.
pub proof fn law_plain_sample(name: Seq<char>, value: Seq<char>)
    requires
        is_word(name),
        is_word(value),
        !name.contains('{'),
        !value.contains('{'),
    ensures
        sample_in(name + " "@ + value) == if name == "vllm:num_requests_running"@ || name
            == "vllm:num_requests_waiting"@ {
            Some(value)
        } else {
            None
        },
{
    reveal_strlit(" ");
    let line = name + " "@ + value;
    assert(line =~= name + seq![' '] + value);
    law_words_round(name, ' ', value);
    law_one_word(name);
    law_one_word(value);
    assert(words(line) =~= seq![name, value]);
    assert forall|i: int| 0 <= i < line.len() implies #[trigger] line[i] != '{' by {
        if i < name.len() {
            assert(name.contains(name[i]));
        } else if i > name.len() {
            assert(value.contains(value[i - name.len() - 1]));
        }
    }
    lemma_no_cut(line, '{');
}

/// A metric with labels that is none of the gauges gives no sample.
pub proof fn law_other_metric(name: Seq<char>, rest: Seq<char>)
    requires
        is_word(name),
        !name.contains('{'),
        rest.contains('}'),
        name != "vllm:num_requests_running"@,
        name != "vllm:num_requests_waiting"@,
    ensures
        sample_in(name + "{"@ + rest) is None,
{
    reveal_strlit("{");
    let line = name + "{"@ + rest;
    assert(line =~= name + (seq!['{'] + rest));
    assert forall|i: int| 0 <= i < name.len() implies #[trigger] name[i] != '{' by {
        assert(name.contains(name[i]));
    }
    lemma_cut(name, '{', rest);
    assert(!is_space(name[0]) && !is_space(name[name.len() - 1]));
    lemma_strip_nothing(name);
    if after_last(line, '}') is None {
        lemma_contains_last(line, '}');
        let j = choose|j: int| 0 <= j < rest.len() && rest[j] == '}';
        assert(line[name.len() + 1 + j] == '}');
    }
}

/// Where there is nothing after the last of a character, there is none.
proof fn lemma_contains_last(s: Seq<char>, c: char)
    requires
        after_last(s, c) is None,
    ensures
        !s.contains(c),
    decreases s.len(),
{
    if s.len() > 0 {
        lemma_contains_last(s.drop_last(), c);
        if s.contains(c) {
            let j = choose|j: int| 0 <= j < s.len() && s[j] == c;
            assert(s.drop_last()[j] == c);
        }
    }
}

/// The samples are those of the lines, in order: none is left out, none is added.
pub proof fn law_samples(rows: Seq<Seq<char>>, line: Seq<char>)
    ensures
        samples_in(rows.push(line)) == match sample_in(line) {
            Some(s) => samples_in(rows).push(s),
            None => samples_in(rows),
        },
        samples_in(Seq::empty()) == Seq::<Seq<char>>::empty(),
{
    assert(rows.push(line).drop_last() =~= rows);
}

/// A server's number is believed as it is, a hive's only if it vouches for it; without a
/// number, or without an answer, nothing is known.
pub proof fn law_answers(body: JsonV, n: u64)
    ensures
        reported_count(body) == Some(n) ==> told_load(Some(body)) == Load::Known(n),
        reported_count(body) == Some(n) && vouched(body) ==> vouched_load(Some(body))
            == Load::Measured(n),
        !vouched(body) ==> vouched_load(Some(body)) is Unknown,
        reported_count(body) is None ==> told_load(Some(body)) is Unknown && vouched_load(
            Some(body),
        ) is Unknown,
        told_load(None) is Unknown && vouched_load(None) is Unknown,
{
}

/// A server is asked for its load at its root, whether its base URL carries the OpenAI
/// prefix or not.
pub proof fn law_where_load_is(root: Seq<char>)
    requires
        is_root(root),
    ensures
        load_url(root) == root + "/load"@ && load_url(root + "/v1"@) == root + "/load"@,
        metrics_url(root) == root + "/metrics"@ && metrics_url(root + "/v1"@) == root + "/metrics"@,
{
    law_prefix_not_doubled(root, Seq::empty());
}

} // verus!
