//! The query log: what is recorded of each request.
//!
//! Every request that the hive proxies becomes a [`LogEntry`]. Answers are logged
//! in full by default; content and reasoning are kept apart.
use crate::deep::deep_chars;
use crate::json::{
    copy_items, item_views, items_of, member, members_view, text_of, Json, JsonV,
};
use crate::text::{chars_of, decimal, push_decimal, string_of};
use vstd::prelude::*;
use vstd::string::*;

pub mod archive;
pub mod stream;

pub use self::archive::{read_archive, ArchiveName, Rotation};
pub use self::stream::{feed_sse, StreamAcc, StreamSummary};

verus! {

broadcast use deep_chars;

/// What to do with long text in query logs.
#[derive(Debug, Clone, Copy, PartialEq, Eq, Structural)]
pub enum Truncate {
    /// Keep everything.
    Off,
    /// Cut long strings.
    Chars,
}

impl Default for Truncate {
    fn default() -> (r: Self)
        ensures
            r == Truncate::Off,
    {
        Truncate::Off
    }
}

/// One proxied query (or failed routing attempt).
#[derive(Debug, Clone)]
pub struct LogEntry {
    /// When it was answered.
    pub ts: String,
    /// Kind of the request, e.g. `chat`.
    pub route: String,
    pub model: String,
    /// Upstream that served it, if routing succeeded.
    pub upstream: Option<String>,
    pub stream: bool,
    pub status: u16,
    pub latency_ms: u64,
    /// Token usage reported by upstream (non-streaming responses only).
    pub usage: Option<Json>,
    pub error: Option<String>,
    /// Full request body sent by the client.
    pub request: Json,
    /// Upstream response: extracted text fields and full raw payload.
    pub response: Option<LoggedResponse>,
}

/// What a [`LogEntry`] stands for.
pub struct EntryV {
    pub ts: Seq<char>,
    pub route: Seq<char>,
    pub model: Seq<char>,
    pub upstream: Option<Seq<char>>,
    pub stream: bool,
    pub status: u16,
    pub latency_ms: u64,
    pub usage: Option<JsonV>,
    pub error: Option<Seq<char>>,
    pub request: JsonV,
    pub response: Option<ResponseV>,
}

impl View for LogEntry {
    type V = EntryV;

    open spec fn view(&self) -> EntryV {
        EntryV {
            ts: self.ts@,
            route: self.route@,
            model: self.model@,
            upstream: self.upstream.deep_view(),
            stream: self.stream,
            status: self.status,
            latency_ms: self.latency_ms,
            usage: self.usage.deep_view(),
            error: self.error.deep_view(),
            request: self.request@,
            response: self.response.deep_view(),
        }
    }
}

/// Upstream response, logged in full by default.
#[derive(Debug, Clone, Default)]
pub struct LoggedResponse {
    pub content: Option<String>,
    pub reasoning: Option<String>,
    pub tool_calls: Vec<Json>,
    pub finish_reason: Option<String>,
    /// Chunks seen (streaming responses only).
    pub chunks: Option<u64>,
    /// Complete upstream payload (non-streaming responses only).
    pub raw: Option<Json>,
}

/// What a [`LoggedResponse`] stands for.
pub struct ResponseV {
    pub content: Option<Seq<char>>,
    pub reasoning: Option<Seq<char>>,
    pub tool_calls: Seq<JsonV>,
    pub finish_reason: Option<Seq<char>>,
    pub chunks: Option<u64>,
    pub raw: Option<JsonV>,
}

impl DeepView for LoggedResponse {
    type V = ResponseV;

    open spec fn deep_view(&self) -> ResponseV {
        ResponseV {
            content: self.content.deep_view(),
            reasoning: self.reasoning.deep_view(),
            tool_calls: self.tool_calls.deep_view(),
            finish_reason: self.finish_reason.deep_view(),
            chunks: self.chunks,
            raw: self.raw.deep_view(),
        }
    }
}

/// The first text of two.
pub open spec fn either_text(a: Option<Seq<char>>, b: Option<Seq<char>>) -> Option<Seq<char>> {
    if a is Some {
        a
    } else {
        b
    }
}

/// The first item of an array.
pub open spec fn first_of(v: Option<JsonV>) -> Option<JsonV> {
    match items_of(v) {
        Some(a) if a.len() > 0 => Some(a[0]),
        _ => None,
    }
}

/// The member of `v` under `key`, if there is a `v`.
pub open spec fn member_of(v: Option<JsonV>, key: Seq<char>) -> Option<JsonV> {
    match v {
        Some(x) => member(x, key),
        None => None,
    }
}

/// What a log keeps of a complete upstream payload.
pub open spec fn extracted(body: JsonV) -> ResponseV {
    let choice = first_of(member(body, "choices"@));
    let message = member_of(choice, "message"@);
    ResponseV {
        content: either_text(
            text_of(member_of(message, "content"@)),
            text_of(member_of(choice, "text"@)),
        ),
        reasoning: either_text(
            text_of(member_of(message, "reasoning"@)),
            text_of(member_of(message, "reasoning_content"@)),
        ),
        tool_calls: match items_of(member_of(message, "tool_calls"@)) {
            Some(calls) => calls,
            None => Seq::empty(),
        },
        finish_reason: text_of(member_of(choice, "finish_reason"@)),
        chunks: None,
        raw: Some(body),
    }
}

/// The text of the member under `key`.
fn text_member(v: &Json, key: &str) -> (r: Option<String>)
    ensures
        r.deep_view() == text_of(member(v@, key@)),
{
    match v.get(key) {
        Some(Json::Text(s)) => Some(s.clone()),
        _ => None,
    }
}

/// Extracts a [`LoggedResponse`] from a complete (non-streaming) upstream JSON
/// payload: chat completions (`choices[].message.{content,reasoning,tool_calls}`)
/// and legacy text completions (`choices[].text`). Embeddings keep their vector
/// in `raw`.
pub fn extract_response(body: &Json) -> (r: LoggedResponse)
    ensures
        r.deep_view() == extracted(body@),
{
    let mut out = LoggedResponse {
        content: None,
        reasoning: None,
        tool_calls: Vec::new(),
        finish_reason: None,
        chunks: None,
        raw: Some(body.copy()),
    };
    proof {
        assert(out.tool_calls.deep_view() =~= Seq::empty());
    }
    let choices = match body.get("choices") {
        Some(Json::Array(a)) => a,
        _ => {
            return out;
        },
    };
    proof {
        item_views(*choices);
    }
    if choices.len() == 0 {
        return out;
    }
    let choice = &choices[0];
    if let Some(msg) = choice.get("message") {
        out.content = text_member(msg, "content");
        out.reasoning = text_member(msg, "reasoning");
        if out.reasoning.is_none() {
            out.reasoning = text_member(msg, "reasoning_content");
        }
        if let Some(Json::Array(calls)) = msg.get("tool_calls") {
            proof {
                item_views(*calls);
            }
            out.tool_calls = copy_items(calls);
        }
    }
    if out.content.is_none() {
        out.content = text_member(choice, "text");
    }
    out.finish_reason = text_member(choice, "finish_reason");
    out
}

/// A text cut to `max` characters, with a note of what was cut.
pub open spec fn cut_text(s: Seq<char>, max: nat) -> Seq<char> {
    if s.len() <= max {
        s
    } else {
        s.take(max as int) + "…[truncated, "@ + decimal(s.len()) + " chars total]"@
    }
}

/// A JSON value with every string cut.
pub open spec fn cut_json(v: JsonV, max: nat) -> JsonV
    decreases v,
{
    match v {
        JsonV::Text(s) => JsonV::Text(cut_text(s, max)),
        JsonV::Array(a) => JsonV::Array(
            Seq::new(
                a.len(),
                |i: int|
                    if 0 <= i < a.len() {
                        cut_json(a[i], max)
                    } else {
                        JsonV::Null
                    },
            ),
        ),
        JsonV::Object(o) => JsonV::Object(
            Map::new(
                |k: Seq<char>| o.contains_key(k),
                |k: Seq<char>|
                    if o.contains_key(k) {
                        cut_json(o[k], max)
                    } else {
                        JsonV::Null
                    },
            ),
        ),
        _ => v,
    }
}

/// The members of an object with every string cut.
pub open spec fn cut_members(o: Map<Seq<char>, JsonV>, max: nat) -> Map<Seq<char>, JsonV> {
    o.map_values(|v: JsonV| cut_json(v, max))
}

/// Cutting an object cuts its members.
proof fn lemma_cut_object(o: Map<Seq<char>, JsonV>, max: nat)
    ensures
        cut_json(JsonV::Object(o), max) == JsonV::Object(cut_members(o, max)),
{
    assert(cut_json(JsonV::Object(o), max)->Object_0 =~= cut_members(o, max));
}

/// A text cut to `max_chars` characters, with a note of what was cut.
pub fn truncate_text(s: &str, max_chars: usize) -> (r: String)
    ensures
        r@ == cut_text(s@, max_chars as nat),
{
    let v = chars_of(s);
    let total: usize = v.len();
    if total <= max_chars {
        return s.to_owned();
    }
    let mut out = string_of(vstd::slice::slice_subrange(v.as_slice(), 0, max_chars));
    out.append("…[truncated, ");
    push_decimal(&mut out, total as u64);
    out.append(" chars total]");
    out
}

/// A value with every string cut.
fn truncate_strings(v: Json, max_chars: usize) -> (r: Json)
    ensures
        r@ == cut_json(v@, max_chars as nat),
    decreases v,
{
    let ghost whole = v;
    match v {
        Json::Text(s) => Json::Text(truncate_text(s.as_str(), max_chars)),
        Json::Array(a) => {
            let ghost items = a@;
            let mut out: Vec<Json> = Vec::new();
            for x in it: a
                invariant
                    whole == v,
                    whole is Array,
                    whole->Array_0 == a,
                    a@ == items,
                    it.seq() == items,
                    out@.len() == it.index(),
                    forall|k: int|
                        0 <= k < it.index() ==> out@[k]@ == cut_json(items[k]@, max_chars as nat),
            {
                proof {
                    assert(decreases_to!(whole => whole->Array_0));
                    assert(decreases_to!(a@ => a@[it.index() as int]));
                }
                out.push(truncate_strings(x, max_chars));
            }
            let r = Json::Array(out);
            proof {
                assert(items_of(Some(r@))->0 =~= items_of(
                    Some(cut_json(whole@, max_chars as nat)),
                )->0);
            }
            r
        },
        Json::Object(o) => {
            let ghost entries = o@;
            let mut out: Vec<(String, Json)> = Vec::new();
            proof {
                assert(members_view(out@) =~= cut_members(
                    members_view(entries.take(0)),
                    max_chars as nat,
                ));
            }
            for x in it: o
                invariant
                    whole == v,
                    whole is Object,
                    whole->Object_0 == o,
                    o@ == entries,
                    it.seq() == entries,
                    members_view(out@) == cut_members(
                        members_view(entries.take(it.index() as int)),
                        max_chars as nat,
                    ),
            {
                let ghost before = out@;
                proof {
                    assert(decreases_to!(whole => whole->Object_0));
                    assert(decreases_to!(o@ => o@[it.index() as int]));
                    assert(decreases_to!(x => x.1));
                    assert(entries.take(it.index() + 1).drop_last() =~= entries.take(
                        it.index() as int,
                    ));
                }
                let (key, value) = x;
                let value = truncate_strings(value, max_chars);
                out.push((key, value));
                proof {
                    assert(out@.drop_last() =~= before);
                    assert(members_view(out@) =~= cut_members(
                        members_view(entries.take(it.index() + 1)),
                        max_chars as nat,
                    ));
                }
            }
            proof {
                assert(entries.take(entries.len() as int) =~= entries);
                lemma_cut_object(members_view(entries), max_chars as nat);
            }
            Json::Object(out)
        },
        other => other,
    }
}

/// What a strategy makes of a value.
pub open spec fn logged_value(v: JsonV, strategy: Truncate, max: nat) -> JsonV {
    match strategy {
        Truncate::Off => v,
        Truncate::Chars => cut_json(v, max),
    }
}

/// What a strategy makes of a value.
pub fn truncate_value(v: Json, strategy: Truncate, max_chars: usize) -> (r: Json)
    ensures
        r@ == logged_value(v@, strategy, max_chars as nat),
{
    match strategy {
        Truncate::Off => v,
        Truncate::Chars => truncate_strings(v, max_chars),
    }
}

/// A text, if there is one, cut.
pub open spec fn cut_option(s: Option<Seq<char>>, max: nat) -> Option<Seq<char>> {
    match s {
        Some(t) => Some(cut_text(t, max)),
        None => None,
    }
}

/// What a strategy makes of a response: the finish reason stays as it is.
pub open spec fn logged_response(r: ResponseV, strategy: Truncate, max: nat) -> ResponseV {
    match strategy {
        Truncate::Off => r,
        Truncate::Chars => ResponseV {
            content: cut_option(r.content, max),
            reasoning: cut_option(r.reasoning, max),
            tool_calls: r.tool_calls.map_values(|v: JsonV| cut_json(v, max)),
            finish_reason: r.finish_reason,
            chunks: r.chunks,
            raw: match r.raw {
                Some(v) => Some(cut_json(v, max)),
                None => None,
            },
        },
    }
}

/// A text, if there is one, cut.
fn truncate_option(s: Option<String>, max_chars: usize) -> (r: Option<String>)
    ensures
        r.deep_view() == cut_option(s.deep_view(), max_chars as nat),
{
    match s {
        Some(t) => Some(truncate_text(t.as_str(), max_chars)),
        None => None,
    }
}

impl LoggedResponse {
    /// What a strategy makes of the response.
    pub fn truncated(self, strategy: Truncate, max_chars: usize) -> (r: Self)
        ensures
            r.deep_view() == logged_response(self.deep_view(), strategy, max_chars as nat),
    {
        match strategy {
            Truncate::Off => self,
            Truncate::Chars => {
                let ghost all = self.tool_calls@;
                let ghost calls = self.tool_calls.deep_view();
                let mut tool_calls: Vec<Json> = Vec::new();
                for x in it: self.tool_calls
                    invariant
                        it.seq() == all,
                        calls.len() == all.len(),
                        forall|k: int| 0 <= k < all.len() ==> calls[k] == all[k]@,
                        tool_calls@.len() == it.index(),
                        forall|k: int|
                            0 <= k < it.index() ==> tool_calls@[k]@ == cut_json(
                                calls[k],
                                max_chars as nat,
                            ),
                {
                    tool_calls.push(truncate_strings(x, max_chars));
                }
                proof {
                    assert(tool_calls.deep_view() =~= calls.map_values(
                        |v: JsonV| cut_json(v, max_chars as nat),
                    ));
                }
                LoggedResponse {
                    content: truncate_option(self.content, max_chars),
                    reasoning: truncate_option(self.reasoning, max_chars),
                    tool_calls,
                    finish_reason: self.finish_reason,
                    chunks: self.chunks,
                    raw: match self.raw {
                        Some(v) => Some(truncate_strings(v, max_chars)),
                        None => None,
                    },
                }
            },
        }
    }
}

/// A cut text starts with the first `max` characters of the text; a text that is
/// short enough is not cut.
pub proof fn law_cut_keeps_start(s: Seq<char>, max: nat)
    ensures
        s.len() <= max ==> cut_text(s, max) == s,
        s.len() > max ==> s.take(max as int).is_prefix_of(cut_text(s, max)),
{
    if s.len() > max {
        assert(cut_text(s, max).subrange(0, max as int) =~= s.take(max as int));
    }
}

/// What a log keeps of a payload is what its first choice says: the content of its
/// message, or the text of a legacy completion where there is none; its reasoning,
/// under whichever name; its tool calls and its finish reason. The payload itself is
/// kept whole.
pub proof fn law_extracted(
    body: Map<Seq<char>, JsonV>,
    choice: Map<Seq<char>, JsonV>,
    message: Map<Seq<char>, JsonV>,
    others: Seq<JsonV>,
    t: Seq<char>,
    calls: Seq<JsonV>,
)
    requires
        choice.contains_key("message"@),
        choice["message"@] == JsonV::Object(message),
        body.contains_key("choices"@),
        body["choices"@] == JsonV::Array(seq![JsonV::Object(choice)] + others),
    ensures
        ({
            let e = extracted(JsonV::Object(body));
            let says = |m: Map<Seq<char>, JsonV>, key: Seq<char>|
                m.contains_key(key) && m[key] == JsonV::Text(t);
            let silent = |m: Map<Seq<char>, JsonV>, key: Seq<char>|
                !m.contains_key(key) || !(m[key] is Text);
            &&& says(message, "content"@) ==> e.content == Some(t)
            &&& silent(message, "content"@) && says(choice, "text"@) ==> e.content == Some(t)
            &&& silent(message, "content"@) && silent(choice, "text"@) ==> e.content is None
            &&& says(message, "reasoning"@) ==> e.reasoning == Some(t)
            &&& silent(message, "reasoning"@) && says(message, "reasoning_content"@)
                ==> e.reasoning == Some(t)
            &&& silent(message, "reasoning"@) && silent(message, "reasoning_content"@)
                ==> e.reasoning is None
            &&& message.contains_key("tool_calls"@) && message["tool_calls"@] == JsonV::Array(
                calls,
            ) ==> e.tool_calls == calls
            &&& !message.contains_key("tool_calls"@) ==> e.tool_calls.len() == 0
            &&& says(choice, "finish_reason"@) ==> e.finish_reason == Some(t)
            &&& silent(choice, "finish_reason"@) ==> e.finish_reason is None
            &&& e.raw == Some(JsonV::Object(body)) && e.chunks is None
        }),
{
    let all = seq![JsonV::Object(choice)] + others;
    assert(all[0] == JsonV::Object(choice));
}

/// A payload without choices is kept, and gives nothing else.
pub proof fn law_extracted_nothing(body: JsonV)
    requires
        member(body, "choices"@) is None,
    ensures
        ({
            let e = extracted(body);
            e.content is None && e.reasoning is None && e.tool_calls.len() == 0
                && e.finish_reason is None && e.raw == Some(body)
        }),
{
}

/// A cut text tells how long the text was.
pub proof fn law_cut_tells_length(s: Seq<char>, max: nat)
    requires
        s.len() > max,
    ensures
        (", "@ + decimal(s.len()) + " chars total]"@).is_suffix_of(cut_text(s, max)),
{
    reveal_strlit("…[truncated, ");
    reveal_strlit(", ");
    let note = ", "@ + decimal(s.len()) + " chars total]"@;
    let cut = cut_text(s, max);
    let n = cut.len() - note.len();
    assert(cut.subrange(n, cut.len() as int) =~= note);
}

/// Cutting changes strings only, each on its own: an array keeps its items and an
/// object its keys, and what is neither text, array nor object stays as it is.
pub proof fn law_cut_keeps_shape(v: JsonV, max: nat)
    ensures
        match v {
            JsonV::Text(s) => s.len() <= max ==> cut_json(v, max) == v,
            JsonV::Array(a) => cut_json(v, max) matches JsonV::Array(b) && b.len() == a.len()
                && forall|i: int| 0 <= i < a.len() ==> #[trigger] b[i] == cut_json(a[i], max),
            JsonV::Object(o) => cut_json(v, max) matches JsonV::Object(p) && forall|k: Seq<char>|
                #![trigger p.contains_key(k)]
                (p.contains_key(k) <==> o.contains_key(k)) && (o.contains_key(k) ==> p[k]
                    == cut_json(o[k], max)),
            _ => cut_json(v, max) == v,
        },
        v matches JsonV::Text(s) ==> cut_json(v, max) matches JsonV::Text(t) && (s.len() > max
            ==> s.take(max as int).is_prefix_of(t)),
{
    if let JsonV::Text(s) = v {
        law_cut_keeps_start(s, max);
    }
}

/// Without a strategy nothing is cut; with it everything is that the response says at
/// length, and nothing is lost.
pub proof fn law_logged_response(r: ResponseV, max: nat)
    ensures
        logged_response(r, Truncate::Off, max) == r,
        ({
            let cut = logged_response(r, Truncate::Chars, max);
            &&& cut.finish_reason == r.finish_reason && cut.chunks == r.chunks
            &&& match (r.content, cut.content) {
                (Some(s), Some(t)) => t == cut_text(s, max),
                (None, None) => true,
                _ => false,
            }
            &&& match (r.reasoning, cut.reasoning) {
                (Some(s), Some(t)) => t == cut_text(s, max),
                (None, None) => true,
                _ => false,
            }
            &&& match (r.raw, cut.raw) {
                (Some(s), Some(t)) => t == cut_json(s, max),
                (None, None) => true,
                _ => false,
            }
            &&& cut.tool_calls.len() == r.tool_calls.len()
            &&& forall|i: int|
                0 <= i < r.tool_calls.len() ==> #[trigger] cut.tool_calls[i] == cut_json(
                    r.tool_calls[i],
                    max,
                )
        }),
{
}

/// A value is cut exactly if the strategy says so.
pub proof fn law_logged_value(v: JsonV, max: nat)
    ensures
        logged_value(v, Truncate::Off, max) == v,
        logged_value(v, Truncate::Chars, max) == cut_json(v, max),
{
}

/// What is kept of a long text is its first characters and its length, and nothing else
/// of it.
pub proof fn law_cut_keeps_no_more(s: Seq<char>, t: Seq<char>, max: nat)
    requires
        max < s.len() == t.len(),
        s.take(max as int) == t.take(max as int),
    ensures
        cut_text(s, max) == cut_text(t, max),
{
}

} // verus!
