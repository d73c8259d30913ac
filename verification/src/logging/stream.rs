//! Responses rebuilt from the events of a stream.
//!
//! A stream is a sequence of lines; those that start with `data:` carry a JSON
//! object with a piece of the response. How the bytes were cut into chunks on
//! their way does not matter.
use crate::deep::{deep_chars, Dup};
use crate::json::{
    item_views, items_of, json_parsed, member, members_view, parse, put_member, text_of, unsigned_of,
    Json, JsonV,
};
use crate::logging::{either_text, member_of, LoggedResponse, ResponseV};
use crate::multipart::find;
use crate::multipart::position;
use crate::text::{
    chars_of, is_space, law_strip_frame, lemma_find_least, lemma_first_place, lossy_text,
    occurs_at, starts_with, str_eq, string_of, strip, text_lossy, trim, Class,
};
use vstd::prelude::*;
use vstd::string::*;
use vstd::utf8::{encode_utf8, encode_utf8_decode_utf8, encode_utf8_valid_utf8};

verus! {

broadcast use deep_chars;

/// Response rebuilt so far while the events of a stream flow through.
#[derive(Debug)]
pub struct StreamAcc {
    /// The start of a line whose end has not come yet.
    buf: Vec<u8>,
    content: String,
    reasoning: String,
    /// Tool calls by index, in increasing order.
    tool_calls: Vec<(u32, Json)>,
    finish_reason: Option<String>,
    chunks: u64,
    error: Option<String>,
}

/// What has been rebuilt of a response.
pub struct GotV {
    pub content: Seq<char>,
    pub reasoning: Seq<char>,
    pub tool_calls: Seq<(u32, JsonV)>,
    pub finish_reason: Option<Seq<char>>,
    pub chunks: u64,
}

/// What a [`StreamAcc`] stands for.
pub struct AccV {
    pub buf: Seq<u8>,
    pub got: GotV,
    pub error: Option<Seq<char>>,
}

impl View for StreamAcc {
    type V = AccV;

    closed spec fn view(&self) -> AccV {
        AccV {
            buf: self.buf@,
            got: GotV {
                content: self.content@,
                reasoning: self.reasoning@,
                tool_calls: self.tool_calls.deep_view(),
                finish_reason: self.finish_reason.deep_view(),
                chunks: self.chunks,
            },
            error: self.error.deep_view(),
        }
    }
}

/// Nothing rebuilt yet.
pub open spec fn nothing() -> GotV {
    GotV {
        content: Seq::empty(),
        reasoning: Seq::empty(),
        tool_calls: Seq::empty(),
        finish_reason: None,
        chunks: 0,
    }
}

/// What a stream gave in the end.
#[derive(Debug, Default)]
pub struct StreamSummary {
    pub content: String,
    pub reasoning: String,
    pub tool_calls: Vec<Json>,
    pub finish_reason: Option<String>,
    pub chunks: u64,
    /// What broke the stream, if anything did.
    pub error: Option<String>,
}

/// What a [`StreamSummary`] stands for.
pub struct SummaryV {
    pub content: Seq<char>,
    pub reasoning: Seq<char>,
    pub tool_calls: Seq<JsonV>,
    pub finish_reason: Option<Seq<char>>,
    pub chunks: u64,
    pub error: Option<Seq<char>>,
}

impl DeepView for StreamSummary {
    type V = SummaryV;

    open spec fn deep_view(&self) -> SummaryV {
        SummaryV {
            content: self.content@,
            reasoning: self.reasoning@,
            tool_calls: self.tool_calls.deep_view(),
            finish_reason: self.finish_reason.deep_view(),
            chunks: self.chunks,
            error: self.error.deep_view(),
        }
    }
}

/// The summary of what has been rebuilt: the tool calls in the order of their index.
pub open spec fn summary_of(a: AccV) -> SummaryV {
    SummaryV {
        content: a.got.content,
        reasoning: a.got.reasoning,
        tool_calls: a.got.tool_calls.map_values(|c: (u32, JsonV)| c.1),
        finish_reason: a.got.finish_reason,
        chunks: a.got.chunks,
        error: a.error,
    }
}

/// A text, unless it is empty.
pub open spec fn nonempty(s: Seq<char>) -> Option<Seq<char>> {
    if s.len() == 0 {
        None
    } else {
        Some(s)
    }
}

/// A text, unless it is empty.
pub fn some_if_nonempty(s: String) -> (r: Option<String>)
    ensures
        r.deep_view() == nonempty(s@),
{
    if s.as_str().is_empty() {
        None
    } else {
        Some(s)
    }
}

/// An object with a member set unless there is one under its key.
pub open spec fn with_default(
    o: Map<Seq<char>, JsonV>,
    key: Seq<char>,
    value: Option<JsonV>,
) -> Map<Seq<char>, JsonV> {
    match value {
        Some(v) if !o.contains_key(key) => o.insert(key, v),
        _ => o,
    }
}

/// The text under a key; none where there is no text.
pub open spec fn text_or_empty(v: Option<JsonV>) -> Seq<char> {
    match text_of(v) {
        Some(s) => s,
        None => Seq::empty(),
    }
}

/// A function of a tool call with a piece added: its name if it has none yet, and
/// its arguments, which stream in pieces, put together.
pub open spec fn merged_function(f: Map<Seq<char>, JsonV>, d: JsonV) -> Map<Seq<char>, JsonV> {
    let named = with_default(f, "name"@, member(d, "name"@));
    let so_far = text_or_empty(member(JsonV::Object(named), "arguments"@));
    let more = text_or_empty(member(d, "arguments"@));
    named.insert("arguments"@, JsonV::Text(so_far + more))
}

/// A tool call with a piece added.
pub open spec fn merged_call(slot: JsonV, d: JsonV) -> JsonV {
    match slot {
        JsonV::Object(o) => {
            let o = with_default(o, "id"@, member(d, "id"@));
            let o = with_default(o, "type"@, member(d, "type"@));
            match member(d, "function"@) {
                Some(df) => match member(JsonV::Object(o), "function"@) {
                    Some(JsonV::Object(f)) => JsonV::Object(
                        o.insert("function"@, JsonV::Object(merged_function(f, df))),
                    ),
                    Some(_) => JsonV::Object(o),
                    None => JsonV::Object(
                        o.insert("function"@, JsonV::Object(merged_function(Map::empty(), df))),
                    ),
                },
                None => JsonV::Object(o),
            }
        },
        _ => slot,
    }
}

/// The number of tool calls with an index below `idx`, which come first.
pub open spec fn slot_of(calls: Seq<(u32, JsonV)>, idx: u32) -> nat
    decreases calls.len(),
{
    if calls.len() == 0 || calls.first().0 >= idx {
        0
    } else {
        1 + slot_of(calls.drop_first(), idx)
    }
}

/// The index of a piece of a tool call, in 32 bits; zero where there is none.
pub open spec fn call_index(d: JsonV) -> u32 {
    match unsigned_of(member(d, "index"@)) {
        Some(n) => (n % 0x1_0000_0000) as u32,
        None => 0,
    }
}

/// Tool calls with a piece added to the one of its index.
pub open spec fn with_piece(calls: Seq<(u32, JsonV)>, d: JsonV) -> Seq<(u32, JsonV)> {
    let idx = call_index(d);
    let i = slot_of(calls, idx) as int;
    if i < calls.len() && calls[i].0 == idx {
        calls.update(i, (idx, merged_call(calls[i].1, d)))
    } else {
        calls.insert(i, (idx, merged_call(JsonV::Object(Map::empty()), d)))
    }
}

/// Tool calls with pieces added.
pub open spec fn with_pieces(calls: Seq<(u32, JsonV)>, ds: Seq<JsonV>) -> Seq<(u32, JsonV)>
    decreases ds.len(),
{
    if ds.len() == 0 {
        calls
    } else {
        with_piece(with_pieces(calls, ds.drop_last()), ds.last())
    }
}

/// What has been rebuilt after one choice of an event.
pub open spec fn with_choice(g: GotV, choice: JsonV) -> GotV {
    let delta = member(choice, "delta"@);
    GotV {
        content: g.content + text_or_empty(member_of(delta, "content"@)),
        reasoning: g.reasoning + (match either_text(
            text_of(member_of(delta, "reasoning"@)),
            text_of(member_of(delta, "reasoning_content"@)),
        ) {
            Some(s) => s,
            None => Seq::empty(),
        }),
        tool_calls: match items_of(member_of(delta, "tool_calls"@)) {
            Some(ds) => with_pieces(g.tool_calls, ds),
            None => g.tool_calls,
        },
        finish_reason: match text_of(member(choice, "finish_reason"@)) {
            Some(s) => Some(s),
            None => g.finish_reason,
        },
        chunks: g.chunks,
    }
}

/// What has been rebuilt after the choices of an event.
pub open spec fn with_choices(g: GotV, choices: Seq<JsonV>) -> GotV
    decreases choices.len(),
{
    if choices.len() == 0 {
        g
    } else {
        with_choice(with_choices(g, choices.drop_last()), choices.last())
    }
}

/// The number after `n`, or zero after the largest.
pub open spec fn next_count(n: u64) -> u64 {
    if n == u64::MAX {
        0
    } else {
        (n + 1) as u64
    }
}

/// What has been rebuilt after an event.
pub open spec fn with_event(g: GotV, v: JsonV) -> GotV {
    let counted = GotV { chunks: next_count(g.chunks), ..g };
    match items_of(member(v, "choices"@)) {
        Some(choices) => with_choices(counted, choices),
        None => counted,
    }
}

/// The payload of a line that carries one.
pub open spec fn payload(line: Seq<u8>) -> Option<Seq<char>> {
    let text = strip(lossy_text(line), Class::Space);
    if "data:"@.is_prefix_of(text) {
        let p = strip(text.skip(5), Class::Space);
        if p.len() == 0 || p == "[DONE]"@ {
            None
        } else {
            Some(p)
        }
    } else {
        None
    }
}

/// What has been rebuilt after a line.
pub open spec fn with_line(g: GotV, line: Seq<u8>) -> GotV {
    match payload(line) {
        Some(p) => match json_parsed(encode_utf8(p)) {
            Some(v) => with_event(g, v),
            None => g,
        },
        None => g,
    }
}

/// What has been rebuilt, and the rest, after every complete line of `buf`.
pub open spec fn drained(buf: Seq<u8>, g: GotV) -> (Seq<u8>, GotV)
    decreases buf.len(),
{
    match position(buf, seq![10], 0) {
        Some(i) if 0 <= i < buf.len() => drained(
            buf.skip(i + 1),
            with_line(g, buf.take(i + 1)),
        ),
        _ => (buf, g),
    }
}

/// The state after a stream broke.
pub open spec fn broken(a: AccV, error: Seq<char>) -> AccV {
    AccV { error: Some(error), ..a }
}

/// The state after more bytes of a stream.
pub open spec fn fed(a: AccV, bytes: Seq<u8>) -> AccV {
    let (buf, got) = drained(a.buf + bytes, a.got);
    AccV { buf, got, error: a.error }
}

/// Sets a member unless there is one under its key.
fn put_default(o: &mut Vec<(String, Json)>, key: &str, value: Option<&Json>)
    ensures
        members_view(final(o)@) == with_default(
            members_view(old(o)@),
            key@,
            match value {
                Some(v) => Some(v@),
                None => None,
            },
        ),
{
    if let Some(v) = value {
        if !crate::json::has_member(o, key) {
            put_member(o, key.to_owned(), v.copy());
        }
    }
}

/// The text of a value; none where it is no text.
fn text_or_none<'a>(v: Option<&'a Json>) -> (r: &'a str)
    ensures
        r@ == text_or_empty(
            match v {
                Some(x) => Some(x@),
                None => None,
            },
        ),
{
    match v {
        Some(Json::Text(s)) => s.as_str(),
        _ => {
            proof {
                reveal_strlit("");
                assert(""@ =~= Seq::<char>::empty());
            }
            ""
        },
    }
}

/// A function of a tool call with a piece added.
fn merge_function(f: Vec<(String, Json)>, d: &Json) -> (r: Vec<(String, Json)>)
    ensures
        members_view(r@) == merged_function(members_view(f@), d@),
{
    let mut f = f;
    put_default(&mut f, "name", d.get("name"));
    let object = Json::Object(f);
    let mut args = text_or_none(object.get("arguments")).to_owned();
    args.append(text_or_none(d.get("arguments")));
    let mut f = match object {
        Json::Object(f) => f,
        _ => Vec::new(),
    };
    put_member(&mut f, "arguments".to_owned(), Json::Text(args));
    f
}

/// A tool call with a piece added.
pub fn merge_tool_call(slot: Json, d: &Json) -> (r: Json)
    ensures
        r@ == merged_call(slot@, d@),
{
    let mut o = match slot {
        Json::Object(o) => o,
        other => {
            return other;
        },
    };
    put_default(&mut o, "id", d.get("id"));
    put_default(&mut o, "type", d.get("type"));
    let df = match d.get("function") {
        Some(df) => df,
        None => {
            return Json::Object(o);
        },
    };
    let object = Json::Object(o);
    let function = match object.get("function") {
        Some(f) => match f {
            Json::Object(_) => f.copy(),
            _ => {
                return object;
            },
        },
        None => Json::empty_object(),
    };
    let f = match function {
        Json::Object(f) => f,
        _ => Vec::new(),
    };
    let mut o = match object {
        Json::Object(o) => o,
        _ => Vec::new(),
    };
    let merged = merge_function(f, df);
    put_member(&mut o, "function".to_owned(), Json::Object(merged));
    Json::Object(o)
}

/// The place of a tool call among those with a smaller index.
fn find_slot(calls: &Vec<(u32, Json)>, idx: u32) -> (r: usize)
    ensures
        r == slot_of(calls.deep_view(), idx),
        r <= calls@.len(),
{
    let ghost s = calls.deep_view();
    let mut i: usize = 0;
    proof {
        assert(s.skip(0) =~= s);
    }
    while i < calls.len() && calls[i].0 < idx
        invariant
            i <= calls@.len(),
            s == calls.deep_view(),
            slot_of(s, idx) == i + slot_of(s.skip(i as int), idx),
        decreases calls@.len() - i,
    {
        proof {
            assert(s.skip(i as int).first().0 == calls@[i as int].0);
            assert(s.skip(i as int).drop_first() =~= s.skip(i + 1));
        }
        i = i + 1;
    }
    proof {
        if i < calls@.len() {
            assert(s.skip(i as int).first().0 == calls@[i as int].0);
        }
    }
    i
}

/// Adds pieces to the tool calls of their index.
pub fn merge_tool_calls(calls: &mut Vec<(u32, Json)>, deltas: Option<&Json>)
    ensures
        final(calls).deep_view() == (match deltas {
            Some(v) => match items_of(Some(v@)) {
                Some(ds) => with_pieces(old(calls).deep_view(), ds),
                None => old(calls).deep_view(),
            },
            None => old(calls).deep_view(),
        }),
{
    let items = match deltas {
        Some(Json::Array(a)) => a,
        _ => {
            return;
        },
    };
    proof {
        item_views(*items);
    }
    let ghost start = calls.deep_view();
    let ghost ds = items.deep_view();
    let mut i: usize = 0;
    proof {
        assert(ds.take(0) =~= Seq::empty());
    }
    while i < items.len()
        invariant
            i <= items@.len(),
            ds == items.deep_view(),
            calls.deep_view() == with_pieces(start, ds.take(i as int)),
        decreases items@.len() - i,
    {
        let d = &items[i];
        let ghost before = calls.deep_view();
        proof {
            assert(ds.take(i + 1).drop_last() =~= ds.take(i as int));
            assert(ds.take(i + 1).last() == d@);
        }
        let index = match d.get("index") {
            Some(v) => v.as_u64(),
            None => None,
        };
        let idx: u32 = match index {
            Some(n) => (n % 0x1_0000_0000) as u32,
            None => 0,
        };
        let at: usize = find_slot(calls, idx);
        if at < calls.len() && calls[at].0 == idx {
            let (_, held) = calls.remove(at);
            let merged = merge_tool_call(held, d);
            calls.insert(at, (idx, merged));
            proof {
                assert(calls.deep_view() =~= with_piece(before, d@));
            }
        } else {
            let merged = merge_tool_call(Json::empty_object(), d);
            calls.insert(at, (idx, merged));
            proof {
                assert(calls.deep_view() =~= with_piece(before, d@));
            }
        }
        i = i + 1;
    }
    proof {
        assert(ds.take(i as int) =~= ds);
    }
}

impl Default for StreamAcc {
    fn default() -> (r: Self)
        ensures
            r@ == (AccV { buf: Seq::empty(), got: nothing(), error: None }),
    {
        let r = StreamAcc {
            buf: Vec::new(),
            content: String::new(),
            reasoning: String::new(),
            tool_calls: Vec::new(),
            finish_reason: None,
            chunks: 0,
            error: None,
        };
        proof {
            assert(r@.got.tool_calls =~= Seq::empty());
            assert(r@.buf =~= Seq::empty());
        }
        r
    }
}

impl StreamAcc {
    /// Adds one choice of an event.
    fn add_choice(&mut self, choice: &Json)
        ensures
            final(self)@ == (AccV { got: with_choice(old(self)@.got, choice@), ..old(self)@ }),
    {
        let ghost g = self@.got;
        if let Some(delta) = choice.get("delta") {
            self.content.append(text_or_none(delta.get("content")));
            match delta.get("reasoning") {
                Some(Json::Text(s)) => {
                    self.reasoning.append(s.as_str());
                },
                _ => {
                    self.reasoning.append(text_or_none(delta.get("reasoning_content")));
                },
            }
            merge_tool_calls(&mut self.tool_calls, delta.get("tool_calls"));
        } else {
            proof {
                assert(g.content + Seq::<char>::empty() =~= g.content);
                assert(g.reasoning + Seq::<char>::empty() =~= g.reasoning);
            }
        }
        if let Some(Json::Text(s)) = choice.get("finish_reason") {
            self.finish_reason = Some(s.clone());
        }
    }

    /// Adds an event: the value that a line carried.
    pub fn add_event(&mut self, v: &Json)
        ensures
            final(self)@ == (AccV { got: with_event(old(self)@.got, v@), ..old(self)@ }),
    {
        self.chunks = self.chunks.wrapping_add(1);
        let choices = match v.get("choices") {
            Some(Json::Array(a)) => a,
            _ => {
                return;
            },
        };
        proof {
            item_views(*choices);
        }
        let ghost start = self@;
        let ghost cs = choices.deep_view();
        let mut i: usize = 0;
        proof {
            assert(cs.take(0) =~= Seq::empty());
        }
        while i < choices.len()
            invariant
                i <= choices@.len(),
                cs == choices.deep_view(),
                self@ == (AccV { got: with_choices(start.got, cs.take(i as int)), ..start }),
            decreases choices@.len() - i,
        {
            proof {
                assert(cs.take(i + 1).drop_last() =~= cs.take(i as int));
                assert(cs.take(i + 1).last() == choices@[i as int]@);
            }
            self.add_choice(&choices[i]);
            i = i + 1;
        }
        proof {
            assert(cs.take(i as int) =~= cs);
        }
    }

    /// Adds a line.
    fn add_line(&mut self, line: &[u8])
        ensures
            final(self)@ == (AccV { got: with_line(old(self)@.got, line@), ..old(self)@ }),
    {
        let text = text_lossy(line);
        let chars = chars_of(text.as_str());
        let body = trim(chars.as_slice(), Class::Space);
        let mark = chars_of("data:");
        proof {
            reveal_strlit("data:");
        }
        if !starts_with(body, mark.as_slice()) {
            return;
        }
        let rest = vstd::slice::slice_subrange(body, 5, body.len());
        let p = string_of(trim(rest, Class::Space));
        if p.as_str().is_empty() || str_eq(p.as_str(), "[DONE]") {
            return;
        }
        if let Some(v) = parse(p.as_str().as_bytes()) {
            self.add_event(&v);
        }
    }

    /// Notes what broke the stream.
    pub fn fail(&mut self, error: String)
        ensures
            final(self)@ == (AccV { error: Some(error@), ..old(self)@ }),
            final(self)@ == broken(old(self)@, error@),
    {
        self.error = Some(error);
    }

    /// The summary of what has been rebuilt.
    pub fn summary(&self) -> (r: StreamSummary)
        ensures
            r.deep_view() == summary_of(self@),
    {
        let ghost s = self.tool_calls.deep_view();
        let mut calls: Vec<Json> = Vec::new();
        let mut i: usize = 0;
        while i < self.tool_calls.len()
            invariant
                i <= self.tool_calls@.len(),
                s == self.tool_calls.deep_view(),
                calls@.len() == i,
                forall|k: int| 0 <= k < i ==> calls@[k]@ == s[k].1,
            decreases self.tool_calls@.len() - i,
        {
            calls.push(self.tool_calls[i].1.copy());
            i = i + 1;
        }
        proof {
            assert(calls.deep_view() =~= s.map_values(|c: (u32, JsonV)| c.1));
        }
        StreamSummary {
            content: self.content.clone(),
            reasoning: self.reasoning.clone(),
            tool_calls: calls,
            finish_reason: self.finish_reason.dup(),
            chunks: self.chunks,
            error: self.error.dup(),
        }
    }
}

impl StreamSummary {
    /// What a log keeps of a streamed response.
    pub fn into_response(self) -> (r: LoggedResponse)
        ensures
            r.deep_view() == (ResponseV {
                content: nonempty(self.deep_view().content),
                reasoning: nonempty(self.deep_view().reasoning),
                tool_calls: self.deep_view().tool_calls,
                finish_reason: self.deep_view().finish_reason,
                chunks: Some(self.chunks),
                raw: None,
            }),
    {
        LoggedResponse {
            content: some_if_nonempty(self.content),
            reasoning: some_if_nonempty(self.reasoning),
            tool_calls: self.tool_calls,
            finish_reason: self.finish_reason,
            chunks: Some(self.chunks),
            raw: None,
        }
    }
}

/// Feeds bytes of a stream; complete `data:` lines update what has been rebuilt.
pub fn feed_sse(acc: &mut StreamAcc, bytes: &[u8])
    ensures
        final(acc)@ == fed(old(acc)@, bytes@),
{
    let ghost start = acc@;
    let ghost whole = start.buf + bytes@;
    acc.buf.extend_from_slice(bytes);
    let buf = acc.buf.clone();
    let newline: [u8; 1] = [10];
    let n: usize = buf.len();
    let mut from: usize = 0;
    proof {
        assert(newline@ =~= seq![10u8]);
        assert(buf@ =~= whole);
        assert(whole.skip(0) =~= whole);
    }
    loop
        invariant
            newline@ == seq![10u8],
            buf@ == whole,
            n == whole.len(),
            from <= n,
            acc@ == (AccV { buf: whole, got: acc@.got, error: start.error }),
            drained(whole.skip(from as int), acc@.got) == drained(whole, start.got),
        ensures
            from <= n,
            acc@ == (AccV { buf: whole, got: acc@.got, error: start.error }),
            drained(whole, start.got) == (whole.skip(from as int), acc@.got),
        decreases n - from,
    {
        let rest = vstd::slice::slice_subrange(buf.as_slice(), from, n);
        proof {
            assert(rest@ =~= whole.skip(from as int));
        }
        match find(rest, newline.as_slice(), 0) {
            Some(i) => {
                let line = vstd::slice::slice_subrange(rest, 0, i + 1);
                proof {
                    assert(line@ =~= rest@.take(i + 1));
                    assert(rest@.skip(i + 1) =~= whole.skip(from + i + 1));
                }
                acc.add_line(line);
                from = from + i + 1;
            },
            None => {
                break;
            },
        }
    }
    let tail = vstd::slice::slice_to_vec(vstd::slice::slice_subrange(buf.as_slice(), from, n));
    acc.buf = tail;
    proof {
        assert(acc@.buf =~= whole.skip(from as int));
    }
}

/// The first line end of a buffer stays the first when more bytes come.
proof fn lemma_first_line_end(b: Seq<u8>, y: Seq<u8>)
    ensures
        position(b, seq![10], 0) matches Some(i) ==> position(b + y, seq![10], 0) == Some(i) && 0
            <= i < b.len(),
{
    let nl = seq![10u8];
    let c = b + y;
    lemma_find_least(b, nl, 0);
    lemma_find_least(c, nl, 0);
    if let Some(i) = position(b, nl, 0) {
        assert(b.subrange(i, i + 1) == nl);
        assert(b.subrange(i, i + 1)[0] == b[i]);
        assert(c.subrange(i, i + 1) =~= nl);
        assert(occurs_at(c, nl, i));
        let j = position(c, nl, 0)->0;
        assert(position(c, nl, 0) is Some);
        if j < i {
            assert(occurs_at(c, nl, j));
            assert(c.subrange(j, j + 1)[0] == c[j]);
            assert(b.subrange(j, j + 1) =~= nl);
            assert(occurs_at(b, nl, j));
        }
    }
}

/// Draining a buffer and then what is left with more bytes is draining it all.
proof fn lemma_drained_concat(b: Seq<u8>, y: Seq<u8>, g: GotV)
    ensures
        drained(b + y, g) == drained(drained(b, g).0 + y, drained(b, g).1),
    decreases b.len(),
{
    lemma_first_line_end(b, y);
    if let Some(i) = position(b, seq![10], 0) {
        let g2 = with_line(g, b.take(i + 1));
        lemma_drained_concat(b.skip(i + 1), y, g2);
        assert((b + y).skip(i + 1) =~= b.skip(i + 1) + y);
        assert((b + y).take(i + 1) =~= b.take(i + 1));
    }
}

/// How a stream is cut into chunks does not matter: feeding one piece and then
/// another is feeding both at once.
pub proof fn law_chunks_do_not_matter(a: AccV, x: Seq<u8>, y: Seq<u8>)
    ensures
        fed(fed(a, x), y) == fed(a, x + y),
{
    lemma_drained_concat(a.buf + x, y, a.got);
    assert(a.buf + (x + y) =~= (a.buf + x) + y);
}

/// Whether tool calls are in the order of their index, each index once.
pub open spec fn in_index_order(calls: Seq<(u32, JsonV)>) -> bool {
    forall|i: int, j: int| 0 <= i < j < calls.len() ==> (#[trigger] calls[i]).0 < (
    #[trigger] calls[j]).0
}

/// The calls before the slot of an index have a smaller one, the others do not.
proof fn lemma_slot(calls: Seq<(u32, JsonV)>, idx: u32)
    requires
        in_index_order(calls),
    ensures
        slot_of(calls, idx) <= calls.len(),
        forall|i: int| 0 <= i < slot_of(calls, idx) ==> (#[trigger] calls[i]).0 < idx,
        forall|i: int| slot_of(calls, idx) <= i < calls.len() ==> (#[trigger] calls[i]).0 >= idx,
    decreases calls.len(),
{
    if calls.len() > 0 && calls.first().0 < idx {
        let rest = calls.drop_first();
        assert forall|i: int, j: int| 0 <= i < j < rest.len() implies (#[trigger] rest[i]).0 < (
        #[trigger] rest[j]).0 by {
            assert(calls[i + 1].0 < calls[j + 1].0);
        }
        lemma_slot(rest, idx);
        assert forall|i: int| 0 <= i < slot_of(calls, idx) implies (#[trigger] calls[i]).0
            < idx by {
            if i > 0 {
                assert(rest[i - 1] == calls[i]);
            }
        }
        assert forall|i: int| slot_of(calls, idx) <= i < calls.len() implies (
        #[trigger] calls[i]).0 >= idx by {
            assert(rest[i - 1] == calls[i]);
        }
    }
}

/// A piece keeps the order of the tool calls.
proof fn lemma_piece_in_order(calls: Seq<(u32, JsonV)>, d: JsonV)
    requires
        in_index_order(calls),
    ensures
        in_index_order(with_piece(calls, d)),
{
    lemma_slot(calls, call_index(d));
}

/// Pieces keep the order of the tool calls.
proof fn lemma_pieces_in_order(calls: Seq<(u32, JsonV)>, ds: Seq<JsonV>)
    requires
        in_index_order(calls),
    ensures
        in_index_order(with_pieces(calls, ds)),
    decreases ds.len(),
{
    if ds.len() > 0 {
        lemma_pieces_in_order(calls, ds.drop_last());
        lemma_piece_in_order(with_pieces(calls, ds.drop_last()), ds.last());
    }
}

/// Choices keep the order of the tool calls.
proof fn lemma_choices_in_order(g: GotV, choices: Seq<JsonV>)
    requires
        in_index_order(g.tool_calls),
    ensures
        in_index_order(with_choices(g, choices).tool_calls),
    decreases choices.len(),
{
    if choices.len() > 0 {
        lemma_choices_in_order(g, choices.drop_last());
        let before = with_choices(g, choices.drop_last());
        let delta = member(choices.last(), "delta"@);
        if let Some(ds) = items_of(member_of(delta, "tool_calls"@)) {
            lemma_pieces_in_order(before.tool_calls, ds);
        }
    }
}

/// Draining keeps the order of the tool calls.
proof fn lemma_drained_in_order(buf: Seq<u8>, g: GotV)
    requires
        in_index_order(g.tool_calls),
    ensures
        in_index_order(drained(buf, g).1.tool_calls),
    decreases buf.len(),
{
    if let Some(i) = position(buf, seq![10], 0) {
        if 0 <= i < buf.len() {
            let line = buf.take(i + 1);
            if let Some(p) = payload(line) {
                if let Some(v) = json_parsed(encode_utf8(p)) {
                    if let Some(choices) = items_of(member(v, "choices"@)) {
                        lemma_choices_in_order(
                            GotV { chunks: next_count(g.chunks), ..g },
                            choices,
                        );
                    }
                }
            }
            lemma_drained_in_order(buf.skip(i + 1), with_line(g, line));
        }
    }
}

/// However a stream goes on, its tool calls stay in the order of their index,
/// one for each index.
pub proof fn law_tool_calls_in_order(a: AccV, bytes: Seq<u8>)
    requires
        in_index_order(a.got.tool_calls),
    ensures
        in_index_order(fed(a, bytes).got.tool_calls),
{
    lemma_drained_in_order(a.buf + bytes, a.got);
}

/// A tool call rebuilt from pieces.
pub open spec fn rebuilt(ds: Seq<JsonV>) -> JsonV
    decreases ds.len(),
{
    if ds.len() == 0 {
        JsonV::Object(Map::empty())
    } else {
        merged_call(rebuilt(ds.drop_last()), ds.last())
    }
}

/// What a piece says of the function under a key.
pub open spec fn said(d: JsonV, key: Seq<char>) -> Option<JsonV> {
    member_of(member(d, "function"@), key)
}

/// The arguments that pieces carry, one after the other.
pub open spec fn all_arguments(ds: Seq<JsonV>) -> Seq<char>
    decreases ds.len(),
{
    if ds.len() == 0 {
        Seq::empty()
    } else {
        all_arguments(ds.drop_last()) + match said(ds.last(), "arguments"@) {
            Some(JsonV::Text(t)) => t,
            _ => Seq::empty(),
        }
    }
}

/// The keys of a tool call differ.
proof fn lemma_call_keys()
    ensures
        "id"@ != "type"@ && "id"@ != "function"@ && "type"@ != "function"@,
        "name"@ != "arguments"@,
{
    reveal_strlit("id");
    reveal_strlit("type");
    reveal_strlit("function");
    reveal_strlit("name");
    reveal_strlit("arguments");
    assert("id"@.len() == 2 && "type"@.len() == 4 && "function"@.len() == 8);
    assert("name"@.len() == 4 && "arguments"@.len() == 9);
}

/// A rebuilt call is an object, and has a function, itself an object, exactly if a
/// piece spoke of one.
proof fn lemma_rebuilt_shape(ds: Seq<JsonV>)
    ensures
        rebuilt(ds) is Object,
        member(rebuilt(ds), "function"@) matches Some(f) ==> f is Object,
        member(rebuilt(ds), "function"@) is None ==> forall|i: int|
            0 <= i < ds.len() ==> member(#[trigger] ds[i], "function"@) is None,
    decreases ds.len(),
{
    lemma_call_keys();
    if ds.len() > 0 {
        let rest = ds.drop_last();
        lemma_rebuilt_shape(rest);
        if member(rebuilt(ds), "function"@) is None {
            assert forall|i: int| 0 <= i < ds.len() implies member(
                #[trigger] ds[i],
                "function"@,
            ) is None by {
                if i < rest.len() {
                    assert(rest[i] == ds[i]);
                }
            }
        }
    }
}

/// A tool call rebuilt from pieces calls the function that the first piece with a
/// name names.
pub proof fn law_call_keeps_name(ds: Seq<JsonV>, i: int)
    requires
        0 <= i <= ds.len(),
        forall|j: int| 0 <= j < i ==> said(#[trigger] ds[j], "name"@) is None,
        i < ds.len() ==> said(ds[i], "name"@) is Some,
    ensures
        said(rebuilt(ds), "name"@) == if i < ds.len() {
            said(ds[i], "name"@)
        } else {
            None
        },
    decreases ds.len(),
{
    lemma_call_keys();
    if ds.len() > 0 {
        let rest = ds.drop_last();
        lemma_rebuilt_shape(rest);
        if i < rest.len() {
            assert(rest[i] == ds[i]);
        } else if i == ds.len() {
            assert(said(ds[i - 1], "name"@) is None);
        }
        assert forall|j: int| 0 <= j < i && j < rest.len() implies said(
            #[trigger] rest[j],
            "name"@,
        ) is None by {
            assert(rest[j] == ds[j]);
        }
        law_call_keeps_name(
            rest,
            if i < rest.len() {
                i
            } else {
                rest.len() as int
            },
        );
    }
}

/// The arguments of a tool call rebuilt from pieces are those of the pieces, one after
/// the other.
pub proof fn law_call_keeps_arguments(ds: Seq<JsonV>)
    ensures
        match said(rebuilt(ds), "arguments"@) {
            Some(JsonV::Text(t)) => t == all_arguments(ds),
            Some(_) => false,
            None => all_arguments(ds).len() == 0,
        },
    decreases ds.len(),
{
    lemma_call_keys();
    if ds.len() > 0 {
        let rest = ds.drop_last();
        lemma_rebuilt_shape(rest);
        law_call_keeps_arguments(rest);
        let d = ds.last();
        if member(d, "function"@) is Some {
            let more = match said(d, "arguments"@) {
                Some(JsonV::Text(t)) => t,
                _ => Seq::empty(),
            };
            assert(all_arguments(ds) == all_arguments(rest) + more);
            if said(rebuilt(rest), "arguments"@) is None {
                assert(all_arguments(rest) =~= Seq::empty());
            }
        } else {
            assert(all_arguments(ds) =~= all_arguments(rest));
        }
    }
}

/// The id and the type of a tool call rebuilt from pieces are those of the first piece
/// that has them.
pub proof fn law_call_keeps_id(ds: Seq<JsonV>, key: Seq<char>, i: int)
    requires
        key == "id"@ || key == "type"@,
        0 <= i <= ds.len(),
        forall|j: int| 0 <= j < i ==> member(#[trigger] ds[j], key) is None,
        i < ds.len() ==> member(ds[i], key) is Some,
    ensures
        member(rebuilt(ds), key) == if i < ds.len() {
            member(ds[i], key)
        } else {
            None
        },
    decreases ds.len(),
{
    lemma_call_keys();
    if ds.len() > 0 {
        let rest = ds.drop_last();
        lemma_rebuilt_shape(rest);
        if i < rest.len() {
            assert(rest[i] == ds[i]);
        } else if i == ds.len() {
            assert(member(ds[i - 1], key) is None);
        }
        assert forall|j: int| 0 <= j < i && j < rest.len() implies member(
            #[trigger] rest[j],
            key,
        ) is None by {
            assert(rest[j] == ds[j]);
        }
        law_call_keeps_id(
            rest,
            key,
            if i < rest.len() {
                i
            } else {
                rest.len() as int
            },
        );
    }
}

/// A tool call that is sent in one piece is rebuilt as it was sent, without its index.
pub proof fn law_whole_call(
    id: JsonV,
    kind: JsonV,
    name: JsonV,
    arguments: Seq<char>,
    index: u64,
)
    ensures
        ({
            let f = Map::empty().insert("name"@, name).insert(
                "arguments"@,
                JsonV::Text(arguments),
            );
            let call = Map::empty().insert("id"@, id).insert("type"@, kind).insert(
                "function"@,
                JsonV::Object(f),
            );
            let sent = call.insert("index"@, JsonV::Unsigned(index));
            rebuilt(seq![JsonV::Object(sent)]) == JsonV::Object(call)
        }),
{
    lemma_call_keys();
    reveal_strlit("index");
    assert("index"@.len() == 5) by {
        reveal_strlit("index");
    }
    assert("id"@.len() == 2 && "type"@.len() == 4 && "function"@.len() == 8) by {
        reveal_strlit("id");
        reveal_strlit("type");
        reveal_strlit("function");
    }
    let f = Map::empty().insert("name"@, name).insert("arguments"@, JsonV::Text(arguments));
    let call = Map::empty().insert("id"@, id).insert("type"@, kind).insert(
        "function"@,
        JsonV::Object(f),
    );
    let d = JsonV::Object(call.insert("index"@, JsonV::Unsigned(index)));
    let one = seq![d];
    assert(one.drop_last() =~= Seq::empty());
    assert(one.last() == d);
    let g = merged_function(Map::empty(), JsonV::Object(f));
    assert(Seq::<char>::empty() + arguments =~= arguments);
    assert(g =~= f);
    let start = Map::<Seq<char>, JsonV>::empty();
    assert(rebuilt(one.drop_last()) == JsonV::Object(start));
    assert(rebuilt(one) == merged_call(JsonV::Object(start), d));
    assert(member(d, "id"@) == Some(id));
    assert(member(d, "type"@) == Some(kind));
    assert(member(d, "function"@) == Some(JsonV::Object(f)));
    let o = start.insert("id"@, id).insert("type"@, kind);
    assert(with_default(with_default(start, "id"@, Some(id)), "type"@, Some(kind)) == o);
    assert(member(JsonV::Object(o), "function"@) is None);
    assert(rebuilt(one) == JsonV::Object(o.insert("function"@, JsonV::Object(g))));
    assert(o.insert("function"@, JsonV::Object(g)) =~= call);
}

/// The tool call with an index.
pub open spec fn call_at(calls: Seq<(u32, JsonV)>, idx: u32) -> Option<JsonV>
    decreases calls.len(),
{
    if calls.len() == 0 {
        None
    } else if calls.last().0 == idx {
        Some(calls.last().1)
    } else {
        call_at(calls.drop_last(), idx)
    }
}

/// The tool call with an index is the one that stands there.
proof fn lemma_call_at(calls: Seq<(u32, JsonV)>, i: int)
    requires
        in_index_order(calls),
        0 <= i < calls.len(),
    ensures
        call_at(calls, calls[i].0) == Some(calls[i].1),
    decreases calls.len(),
{
    if i < calls.len() - 1 {
        assert(calls[i].0 < calls[calls.len() - 1].0);
        let rest = calls.drop_last();
        assert forall|a: int, b: int| 0 <= a < b < rest.len() implies (#[trigger] rest[a]).0 < (
        #[trigger] rest[b]).0 by {
            assert(calls[a].0 < calls[b].0);
        }
        lemma_call_at(rest, i);
    }
}

/// There is no tool call with an index that none has.
proof fn lemma_no_call_at(calls: Seq<(u32, JsonV)>, idx: u32)
    requires
        forall|i: int| 0 <= i < calls.len() ==> (#[trigger] calls[i]).0 != idx,
    ensures
        call_at(calls, idx) is None,
    decreases calls.len(),
{
    if calls.len() > 0 {
        let rest = calls.drop_last();
        assert forall|i: int| 0 <= i < rest.len() implies (#[trigger] rest[i]).0 != idx by {
            assert(rest[i] == calls[i]);
        }
        assert(calls[calls.len() - 1].0 != idx);
        lemma_no_call_at(rest, idx);
    }
}

/// A piece goes to the tool call of its index, a new one if there is none, and to no
/// other.
pub proof fn law_piece_goes_to_its_call(calls: Seq<(u32, JsonV)>, d: JsonV, idx: u32)
    requires
        in_index_order(calls),
    ensures
        call_at(with_piece(calls, d), idx) == if idx == call_index(d) {
            Some(
                merged_call(
                    match call_at(calls, idx) {
                        Some(held) => held,
                        None => JsonV::Object(Map::empty()),
                    },
                    d,
                ),
            )
        } else {
            call_at(calls, idx)
        },
{
    let at = call_index(d);
    let i = slot_of(calls, at) as int;
    let out = with_piece(calls, d);
    lemma_slot(calls, at);
    lemma_piece_in_order(calls, d);
    let held = i < calls.len() && calls[i].0 == at;
    if held {
        lemma_call_at(calls, i);
    } else {
        assert forall|k: int| 0 <= k < calls.len() implies (#[trigger] calls[k]).0 != at by {
            if k > i {
                assert(calls[i].0 < calls[k].0);
            }
        }
        lemma_no_call_at(calls, at);
    }
    assert(out[i].0 == at);
    if idx == at {
        lemma_call_at(out, i);
    } else if exists|k: int| 0 <= k < calls.len() && (#[trigger] calls[k]).0 == idx {
        let k = choose|k: int| 0 <= k < calls.len() && (#[trigger] calls[k]).0 == idx;
        lemma_call_at(calls, k);
        let n = if held || k < i {
            k
        } else {
            k + 1
        };
        assert(out[n] == calls[k]);
        lemma_call_at(out, n);
    } else {
        lemma_no_call_at(calls, idx);
        assert forall|k: int| 0 <= k < out.len() implies (#[trigger] out[k]).0 != idx by {
            if k < i {
                assert(out[k] == calls[k]);
            } else if k > i {
                assert(out[k] == if held {
                    calls[k]
                } else {
                    calls[k - 1]
                });
            }
        }
        lemma_no_call_at(out, idx);
    }
}

/// A piece has the index that it names, and the first one if it names none.
pub proof fn law_call_index(o: Map<Seq<char>, JsonV>, n: u32)
    ensures
        call_index(JsonV::Object(o.insert("index"@, JsonV::Unsigned(n as u64)))) == n,
        call_index(JsonV::Object(o.remove("index"@))) == 0,
{
}

/// Events add to what there is: the content of a delta goes behind that of earlier
/// ones, its reasoning likewise, whichever of its two names it has, and the last
/// finish reason is the one that counts.
pub proof fn law_delta(
    g: GotV,
    choice: Map<Seq<char>, JsonV>,
    delta: Map<Seq<char>, JsonV>,
    text: Seq<char>,
)
    ensures
        ({
            let c = choice.insert(
                "delta"@,
                JsonV::Object(delta.insert("content"@, JsonV::Text(text))),
            );
            with_choice(g, JsonV::Object(c)).content == g.content + text
        }),
        ({
            let c = choice.insert("delta"@, JsonV::Object(delta.remove("content"@)));
            with_choice(g, JsonV::Object(c)).content == g.content
        }),
        ({
            let c = choice.insert(
                "delta"@,
                JsonV::Object(delta.insert("reasoning"@, JsonV::Text(text))),
            );
            with_choice(g, JsonV::Object(c)).reasoning == g.reasoning + text
        }),
        ({
            let c = choice.insert(
                "delta"@,
                JsonV::Object(
                    delta.remove("reasoning"@).insert("reasoning_content"@, JsonV::Text(text)),
                ),
            );
            with_choice(g, JsonV::Object(c)).reasoning == g.reasoning + text
        }),
        ({
            let c = choice.insert("finish_reason"@, JsonV::Text(text));
            with_choice(g, JsonV::Object(c)).finish_reason == Some(text)
        }),
        with_choice(g, JsonV::Object(choice.remove("finish_reason"@))).finish_reason
            == g.finish_reason,
        ({
            let h = with_choice(g, JsonV::Object(choice.remove("delta"@)));
            h.content == g.content && h.reasoning == g.reasoning && h.tool_calls == g.tool_calls
        }),
{
    lemma_delta_keys();
    let empty = Seq::<char>::empty();
    assert(g.content + empty =~= g.content);
    assert(g.reasoning + empty =~= g.reasoning);
    let d = delta.insert("content"@, JsonV::Text(text));
    assert(member(JsonV::Object(choice.insert("delta"@, JsonV::Object(d))), "delta"@) == Some(
        JsonV::Object(d),
    ));
}

/// The keys of a delta differ.
proof fn lemma_delta_keys()
    ensures
        "reasoning"@ != "reasoning_content"@,
{
    reveal_strlit("reasoning");
    reveal_strlit("reasoning_content");
    assert("reasoning"@.len() == 9 && "reasoning_content"@.len() == 17);
}

/// The pieces of tool calls in a delta are added in order.
pub proof fn law_delta_calls(
    g: GotV,
    choice: Map<Seq<char>, JsonV>,
    delta: Map<Seq<char>, JsonV>,
    ds: Seq<JsonV>,
    d: JsonV,
)
    ensures
        ({
            let with = |pieces: Seq<JsonV>|
                JsonV::Object(
                    choice.insert(
                        "delta"@,
                        JsonV::Object(delta.insert("tool_calls"@, JsonV::Array(pieces))),
                    ),
                );
            with_choice(g, with(ds.push(d))).tool_calls == with_piece(
                with_choice(g, with(ds)).tool_calls,
                d,
            ) && with_choice(g, with(Seq::empty())).tool_calls == g.tool_calls
        }),
{
    assert(ds.push(d).drop_last() =~= ds);
}

/// Each event counts once, and its choices are added one after the other.
pub proof fn law_event(g: GotV, v: Map<Seq<char>, JsonV>, choices: Seq<JsonV>, c: JsonV)
    requires
        g.chunks < u64::MAX,
    ensures
        ({
            let event = |cs: Seq<JsonV>| JsonV::Object(v.insert("choices"@, JsonV::Array(cs)));
            let counted = GotV { chunks: (g.chunks + 1) as u64, ..g };
            &&& with_event(g, event(Seq::empty())) == counted
            &&& with_event(g, JsonV::Object(v.remove("choices"@))) == counted
            &&& with_event(g, event(choices.push(c))) == with_choice(
                with_event(g, event(choices)),
                c,
            )
        }),
{
    assert(choices.push(c).drop_last() =~= choices);
    assert(choices.push(c).last() == c);
}

/// Adding a choice counts no event.
pub proof fn law_choice_counts_nothing(g: GotV, c: JsonV)
    ensures
        with_choice(g, c).chunks == g.chunks,
{
}

/// The payload of a line is what stands behind `data:`, without white space round it;
/// the mark of the end carries none.
pub proof fn law_payload(p: Seq<char>)
    requires
        p.len() > 0,
        !is_space(p.first()),
        !is_space(p.last()),
    ensures
        payload(encode_utf8("data: "@ + p + "\n"@)) == if p == "[DONE]"@ {
            None
        } else {
            Some(p)
        },
        payload(encode_utf8("data:"@ + p + "\r\n"@)) == if p == "[DONE]"@ {
            None
        } else {
            Some(p)
        },
{
    lemma_payload(" "@, p, "\n"@);
    lemma_payload(Seq::empty(), p, "\r\n"@);
    assert("data: "@ =~= "data:"@ + " "@) by {
        reveal_strlit("data: ");
        reveal_strlit("data:");
        reveal_strlit(" ");
    }
    assert("data:"@ + Seq::<char>::empty() + p + "\r\n"@ =~= "data:"@ + p + "\r\n"@);
    assert(is_space('\n') && is_space('\r') && is_space(' '));
}

/// The payload of a line, with white space round it.
proof fn lemma_payload(gap: Seq<char>, p: Seq<char>, end: Seq<char>)
    requires
        gap == " "@ || gap == Seq::<char>::empty(),
        end == "\n"@ || end == "\r\n"@,
        p.len() > 0,
        !is_space(p.first()),
        !is_space(p.last()),
    ensures
        payload(encode_utf8("data:"@ + gap + p + end)) == if p == "[DONE]"@ {
            None
        } else {
            Some(p)
        },
{
    reveal_strlit("data:");
    let line = "data:"@ + gap + p + end;
    let empty = Seq::<char>::empty();
    let body = "data:"@ + gap + p;
    let k = Class::Space;
    assert forall|i: int| 0 <= i < gap.len() implies k.has(#[trigger] gap[i]) by {
        reveal_strlit(" ");
    }
    assert forall|i: int| 0 <= i < end.len() implies k.has(#[trigger] end[i]) by {
        reveal_strlit("\n");
        reveal_strlit("\r\n");
    }
    encode_utf8_valid_utf8(line);
    encode_utf8_decode_utf8(line);
    assert(body.first() == 'd' && body.last() == p.last());
    law_strip_frame(empty, body, end, k);
    assert(empty + body + end =~= line);
    assert(strip(line, k) == body);
    assert(body.subrange(0, 5) =~= "data:"@);
    law_strip_frame(gap, p, empty, k);
    assert(gap + p + empty =~= body.skip(5));
}

/// A line that does not start with `data:` carries nothing.
pub proof fn law_other_lines(text: Seq<char>)
    requires
        text.len() > 0,
        !is_space(text.first()),
        !is_space(text.last()),
        !"data:"@.is_prefix_of(text),
    ensures
        payload(encode_utf8(text + "\n"@)) is None,
{
    let line = text + "\n"@;
    let empty = Seq::<char>::empty();
    encode_utf8_valid_utf8(line);
    encode_utf8_decode_utf8(line);
    assert forall|i: int| 0 <= i < "\n"@.len() implies Class::Space.has(#[trigger] "\n"@[i]) by {
        reveal_strlit("\n");
    }
    law_strip_frame(empty, text, "\n"@, Class::Space);
    assert(empty + text + "\n"@ =~= line);
}

/// Complete lines are read one after the other; what follows the last is kept until
/// its end comes.
pub proof fn law_lines_are_read(a: AccV, line: Seq<u8>, rest: Seq<u8>)
    requires
        !line.contains(10),
        a.buf.len() == 0,
    ensures
        fed(a, line + seq![10u8] + rest) == fed(
            AccV { got: with_line(a.got, line + seq![10u8]), ..a },
            rest,
        ),
        fed(a, line) == (AccV { buf: line, ..a }),
{
    let nl = seq![10u8];
    let all = line + nl + rest;
    let n = line.len() as int;
    let empty = Seq::<u8>::empty();
    assert(a.buf =~= empty);
    assert(empty + all =~= all);
    assert(empty + line =~= line);
    assert(empty + rest =~= rest);
    assert(all.subrange(n, n + 1) =~= nl);
    assert forall|i: int| 0 <= i < n implies !#[trigger] occurs_at(all, nl, i) by {
        if occurs_at(all, nl, i) {
            assert(all.subrange(i, i + 1)[0] == line[i]);
        }
    }
    lemma_first_place(all, nl, 0, n);
    assert(all.take(n + 1) =~= line + nl);
    assert(all.skip(n + 1) =~= rest);
    lemma_find_least(line, nl, 0);
    if let Some(i) = position(line, nl, 0) {
        assert(line.subrange(i, i + 1)[0] == line[i]);
    }
}

/// A line whose payload is no JSON changes nothing; one with JSON is an event.
pub proof fn law_line(g: GotV, line: Seq<u8>)
    ensures
        payload(line) is None ==> with_line(g, line) == g,
        payload(line) matches Some(p) ==> match json_parsed(encode_utf8(p)) {
            Some(v) => with_line(g, line) == with_event(g, v),
            None => with_line(g, line) == g,
        },
{
}

/// The summary holds what was rebuilt, all of it, and the tool calls without their
/// index.
pub proof fn law_summary(a: AccV)
    ensures
        ({
            let s = summary_of(a);
            &&& s.content == a.got.content && s.reasoning == a.got.reasoning
            &&& s.finish_reason == a.got.finish_reason && s.chunks == a.got.chunks
            &&& s.error == a.error
            &&& s.tool_calls.len() == a.got.tool_calls.len()
            &&& forall|i: int|
                0 <= i < s.tool_calls.len() ==> #[trigger] s.tool_calls[i]
                    == a.got.tool_calls[i].1
        }),
        nothing().content.len() == 0 && nothing().reasoning.len() == 0 && nothing().tool_calls.len()
            == 0 && nothing().finish_reason is None && nothing().chunks == 0,
{
}

/// What was said before a stream broke is kept, with what broke it; what comes after does
/// not hide it.
pub proof fn law_broken(a: AccV, error: Seq<char>, bytes: Seq<u8>)
    ensures
        summary_of(broken(a, error)).error == Some(error),
        broken(a, error).got == a.got && broken(a, error).buf == a.buf,
        fed(broken(a, error), bytes) == broken(fed(a, bytes), error),
        fed(a, bytes).error == a.error,
{
}

/// The index of a piece counts in 32 bits.
pub proof fn law_large_index(o: Map<Seq<char>, JsonV>, n: u64, m: u64)
    requires
        n % 0x1_0000_0000 == m % 0x1_0000_0000,
    ensures
        call_index(JsonV::Object(o.insert("index"@, JsonV::Unsigned(n)))) == call_index(
            JsonV::Object(o.insert("index"@, JsonV::Unsigned(m))),
        ),
{
}

} // verus!
