//! Reading requests: the model they ask for, what to forward and what to log.
use crate::deep::{deep_chars, distinct, lemma_deep_push, lemma_distinct};
use crate::json::{
    is_plain, json_parsed, json_text, member, parse, put_member, text_of, to_bytes, Json, JsonV,
};
use crate::multipart::{
    boundary, boundary_of, describe, description, field, field_value, law_no_form, parts_of,
};
use crate::text::{
    chars_of, law_split_round, lemma_filter_concat, lemma_one_piece, lower, same_ignoring_case,
    split, split_at_class, str_eq, string_of, strip, trim, Class,
};
use vstd::prelude::*;
use vstd::string::*;

verus! {

broadcast use deep_chars;

/// The query of a routed request.
#[derive(Debug, Default)]
pub struct ModelQuery {
    /// `?model=`; wins over the body when present.
    pub model: Option<String>,
}

/// The query of `GET /api/hive/queries`.
#[derive(Debug, Default)]
pub struct QueriesQuery {
    pub limit: Option<usize>,
}

/// The number of entries that a query gets.
pub open spec fn entry_limit(asked: Option<usize>) -> usize {
    match asked {
        Some(n) => if n > 1000 {
            1000
        } else {
            n
        },
        None => 100,
    }
}

impl QueriesQuery {
    /// The number of entries to give: 100 unless asked otherwise, at most 1000.
    pub fn entries(&self) -> (r: usize)
        ensures
            r == (match self.limit {
                Some(n) => if n > 1000 {
                    1000
                } else {
                    n
                },
                None => 100,
            }),
            r == entry_limit(self.limit),
    {
        match self.limit {
            Some(n) => if n > 1000 {
                1000
            } else {
                n
            },
            None => 100,
        }
    }
}

/// The query of `GET /load`.
#[derive(Debug, Default)]
pub struct LoadQuery {
    pub model: Option<String>,
}

/// A routable request: its model, what to forward, and what to log.
#[derive(Debug)]
pub struct ParsedRequest {
    pub model: String,
    /// Logged form of the request (the JSON body, or a form description).
    pub request: Json,
    pub body: Vec<u8>,
    pub content_type: String,
    pub stream: bool,
}

/// What a [`ParsedRequest`] stands for.
pub struct RequestV {
    pub model: Seq<char>,
    pub request: JsonV,
    pub body: Seq<u8>,
    pub content_type: Seq<char>,
    pub stream: bool,
}

impl View for ParsedRequest {
    type V = RequestV;

    open spec fn view(&self) -> RequestV {
        RequestV {
            model: self.model@,
            request: self.request@,
            body: self.body@,
            content_type: self.content_type@,
            stream: self.stream,
        }
    }
}

/// A request that cannot be routed: the message, and what to log of it.
pub type RefusalV = (Seq<char>, JsonV);

/// The model that a query asks for; an empty one does not count.
pub open spec fn asked(query: Option<Seq<char>>) -> Option<Seq<char>> {
    match query {
        Some(m) if m.len() > 0 => Some(m),
        _ => None,
    }
}

/// The first of two texts that is there.
pub open spec fn or_text(a: Option<Seq<char>>, b: Option<Seq<char>>) -> Option<Seq<char>> {
    if a is Some {
        a
    } else {
        b
    }
}

/// A value with its `model` set, if it is an object.
pub open spec fn with_model(v: JsonV, model: Seq<char>) -> JsonV {
    match v {
        JsonV::Object(o) => JsonV::Object(o.insert("model"@, JsonV::Text(model))),
        _ => v,
    }
}

/// A request with a JSON body; `parsed` is the value of the body, if it is JSON.
pub open spec fn json_request_of(query: Option<Seq<char>>, parsed: Option<JsonV>) -> Result<
    RequestV,
    RefusalV,
> {
    match parsed {
        None => Err(("invalid JSON body"@, JsonV::Null)),
        Some(v) => match or_text(asked(query), text_of(member(v, "model"@))) {
            None => Err(
                ("missing `model`: set JSON body {\"model\": \"...\"} or ?model=..."@, v),
            ),
            Some(model) => {
                let request = with_model(v, model);
                Ok(
                    RequestV {
                        model,
                        request,
                        body: json_text(request),
                        content_type: "application/json"@,
                        stream: member(request, "stream"@) == Some(JsonV::Bool(true)),
                    },
                )
            },
        },
    }
}

/// A request with a form as its body.
pub open spec fn form_request_of(
    query: Option<Seq<char>>,
    content_type: Seq<char>,
    boundary: Seq<char>,
    body: Seq<u8>,
) -> Result<RequestV, RefusalV> {
    let parts = parts_of(body, boundary);
    match or_text(asked(query), field_value(parts, "model"@)) {
        None => Err(
            ("missing `model`: set form field `model` or ?model=..."@, description(parts)),
        ),
        Some(model) => Ok(
            RequestV {
                model,
                request: description(parts),
                body,
                content_type,
                stream: field_value(parts, "stream"@) == Some("true"@),
            },
        ),
    }
}

/// A request: a form if its content type says so, else JSON.
pub open spec fn request_of(
    query: Option<Seq<char>>,
    content_type: Option<Seq<char>>,
    body: Seq<u8>,
) -> Result<RequestV, RefusalV> {
    let kind = match content_type {
        Some(t) => t,
        None => "application/json"@,
    };
    match boundary_of(kind) {
        Some(b) => form_request_of(query, kind, b, body),
        None => json_request_of(query, json_parsed(body)),
    }
}

/// What a result stands for.
pub open spec fn result_view(r: Result<ParsedRequest, (String, Json)>) -> Result<RequestV, RefusalV> {
    match r {
        Ok(p) => Ok(p@),
        Err((msg, request)) => Err((msg@, request@)),
    }
}

/// The model that a query asks for; an empty one does not count.
fn asked_model(query: &ModelQuery) -> (r: Option<String>)
    ensures
        r.deep_view() == asked(query.model.deep_view()),
{
    match &query.model {
        Some(m) => if m.as_str().is_empty() {
            None
        } else {
            Some(m.clone())
        },
        None => None,
    }
}

/// Reads a request with a JSON body; `parsed` is the value of the body, if it is
/// JSON. `?model=` wins over the body, and the forwarded body is rewritten so
/// that upstreams see it too: what they read is the request with its model set.
pub fn json_request(query: &ModelQuery, parsed: Option<Json>) -> (r: Result<
    ParsedRequest,
    (String, Json),
>)
    ensures
        result_view(r) == json_request_of(
            query.model.deep_view(),
            match parsed {
                Some(v) => Some(v@),
                None => None,
            },
        ),
        r matches Ok(p) ==> (is_plain(p@.request, 127) ==> json_parsed(p@.body) == Some(
            p@.request,
        )),
{
    let value = match parsed {
        Some(v) => v,
        None => {
            return Err(("invalid JSON body".to_owned(), Json::Null));
        },
    };
    let model = match asked_model(query) {
        Some(m) => m,
        None => match value.get("model") {
            Some(Json::Text(m)) => m.clone(),
            _ => {
                let msg = "missing `model`: set JSON body {\"model\": \"...\"} or ?model=...";
                return Err((msg.to_owned(), value));
            },
        },
    };
    let request = match value {
        Json::Object(o) => {
            let mut o = o;
            put_member(&mut o, "model".to_owned(), Json::Text(model.clone()));
            Json::Object(o)
        },
        other => other,
    };
    let stream = match request.get("stream") {
        Some(Json::Bool(b)) => *b,
        _ => false,
    };
    let body = to_bytes(&request);
    Ok(
        ParsedRequest {
            model,
            request,
            body,
            content_type: "application/json".to_owned(),
            stream,
        },
    )
}

/// Reads a request with a form as its body, which is forwarded untouched.
fn form_request(query: &ModelQuery, content_type: String, boundary: &str, body: Vec<u8>) -> (r:
    Result<ParsedRequest, (String, Json)>)
    ensures
        result_view(r) == form_request_of(
            query.model.deep_view(),
            content_type@,
            boundary@,
            body@,
        ),
{
    let parts = crate::multipart::parse(body.as_slice(), boundary);
    let parts = parts.as_slice();
    proof {
        assert(parts.deep_view() =~= parts_of(body@, boundary@));
    }
    let request = describe(parts);
    let model = match asked_model(query) {
        Some(m) => m,
        None => match field(parts, "model") {
            Some(m) => m.to_owned(),
            None => {
                return Err(
                    ("missing `model`: set form field `model` or ?model=...".to_owned(), request),
                );
            },
        },
    };
    let stream = match field(parts, "stream") {
        Some(s) => str_eq(s, "true"),
        None => false,
    };
    Ok(ParsedRequest { model, request, body, content_type, stream })
}

/// Reads the model and what to forward from a JSON body, or from a
/// `multipart/form-data` upload. Errors carry what to log.
pub fn parse_request(query: &ModelQuery, content_type: Option<&str>, body: Vec<u8>) -> (r: Result<
    ParsedRequest,
    (String, Json),
>)
    ensures
        result_view(r) == request_of(
            query.model.deep_view(),
            match content_type {
                Some(t) => Some(t@),
                None => None,
            },
            body@,
        ),
{
    let kind = match content_type {
        Some(t) => t.to_owned(),
        None => "application/json".to_owned(),
    };
    match boundary(kind.as_str()) {
        Some(b) => form_request(query, kind, b.as_str(), body),
        None => json_request(query, parse(body.as_slice())),
    }
}

/// The parts of a comma-separated list, without the space round them, the empty
/// ones left out.
pub open spec fn list_items(s: Seq<char>) -> Seq<Seq<char>> {
    split(s, Class::Only(',')).map_values(|p: Seq<char>| strip(p, Class::Space)).filter(
        |p: Seq<char>| p.len() > 0,
    )
}

/// The path that a Via header gives.
pub open spec fn via_of(header: Option<Seq<char>>) -> Seq<Seq<char>> {
    match header {
        Some(h) => distinct(list_items(h)),
        None => Seq::empty(),
    }
}

/// The parts of a comma-separated list.
pub fn split_list(s: &str) -> (r: Vec<String>)
    ensures
        r.deep_view() == list_items(s@),
{
    let v = chars_of(s);
    let pieces = split_at_class(v.as_slice(), Class::Only(','));
    let ghost all = pieces.deep_view();
    let ghost f = |p: Seq<char>| strip(p, Class::Space);
    let ghost keep = |p: Seq<char>| p.len() > 0;
    let ghost trimmed = all.map_values(f);
    let mut out: Vec<String> = Vec::new();
    let mut i: usize = 0;
    proof {
        reveal(Seq::filter);
        assert(out.deep_view() =~= trimmed.take(0).filter(keep));
    }
    while i < pieces.len()
        invariant
            i <= pieces@.len(),
            all == pieces.deep_view(),
            f == (|p: Seq<char>| strip(p, Class::Space)),
            keep == (|p: Seq<char>| p.len() > 0),
            trimmed == all.map_values(f),
            out.deep_view() == trimmed.take(i as int).filter(keep),
        decreases pieces@.len() - i,
    {
        let t = trim(pieces[i].as_slice(), Class::Space);
        proof {
            reveal(Seq::filter);
            assert(trimmed.take(i + 1).drop_last() =~= trimmed.take(i as int));
            assert(trimmed.take(i + 1).last() == t@);
        }
        if t.len() > 0 {
            let ghost before = out;
            let s = string_of(t);
            out.push(s);
            proof {
                lemma_deep_push(before, out, s);
            }
        }
        i = i + 1;
    }
    proof {
        assert(trimmed.take(i as int) =~= trimmed);
    }
    out
}

/// Ordered, deduplicated path of a Via header.
pub fn parse_via(header: Option<&str>) -> (r: Vec<String>)
    ensures
        r.deep_view() == via_of(
            match header {
                Some(h) => Some(h@),
                None => None,
            },
        ),
{
    match header {
        Some(h) => crate::deep::keep_distinct(split_list(h)),
        None => {
            let out: Vec<String> = Vec::new();
            proof {
                assert(out.deep_view() =~= Seq::empty());
            }
            out
        },
    }
}

/// A model that the query names wins over the body.
pub proof fn law_query_wins(model: Seq<char>, content_type: Option<Seq<char>>, body: Seq<u8>)
    requires
        model.len() > 0,
    ensures
        request_of(Some(model), content_type, body) matches Ok(r) ==> r.model == model,
{
}

/// The JSON that is forwarded asks for the model that was routed, and is otherwise
/// what the client sent.
pub proof fn law_forwarded_json(query: Option<Seq<char>>, v: JsonV, key: Seq<char>)
    requires
        v is Object,
        key != "model"@,
    ensures
        json_request_of(query, Some(v)) matches Ok(r) ==> {
            &&& r.body == json_text(r.request)
            &&& member(r.request, "model"@) == Some(JsonV::Text(r.model))
            &&& member(r.request, key) == member(v, key)
        },
{
}

/// A form is forwarded untouched, with the content type it came with.
pub proof fn law_forwarded_form(query: Option<Seq<char>>, content_type: Seq<char>, body: Seq<u8>)
    requires
        boundary_of(content_type) is Some,
    ensures
        request_of(query, Some(content_type), body) matches Ok(r) ==> r.body == body
            && r.content_type == content_type,
{
}

/// A Via path names no hive twice.
pub proof fn law_via_distinct(header: Option<Seq<char>>)
    ensures
        via_of(header).no_duplicates(),
{
    if let Some(h) = header {
        crate::deep::lemma_distinct(list_items(h));
    }
}

/// A JSON request is routed by the model of the query, or of its body where the query
/// names none; without either, and where the body is no JSON, it is refused, and what
/// was read of it is kept for the log. It streams exactly if it asks for it.
pub proof fn law_json_request(query: Option<Seq<char>>, o: Map<Seq<char>, JsonV>, m: Seq<char>)
    ensures
        ({
            let r = json_request_of(query, Some(JsonV::Object(o)));
            let named = query is Some && query->Some_0.len() > 0;
            let told = o.contains_key("model"@) && o["model"@] is Text;
            &&& named ==> r is Ok && r->Ok_0.model == query->Some_0
            &&& !named && o.contains_key("model"@) && o["model"@] == JsonV::Text(m) ==> r is Ok
                && r->Ok_0.model == m
            &&& r is Err <==> !named && !told
            &&& r is Err ==> r->Err_0.1 == JsonV::Object(o)
            &&& r is Ok ==> r->Ok_0.content_type == "application/json"@ && (r->Ok_0.stream
                <==> o.contains_key("stream"@) && o["stream"@] == JsonV::Bool(true))
        }),
        json_request_of(query, None) == Err::<RequestV, RefusalV>(
            ("invalid JSON body"@, JsonV::Null),
        ),
{
    reveal_strlit("model");
    reveal_strlit("stream");
    assert("model"@.len() != "stream"@.len());
}

/// A form is routed by the model of the query, or of its field `model` where the query
/// names none; it streams exactly if its field `stream` is `true`. What is logged is a
/// description of it.
pub proof fn law_form_request(
    query: Option<Seq<char>>,
    content_type: Seq<char>,
    boundary: Seq<char>,
    body: Seq<u8>,
)
    ensures
        ({
            let r = form_request_of(query, content_type, boundary, body);
            let parts = parts_of(body, boundary);
            let named = query is Some && query->Some_0.len() > 0;
            &&& named ==> r is Ok && r->Ok_0.model == query->Some_0
            &&& !named && field_value(parts, "model"@) is Some ==> r is Ok && Some(r->Ok_0.model)
                == field_value(parts, "model"@)
            &&& r is Err <==> !named && field_value(parts, "model"@) is None
            &&& r is Ok ==> r->Ok_0.request == description(parts) && (r->Ok_0.stream
                <==> field_value(parts, "stream"@) == Some("true"@))
            &&& r is Err ==> r->Err_0.1 == description(parts)
        }),
{
}

/// A request without a content type, or with one that is no form, is read as JSON; any
/// other as the form that its content type describes.
pub proof fn law_request_kind(
    query: Option<Seq<char>>,
    content_type: Seq<char>,
    boundary: Seq<char>,
    body: Seq<u8>,
)
    ensures
        boundary_of(content_type) is None ==> request_of(query, Some(content_type), body)
            == json_request_of(query, json_parsed(body)),
        boundary_of(content_type) == Some(boundary) ==> request_of(
            query,
            Some(content_type),
            body,
        ) == form_request_of(query, content_type, boundary, body),
        request_of(query, None, body) == json_request_of(query, json_parsed(body)),
{
    let none = Seq::<char>::empty();
    assert(!same_ignoring_case(strip(none, Class::Space), "multipart/form-data"@)) by {
        reveal_strlit("multipart/form-data");
        let low = |c: char| lower(c);
        assert(none.map_values(low).len() != "multipart/form-data"@.map_values(low).len());
    }
    law_no_form(none, none, none);
}

/// A list is read item by item: the items of two lists with a comma between them are
/// those of each.
pub proof fn law_list_items(a: Seq<char>, b: Seq<char>)
    ensures
        list_items(a + seq![','] + b) == list_items(a) + list_items(b),
{
    let k = Class::Only(',');
    let trimmed = |p: Seq<char>| strip(p, Class::Space);
    law_split_round(a, ',', b, k);
    let (x, y) = (split(a, k), split(b, k));
    assert((x + y).map_values(trimmed) =~= x.map_values(trimmed) + y.map_values(trimmed));
    lemma_filter_concat(
        x.map_values(trimmed),
        y.map_values(trimmed),
        |p: Seq<char>| p.len() > 0,
    );
}

/// A text without a comma is one item, without the space round it, or none if nothing
/// is left of it.
pub proof fn law_one_item(s: Seq<char>)
    requires
        !s.contains(','),
    ensures
        list_items(s) == if strip(s, Class::Space).len() > 0 {
            seq![strip(s, Class::Space)]
        } else {
            Seq::empty()
        },
{
    let k = Class::Only(',');
    let keep = |p: Seq<char>| p.len() > 0;
    assert forall|i: int| 0 <= i < s.len() implies !k.has(#[trigger] s[i]) by {
        assert(s.contains(s[i]));
    }
    lemma_one_piece(s, k);
    let one = seq![strip(s, Class::Space)];
    assert(split(s, k).map_values(|p: Seq<char>| strip(p, Class::Space)) =~= one);
    reveal(Seq::filter);
    assert(one.drop_last() =~= Seq::empty());
    assert(one.drop_last().filter(keep) =~= Seq::empty());
    assert(one.filter(keep) =~= if one[0].len() > 0 {
        one
    } else {
        Seq::empty()
    });
}

/// A Via path holds what its header lists and nothing else; no header is an empty path.
pub proof fn law_via_lists(header: Seq<char>, hop: Seq<char>)
    ensures
        via_of(Some(header)).contains(hop) <==> list_items(header).contains(hop),
        via_of(None).len() == 0,
{
    lemma_distinct(list_items(header));
}

/// A query gets as many entries as it asks for, at most 1000, and 100 if it does not say.
pub proof fn law_entry_limit(n: usize)
    ensures
        n <= 1000 ==> entry_limit(Some(n)) == n,
        n >= 1000 ==> entry_limit(Some(n)) == 1000,
        entry_limit(None) == 100,
{
}

/// A body that is no object is forwarded as it is, for the model of the query; without
/// one there is no model to route by.
pub proof fn law_json_without_members(model: Seq<char>, v: JsonV)
    requires
        !(v is Object),
        model.len() > 0,
    ensures
        json_request_of(Some(model), Some(v)) matches Ok(r) && r.model == model && r.request == v
            && r.body == json_text(v) && !r.stream,
        json_request_of(None, Some(v)) is Err,
        json_request_of(Some(Seq::empty()), Some(v)) is Err,
{
}

} // verus!
