//! What clients are told: model lists, errors and passed-on headers.
use crate::deep::{
    contains, lemma_contains_concat, lemma_contains_push, lemma_deep_push, lemma_filter,
};
use crate::discovery::{
    advertised_by, all_paths, all_texts, DiscoveredEndpoint, EndpointV, MAX_HOPS,
};
use crate::hive::membership::{all_models, law_all_models};
use crate::hive::paths::{advertisable, advertised, law_advertised, routes, PathV};
use crate::hive::request::{parse_via, via_of};
use crate::hive::{Hive, HiveV};
use crate::json::{
    copy_members, has_member, item_views, member, members_view, put_member, Json, JsonV,
};
use crate::order::{
    law_sorted_in_order, law_sorted_is_permutation, lemma_lex_total, lemma_map_permutation,
    lemma_permutation_contains, lemma_permutation_distinct, lemma_text_order, lex_before, sorted,
    stable_sort, str_before, Ranked,
};
use crate::text::{chars_of, starts_with, str_eq};
use vstd::prelude::*;
use vstd::string::*;

verus! {

/// The body of an error answer.
pub open spec fn error_body_of(message: Seq<char>) -> JsonV {
    JsonV::Object(
        Map::empty().insert(
            "error"@,
            JsonV::Object(
                Map::empty().insert("message"@, JsonV::Text(message)).insert(
                    "type"@,
                    JsonV::Text("hive_error"@),
                ),
            ),
        ),
    )
}

/// The body of an error answer.
pub fn error_body(message: &str) -> (r: Json)
    ensures
        r@ == error_body_of(message@),
{
    let mut inner: Vec<(String, Json)> = Vec::new();
    put_member(&mut inner, "message".to_owned(), Json::Text(message.to_owned()));
    put_member(&mut inner, "type".to_owned(), Json::Text("hive_error".to_owned()));
    let mut outer: Vec<(String, Json)> = Vec::new();
    put_member(&mut outer, "error".to_owned(), Json::Object(inner));
    Json::Object(outer)
}

/// What a hive says of its health.
pub open spec fn health_body() -> JsonV {
    JsonV::Object(
        Map::empty().insert("status"@, JsonV::Text("ok"@)).insert(
            "hive"@,
            JsonV::Text("sticky 🐝"@),
        ),
    )
}

/// The body of the answer to `GET /health`.
pub fn health() -> (r: Json)
    ensures
        r@ == JsonV::Object(
            Map::empty().insert("status"@, JsonV::Text("ok"@)).insert(
                "hive"@,
                JsonV::Text("sticky 🐝"@),
            ),
        ),
        r@ == health_body(),
{
    let mut body: Vec<(String, Json)> = Vec::new();
    put_member(&mut body, "status".to_owned(), Json::Text("ok".to_owned()));
    put_member(&mut body, "hive".to_owned(), Json::Text("sticky 🐝".to_owned()));
    Json::Object(body)
}

/// A header: its name in lower case, and its value.
#[derive(Debug)]
pub struct Header {
    pub name: String,
    pub value: Vec<u8>,
}

/// What a [`Header`] stands for.
pub struct HeaderV {
    pub name: Seq<char>,
    pub value: Seq<u8>,
}

impl DeepView for Header {
    type V = HeaderV;

    open spec fn deep_view(&self) -> HeaderV {
        HeaderV { name: self.name@, value: self.value@ }
    }
}

/// The headers of an upstream answer that the client does not get: those that
/// belong to one hop, the length, the hive id, and the upstream's CORS policy.
pub open spec fn is_dropped(name: Seq<char>) -> bool {
    ||| name == "connection"@
    ||| name == "keep-alive"@
    ||| name == "proxy-authenticate"@
    ||| name == "proxy-authorization"@
    ||| name == "te"@
    ||| name == "trailer"@
    ||| name == "transfer-encoding"@
    ||| name == "upgrade"@
    ||| name == "content-length"@
    ||| name == "x-hivllm-id"@
    ||| "access-control-"@.is_prefix_of(name)
}

/// Whether one of the headers has the name.
pub open spec fn names_header(headers: Seq<HeaderV>, name: Seq<char>) -> bool {
    exists|i: int| 0 <= i < headers.len() && (#[trigger] headers[i]).name == name
}

/// The headers with one added unless there is one of its name.
pub open spec fn with_header(headers: Seq<HeaderV>, name: Seq<char>, value: Seq<char>) -> Seq<
    HeaderV,
> {
    if names_header(headers, name) {
        headers
    } else {
        headers.push(HeaderV { name, value: vstd::utf8::encode_utf8(value) })
    }
}

/// The headers that the client gets of an upstream answer.
pub open spec fn passed_headers(headers: Seq<HeaderV>, sse: bool) -> Seq<HeaderV> {
    let kept = headers.filter(|h: HeaderV| !is_dropped(h.name));
    if sse {
        with_header(
            with_header(kept, "content-type"@, "text/event-stream"@),
            "cache-control"@,
            "no-cache"@,
        )
    } else {
        with_header(kept, "content-type"@, "application/json"@)
    }
}

/// Whether the client does not get a header.
fn dropped(name: &str) -> (r: bool)
    ensures
        r == is_dropped(name@),
{
    let v = chars_of(name);
    let cors = chars_of("access-control-");
    str_eq(name, "connection") || str_eq(name, "keep-alive") || str_eq(name, "proxy-authenticate")
        || str_eq(name, "proxy-authorization") || str_eq(name, "te") || str_eq(name, "trailer")
        || str_eq(name, "transfer-encoding") || str_eq(name, "upgrade") || str_eq(
        name,
        "content-length",
    ) || str_eq(name, "x-hivllm-id") || starts_with(v.as_slice(), cors.as_slice())
}

/// Adds a header unless there is one of its name.
fn default_header(headers: &mut Vec<Header>, name: &str, value: &str)
    ensures
        final(headers).deep_view() == with_header(old(headers).deep_view(), name@, value@),
{
    let ghost s = headers.deep_view();
    let mut i: usize = 0;
    while i < headers.len()
        invariant
            i <= headers@.len(),
            s == headers.deep_view(),
            *headers == *old(headers),
            forall|k: int| 0 <= k < i ==> (#[trigger] s[k]).name != name@,
        decreases headers@.len() - i,
    {
        if str_eq(headers[i].name.as_str(), name) {
            proof {
                assert(s[i as int].name == name@);
            }
            return;
        }
        i = i + 1;
    }
    let ghost before = *headers;
    let h = Header {
        name: name.to_owned(),
        value: vstd::slice::slice_to_vec(value.as_bytes()),
    };
    headers.push(h);
    proof {
        lemma_deep_push(before, *headers, h);
    }
}

/// Upstream response headers to hand the client: everything but what belongs to
/// one hop, `content-length` (computed again), the upstream's CORS policy (the
/// hive enforces its own) and its hive id (replaced by ours). Upstreams that omit
/// `content-type` get `text/event-stream` for successful streams, JSON otherwise.
pub fn client_headers(headers: Vec<Header>, sse: bool) -> (r: Vec<Header>)
    ensures
        r.deep_view() == passed_headers(headers.deep_view(), sse),
{
    let ghost all = headers@;
    let ghost s = headers.deep_view();
    let ghost keep = |h: HeaderV| !is_dropped(h.name);
    let mut out: Vec<Header> = Vec::new();
    proof {
        reveal(Seq::filter);
        assert(out.deep_view() =~= s.take(0).filter(keep));
    }
    for h in it: headers
        invariant
            it.seq() == all,
            s.len() == all.len(),
            forall|k: int| 0 <= k < all.len() ==> s[k] == all[k].deep_view(),
            keep == (|h: HeaderV| !is_dropped(h.name)),
            out.deep_view() == s.take(it.index() as int).filter(keep),
    {
        proof {
            reveal(Seq::filter);
            assert(s.take(it.index() + 1).drop_last() =~= s.take(it.index() as int));
            assert(s.take(it.index() + 1).last() == h.deep_view());
        }
        if !dropped(h.name.as_str()) {
            let ghost before = out;
            out.push(h);
            proof {
                lemma_deep_push(before, out, h);
            }
        }
    }
    proof {
        assert(s.take(s.len() as int) =~= s);
    }
    if sse {
        default_header(&mut out, "content-type", "text/event-stream");
        default_header(&mut out, "cache-control", "no-cache");
    } else {
        default_header(&mut out, "content-type", "application/json");
    }
    out
}

/// Text as JSON.
pub open spec fn texts(s: Seq<Seq<char>>) -> JsonV {
    JsonV::Array(s.map_values(|t: Seq<char>| JsonV::Text(t)))
}

/// Paths as JSON.
pub open spec fn paths_json(paths: Seq<PathV>) -> JsonV {
    JsonV::Array(paths.map_values(|p: PathV| texts(p)))
}

/// The object of a model that a member serves: what the member says of it, with
/// the hive's own members on top.
pub open spec fn model_object(ep: EndpointV, model: Seq<char>, paths: Seq<PathV>) -> JsonV {
    let base = if ep.model_meta.contains_key(model) {
        match ep.model_meta[model] {
            JsonV::Object(o) => o,
            _ => Map::empty(),
        }
    } else {
        Map::empty()
    };
    let named = base.insert("id"@, JsonV::Text(model)).insert("object"@, JsonV::Text("model"@));
    let dated = if named.contains_key("created"@) {
        named
    } else {
        named.insert("created"@, JsonV::Unsigned(0))
    };
    JsonV::Object(
        dated.insert("owned_by"@, JsonV::Text(ep.name)).insert(
            "hivllm"@,
            JsonV::Object(Map::empty().insert("paths"@, paths_json(paths))),
        ),
    )
}

/// A model in the list: its id and its object.
pub struct Listed {
    pub id: String,
    pub object: Json,
}

/// What a [`Listed`] stands for.
pub struct ListedV {
    pub id: Seq<char>,
    pub object: JsonV,
}

impl DeepView for Listed {
    type V = ListedV;

    open spec fn deep_view(&self) -> ListedV {
        ListedV { id: self.id@, object: self.object@ }
    }
}

impl Ranked for Listed {
    open spec fn before(a: ListedV, b: ListedV) -> bool {
        lex_before(a.id, b.id)
    }

    fn is_before(&self, other: &Self) -> (r: bool) {
        str_before(self.id.as_str(), other.id.as_str())
    }
}

/// The first models of an endpoint as they are listed: each where it occurs
/// first, if there is a path to advertise.
pub open spec fn listed_on(
    h: HiveV,
    ep: EndpointV,
    models: Seq<Seq<char>>,
    seen: Seq<Seq<char>>,
    avoid: Seq<Seq<char>>,
) -> Seq<ListedV>
    decreases models.len(),
{
    if models.len() == 0 {
        Seq::empty()
    } else {
        let before = listed_on(h, ep, models.drop_last(), seen, avoid);
        let m = models.last();
        let paths = advertised(h.endpoints, m, avoid);
        if (seen + models.drop_last()).contains(m) || paths.len() == 0 {
            before
        } else {
            before.push(ListedV { id: m, object: model_object(ep, m, paths) })
        }
    }
}

/// The models of endpoints as they are listed, in the order in which they occur.
pub open spec fn listed(h: HiveV, endpoints: Seq<EndpointV>, avoid: Seq<Seq<char>>) -> Seq<ListedV>
    decreases endpoints.len(),
{
    if endpoints.len() == 0 {
        Seq::empty()
    } else {
        let ep = endpoints.last();
        listed(h, endpoints.drop_last(), avoid) + listed_on(
            h,
            ep,
            ep.models,
            all_models(endpoints.drop_last()),
            avoid,
        )
    }
}

/// The models that the hive can serve to a caller, in the order of their ids.
pub open spec fn model_list(h: HiveV, via: Option<Seq<char>>) -> Seq<ListedV> {
    sorted::<Listed>(listed(h, h.endpoints, via_of(via).push(h.own_id)))
}

/// The object of the first model with the given id.
pub open spec fn object_with_id(s: Seq<ListedV>, id: Seq<char>) -> Option<JsonV>
    decreases s.len(),
{
    if s.len() == 0 {
        None
    } else if s.first().id == id {
        Some(s.first().object)
    } else {
        object_with_id(s.drop_first(), id)
    }
}

/// The objects of models.
pub open spec fn objects(s: Seq<ListedV>) -> Seq<JsonV> {
    s.map_values(|l: ListedV| l.object)
}

/// The body of the answer to `GET /v1/models`.
pub open spec fn list_body(h: HiveV, via: Option<Seq<char>>) -> JsonV {
    JsonV::Object(
        Map::empty().insert("object"@, JsonV::Text("list"@)).insert(
            "data"@,
            JsonV::Array(objects(model_list(h, via))),
        ),
    )
}

/// Paths as JSON.
fn paths_value(paths: &Vec<Vec<String>>) -> (r: Json)
    ensures
        r@ == paths_json(paths.deep_view()),
{
    let ghost ps = paths.deep_view();
    let mut out: Vec<Json> = Vec::new();
    let mut i: usize = 0;
    while i < paths.len()
        invariant
            i <= paths@.len(),
            ps == paths.deep_view(),
            out@.len() == i,
            forall|k: int| 0 <= k < i ==> out@[k]@ == texts(ps[k]),
        decreases paths@.len() - i,
    {
        let p = &paths[i];
        let mut hops: Vec<Json> = Vec::new();
        let mut j: usize = 0;
        while j < p.len()
            invariant
                j <= p@.len(),
                hops@.len() == j,
                forall|k: int| 0 <= k < j ==> hops@[k]@ == JsonV::Text(p@[k]@),
            decreases p@.len() - j,
        {
            hops.push(Json::Text(p[j].clone()));
            j = j + 1;
        }
        let a = Json::Array(hops);
        proof {
            item_views(hops);
            assert(hops.deep_view() =~= p.deep_view().map_values(|t: Seq<char>| JsonV::Text(t)));
        }
        out.push(a);
        i = i + 1;
    }
    proof {
        item_views(out);
        assert(out.deep_view() =~= ps.map_values(|p: PathV| texts(p)));
    }
    Json::Array(out)
}

/// The object of a model that a member serves.
fn object_of(ep: &DiscoveredEndpoint, model: &String, paths: &Vec<Vec<String>>) -> (r: Json)
    ensures
        r@ == model_object(ep@, model@, paths.deep_view()),
{
    let mut o = match ep.model_meta.get(model) {
        Some(Json::Object(o)) => copy_members(o),
        _ => {
            let o: Vec<(String, Json)> = Vec::new();
            proof {
                assert(members_view(o@) =~= Map::empty());
            }
            o
        },
    };
    put_member(&mut o, "id".to_owned(), Json::Text(model.clone()));
    put_member(&mut o, "object".to_owned(), Json::Text("model".to_owned()));
    if !has_member(&o, "created") {
        put_member(&mut o, "created".to_owned(), Json::Unsigned(0));
    }
    put_member(&mut o, "owned_by".to_owned(), Json::Text(ep.name.clone()));
    let mut mark: Vec<(String, Json)> = Vec::new();
    put_member(&mut mark, "paths".to_owned(), paths_value(paths));
    put_member(&mut o, "hivllm".to_owned(), Json::Object(mark));
    Json::Object(o)
}

impl Hive {
    /// The models that the hive can serve to a caller whose Via header is `via`,
    /// in the order of their ids. Models that the caller could only reach back
    /// through itself are left out.
    fn listed_models(&self, via: Option<&str>) -> (r: Vec<Listed>)
        ensures
            r.deep_view() == model_list(
                self@,
                match via {
                    Some(v) => Some(v@),
                    None => None,
                },
            ),
    {
        let ghost h = self@;
        let mut avoid = parse_via(via);
        let ghost before_me = avoid;
        let me = self.own_id.clone();
        avoid.push(me);
        proof {
            lemma_deep_push(before_me, avoid, me);
        }
        let ghost av = avoid.deep_view();
        let ghost eps = self.endpoints.deep_view();
        let mut seen: Vec<String> = Vec::new();
        let mut out: Vec<Listed> = Vec::new();
        let mut i: usize = 0;
        proof {
            assert(seen.deep_view() =~= all_models(eps.take(0)));
            assert(out.deep_view() =~= listed(h, eps.take(0), av));
        }
        while i < self.endpoints.len()
            invariant
                i <= self.endpoints@.len(),
                h == self@,
                av == avoid.deep_view(),
                eps == self.endpoints.deep_view(),
                seen.deep_view() == all_models(eps.take(i as int)),
                out.deep_view() == listed(h, eps.take(i as int), av),
            decreases self.endpoints@.len() - i,
        {
            let ep = &self.endpoints[i];
            let ghost earlier = seen.deep_view();
            let ghost start = out.deep_view();
            let ghost ms = ep.models.deep_view();
            let mut j: usize = 0;
            proof {
                assert(eps.take(i + 1).drop_last() =~= eps.take(i as int));
                assert(eps.take(i + 1).last() == ep@);
                assert(earlier + ms.take(0) =~= earlier);
                assert(start + listed_on(h, ep@, ms.take(0), earlier, av) =~= start);
            }
            while j < ep.models.len()
                invariant
                    j <= ep.models@.len(),
                    h == self@,
                    av == avoid.deep_view(),
                    ms == ep.models.deep_view(),
                    seen.deep_view() == earlier + ms.take(j as int),
                    out.deep_view() == start + listed_on(h, ep@, ms.take(j as int), earlier, av),
                decreases ep.models@.len() - j,
            {
                let m = &ep.models[j];
                proof {
                    assert(ms.take(j + 1).drop_last() =~= ms.take(j as int));
                    assert(ms.take(j + 1).last() == m@);
                }
                let known = contains(&seen, m);
                let ghost had = seen;
                let name = m.clone();
                seen.push(name);
                proof {
                    lemma_deep_push(had, seen, name);
                    assert((earlier + ms.take(j as int)).push(m@) =~= earlier + ms.take(j + 1));
                }
                if !known {
                    let paths = Hive::advertised_paths(&self.endpoints, m.as_str(), &avoid);
                    if paths.len() > 0 {
                        let ghost before = out;
                        let l = Listed { id: m.clone(), object: object_of(ep, m, &paths) };
                        out.push(l);
                        proof {
                            lemma_deep_push(before, out, l);
                            let on = listed_on(h, ep@, ms.take(j as int), earlier, av);
                            assert((start + on).push(l.deep_view()) =~= start + on.push(
                                l.deep_view(),
                            ));
                        }
                    }
                }
                j = j + 1;
            }
            proof {
                assert(ms.take(j as int) =~= ms);
            }
            i = i + 1;
        }
        proof {
            assert(eps.take(i as int) =~= eps);
        }
        stable_sort(out)
    }

    /// OpenAI model objects for everything this hive can serve to a caller whose
    /// Via header is `via`: `owned_by` names the member, and `hivllm.paths` carries
    /// the loop-free routes of the model so that peers can filter one hop further.
    pub fn model_objects(&self, via: Option<&str>) -> (r: Vec<Json>)
        ensures
            r.deep_view() == objects(
                model_list(
                    self@,
                    match via {
                        Some(v) => Some(v@),
                        None => None,
                    },
                ),
            ),
    {
        let listed = self.listed_models(via);
        let ghost all = listed@;
        let ghost s = listed.deep_view();
        let mut out: Vec<Json> = Vec::new();
        for l in it: listed
            invariant
                it.seq() == all,
                s.len() == all.len(),
                forall|k: int| 0 <= k < all.len() ==> s[k] == all[k].deep_view(),
                out@.len() == it.index(),
                forall|k: int| 0 <= k < it.index() ==> out@[k]@ == s[k].object,
        {
            out.push(l.object);
        }
        proof {
            assert(out.deep_view() =~= objects(s));
        }
        out
    }

    /// The body of the answer to `GET /v1/models`.
    pub fn list_models(&self, via: Option<&str>) -> (r: Json)
        ensures
            r@ == list_body(
                self@,
                match via {
                    Some(v) => Some(v@),
                    None => None,
                },
            ),
    {
        let data = self.model_objects(via);
        proof {
            item_views(data);
        }
        let mut body: Vec<(String, Json)> = Vec::new();
        put_member(&mut body, "object".to_owned(), Json::Text("list".to_owned()));
        put_member(&mut body, "data".to_owned(), Json::Array(data));
        Json::Object(body)
    }

    /// The object of one model, as the list has it; the error message otherwise.
    pub fn get_model(&self, id: &str, via: Option<&str>) -> (r: Result<Json, String>)
        ensures
            ({
                let all = model_list(
                    self@,
                    match via {
                        Some(v) => Some(v@),
                        None => None,
                    },
                );
                match r {
                    Ok(object) => object_with_id(all, id@) == Some(object@),
                    Err(msg) => object_with_id(all, id@) is None && msg@ == "model `"@ + id@
                        + "` not found in hive"@,
                }
            }),
    {
        let listed = self.listed_models(via);
        let ghost s = listed.deep_view();
        let mut i: usize = 0;
        proof {
            assert(s.skip(0) =~= s);
        }
        while i < listed.len()
            invariant
                i <= listed@.len(),
                s == listed.deep_view(),
                s == model_list(
                    self@,
                    match via {
                        Some(v) => Some(v@),
                        None => None,
                    },
                ),
                object_with_id(s, id@) == object_with_id(s.skip(i as int), id@),
            decreases listed@.len() - i,
        {
            proof {
                assert(s.skip(i as int).first() == listed@[i as int].deep_view());
                assert(s.skip(i as int).drop_first() =~= s.skip(i + 1));
            }
            if str_eq(listed[i].id.as_str(), id) {
                return Ok(listed[i].object.copy());
            }
            i = i + 1;
        }
        let mut msg = "model `".to_owned();
        msg.append(id);
        msg.append("` not found in hive");
        Err(msg)
    }
}

/// A header of one hop, the upstream's CORS policy or its hive id never reaches the
/// client; every other header of the upstream does.
pub proof fn law_passed_headers(headers: Seq<HeaderV>, sse: bool, h: HeaderV)
    ensures
        is_dropped(h.name) ==> !passed_headers(headers, sse).contains(h),
        headers.contains(h) && !is_dropped(h.name) ==> passed_headers(headers, sse).contains(h),
{
    let keep = |x: HeaderV| !is_dropped(x.name);
    let kept = headers.filter(keep);
    lemma_filter(headers, keep, h);
    lemma_content_type_passes();
    let kind = if sse {
        "text/event-stream"@
    } else {
        "application/json"@
    };
    let typed = with_header(kept, "content-type"@, kind);
    lemma_with_header(kept, "content-type"@, kind, h);
    lemma_with_header(typed, "cache-control"@, "no-cache"@, h);
}

/// The headers that the hive may add are none of those that it drops.
proof fn lemma_content_type_passes()
    ensures
        !is_dropped("content-type"@),
        !is_dropped("cache-control"@),
{
    reveal_strlit("connection");
    reveal_strlit("keep-alive");
    reveal_strlit("proxy-authenticate");
    reveal_strlit("proxy-authorization");
    reveal_strlit("te");
    reveal_strlit("trailer");
    reveal_strlit("transfer-encoding");
    reveal_strlit("upgrade");
    reveal_strlit("content-length");
    reveal_strlit("x-hivllm-id");
    reveal_strlit("access-control-");
    reveal_strlit("content-type");
    reveal_strlit("cache-control");
    let (a, b) = ("content-type"@, "cache-control"@);
    assert(a[0] == 'c' && a[8] == 't' && a.len() == 12);
    assert(b[0] == 'c' && b[5] == '-' && b.len() == 13);
    assert("content-length"@.len() == 14);
    assert("access-control-"@[0] == 'a');
    assert("connection"@.len() == 10);
    assert("keep-alive"@.len() == 10);
    assert("proxy-authenticate"@.len() == 18);
    assert("proxy-authorization"@.len() == 19);
    assert("te"@.len() == 2);
    assert("trailer"@.len() == 7);
    assert("transfer-encoding"@.len() == 17);
    assert("upgrade"@.len() == 7);
    assert("x-hivllm-id"@.len() == 11);
}

/// Adding a default header keeps the others.
proof fn lemma_with_header(headers: Seq<HeaderV>, name: Seq<char>, value: Seq<char>, h: HeaderV)
    ensures
        headers.contains(h) ==> with_header(headers, name, value).contains(h),
        with_header(headers, name, value).contains(h) ==> headers.contains(h) || h.name == name,
{
    let out = with_header(headers, name, value);
    if headers.contains(h) {
        let k = choose|k: int| 0 <= k < headers.len() && headers[k] == h;
        assert(out[k] == h);
    }
    if out.contains(h) {
        let k = choose|k: int| 0 <= k < out.len() && out[k] == h;
        if k < headers.len() {
            assert(headers[k] == h);
        }
    }
}

/// The client always gets a content type.
pub proof fn law_content_type_present(headers: Seq<HeaderV>, sse: bool)
    ensures
        names_header(passed_headers(headers, sse), "content-type"@),
{
    let kept = headers.filter(|x: HeaderV| !is_dropped(x.name));
    let kind = if sse {
        "text/event-stream"@
    } else {
        "application/json"@
    };
    let typed = with_header(kept, "content-type"@, kind);
    assert(names_header(typed, "content-type"@)) by {
        if !names_header(kept, "content-type"@) {
            assert(typed[kept.len() as int].name == "content-type"@);
        }
    }
    let i = choose|i: int| 0 <= i < typed.len() && (#[trigger] typed[i]).name == "content-type"@;
    assert(passed_headers(headers, sse)[i].name == "content-type"@);
}

/// Text read back from its JSON.
proof fn lemma_texts_read_back(s: Seq<Seq<char>>)
    ensures
        all_texts(s.map_values(|t: Seq<char>| JsonV::Text(t))) == Some(s),
    decreases s.len(),
{
    let f = |t: Seq<char>| JsonV::Text(t);
    if s.len() > 0 {
        lemma_texts_read_back(s.drop_last());
        assert(s.map_values(f).drop_last() =~= s.drop_last().map_values(f));
        assert(s.drop_last().push(s.last()) =~= s);
    } else {
        assert(s =~= Seq::empty());
    }
}

/// Paths read back from their JSON.
proof fn lemma_paths_read_back(paths: Seq<PathV>, hid: Seq<char>)
    requires
        forall|i: int| 0 <= i < paths.len() ==> (#[trigger] paths[i]).len() < MAX_HOPS,
    ensures
        all_paths(paths.map_values(|p: PathV| texts(p)), hid) == Some(
            paths.map_values(|p: PathV| seq![hid] + p),
        ),
    decreases paths.len(),
{
    let f = |p: PathV| texts(p);
    let g = |p: PathV| seq![hid] + p;
    if paths.len() > 0 {
        let rest = paths.drop_last();
        assert forall|i: int| 0 <= i < rest.len() implies (#[trigger] rest[i]).len()
            < MAX_HOPS by {
            assert(rest[i] == paths[i]);
        }
        lemma_paths_read_back(rest, hid);
        assert(paths.map_values(f).drop_last() =~= rest.map_values(f));
        assert(paths[paths.len() - 1].len() < MAX_HOPS);
        lemma_texts_read_back(paths.last());
        assert(rest.map_values(g).push(g(paths.last())) =~= paths.map_values(g));
    } else {
        assert(paths.map_values(g) =~= Seq::empty());
    }
}

/// What a hive advertises of a model, a peer records, with that hive in front of
/// each path.
pub proof fn law_advertised_read_back(
    ep: EndpointV,
    endpoints: Seq<EndpointV>,
    model: Seq<char>,
    avoid: Seq<Seq<char>>,
    hid: Seq<char>,
)
    ensures
        ({
            let paths = advertised(endpoints, model, avoid);
            advertised_by(model_object(ep, model, paths), hid) == Some(
                paths.map_values(|p: PathV| seq![hid] + p),
            )
        }),
{
    let paths = advertised(endpoints, model, avoid);
    law_advertised(endpoints, model, avoid);
    lemma_paths_read_back(paths, hid);
}

/// Routes grow by one hop from hive to hive: where every route of a member that
/// serves a model has at least `k` hops, every path that a peer records of it has at
/// least one more, and there is none once `k` is [`MAX_HOPS`].
pub proof fn law_routes_grow(
    ep: EndpointV,
    endpoints: Seq<EndpointV>,
    model: Seq<char>,
    avoid: Seq<Seq<char>>,
    hid: Seq<char>,
    k: nat,
)
    requires
        forall|i: int, j: int|
            0 <= i < endpoints.len() && (#[trigger] endpoints[i]).models.contains(model) && 0 <= j
                < routes(endpoints[i], model).len() ==> (#[trigger] routes(
                endpoints[i],
                model,
            )[j]).len() >= k,
    ensures
        ({
            let paths = advertised(endpoints, model, avoid);
            &&& advertised_by(model_object(ep, model, paths), hid) matches Some(heard)
                && heard.len() == paths.len() && forall|i: int|
                0 <= i < heard.len() ==> k < (#[trigger] heard[i]).len() <= MAX_HOPS
            &&& k >= MAX_HOPS ==> paths.len() == 0
        }),
{
    let paths = advertised(endpoints, model, avoid);
    law_advertised(endpoints, model, avoid);
    law_advertised_read_back(ep, endpoints, model, avoid, hid);
    assert forall|n: int| 0 <= n < paths.len() implies k <= (#[trigger] paths[n]).len()
        < MAX_HOPS by {
        assert(advertisable(paths[n], avoid));
        let i = choose|i: int|
            0 <= i < endpoints.len() && (#[trigger] endpoints[i]).models.contains(model) && routes(
                endpoints[i],
                model,
            ).contains(paths[n]);
        let j = choose|j: int|
            0 <= j < routes(endpoints[i], model).len() && routes(endpoints[i], model)[j]
                == paths[n];
        assert(routes(endpoints[i], model)[j].len() >= k);
    }
    let heard = paths.map_values(|p: PathV| seq![hid] + p);
    assert forall|i: int| 0 <= i < heard.len() implies k < (#[trigger] heard[i]).len()
        <= MAX_HOPS by {
        assert(heard[i] == seq![hid] + paths[i]);
        assert(paths[i].len() < MAX_HOPS);
    }
    if paths.len() > 0 {
        assert(k <= paths[0].len() < MAX_HOPS);
    }
}

/// The ids of a list of models.
pub open spec fn ids(s: Seq<ListedV>) -> Seq<Seq<char>> {
    s.map_values(|l: ListedV| l.id)
}

/// What is listed of the models of an endpoint: each that was not seen before and that
/// there is a path to, once.
proof fn lemma_listed_on_ids(
    h: HiveV,
    ep: EndpointV,
    models: Seq<Seq<char>>,
    seen: Seq<Seq<char>>,
    avoid: Seq<Seq<char>>,
    id: Seq<char>,
)
    ensures
        ids(listed_on(h, ep, models, seen, avoid)).contains(id) <==> models.contains(id)
            && !seen.contains(id) && advertised(h.endpoints, id, avoid).len() > 0,
        ids(listed_on(h, ep, models, seen, avoid)).no_duplicates(),
        forall|i: int|
            0 <= i < listed_on(h, ep, models, seen, avoid).len() ==> {
                let l = #[trigger] listed_on(h, ep, models, seen, avoid)[i];
                models.contains(l.id) && !seen.contains(l.id) && l.object == model_object(
                    ep,
                    l.id,
                    advertised(h.endpoints, l.id, avoid),
                )
            },
    decreases models.len(),
{
    let all = listed_on(h, ep, models, seen, avoid);
    if models.len() > 0 {
        let rest = models.drop_last();
        let m = models.last();
        let before = listed_on(h, ep, rest, seen, avoid);
        lemma_listed_on_ids(h, ep, rest, seen, avoid, id);
        lemma_listed_on_ids(h, ep, rest, seen, avoid, m);
        assert(models =~= rest.push(m));
        lemma_contains_push(rest, m, id);
        lemma_contains_concat(seen, rest, m);
        lemma_contains_push(ids(before), m, id);
        if all.len() > before.len() {
            assert(ids(all) =~= ids(before).push(m));
        } else {
            assert(all =~= before);
        }
        assert forall|i: int| 0 <= i < all.len() implies ({
            let l = #[trigger] all[i];
            models.contains(l.id) && !seen.contains(l.id) && l.object == model_object(
                ep,
                l.id,
                advertised(h.endpoints, l.id, avoid),
            )
        }) by {
            if i < before.len() {
                assert(all[i] == before[i]);
                lemma_contains_push(rest, m, all[i].id);
            } else {
                lemma_contains_push(rest, m, m);
            }
        }
    } else {
        assert(ids(all) =~= Seq::empty());
    }
}

/// Whether an endpoint of a list serves a model.
pub open spec fn some_serves(endpoints: Seq<EndpointV>, id: Seq<char>) -> bool {
    exists|i: int| 0 <= i < endpoints.len() && (#[trigger] endpoints[i]).models.contains(id)
}

/// Whether an endpoint is the first of a list to serve a model.
pub open spec fn is_first_server(endpoints: Seq<EndpointV>, i: int, id: Seq<char>) -> bool {
    0 <= i < endpoints.len() && endpoints[i].models.contains(id) && !some_serves(
        endpoints.take(i),
        id,
    )
}

/// What is listed of endpoints.
proof fn lemma_listed_ids(
    h: HiveV,
    endpoints: Seq<EndpointV>,
    avoid: Seq<Seq<char>>,
    id: Seq<char>,
)
    ensures
        ids(listed(h, endpoints, avoid)).contains(id) <==> some_serves(endpoints, id)
            && advertised(h.endpoints, id, avoid).len() > 0,
        ids(listed(h, endpoints, avoid)).no_duplicates(),
        forall|n: int|
            0 <= n < listed(h, endpoints, avoid).len() ==> {
                let l = #[trigger] listed(h, endpoints, avoid)[n];
                some_serves(endpoints, l.id) && exists|i: int|
                    #[trigger] is_first_server(endpoints, i, l.id) && l.object == model_object(
                        endpoints[i],
                        l.id,
                        advertised(h.endpoints, l.id, avoid),
                    )
            },
    decreases endpoints.len(),
{
    let all = listed(h, endpoints, avoid);
    if endpoints.len() > 0 {
        let rest = endpoints.drop_last();
        let ep = endpoints.last();
        let seen = all_models(rest);
        let before = listed(h, rest, avoid);
        let more = listed_on(h, ep, ep.models, seen, avoid);
        lemma_listed_ids(h, rest, avoid, id);
        lemma_listed_on_ids(h, ep, ep.models, seen, avoid, id);
        law_all_models(rest, id);
        law_all_models(endpoints, id);
        lemma_contains_concat(seen, ep.models, id);
        assert(ids(all) =~= ids(before) + ids(more));
        lemma_contains_concat(ids(before), ids(more), id);
        assert(ids(all).no_duplicates()) by {
            assert forall|a: int, b: int|
                0 <= a < ids(all).len() && 0 <= b < ids(all).len() && a != b implies ids(all)[a]
                != ids(all)[b] by {
                let n = before.len() as int;
                if a < n && b < n {
                    assert(ids(before)[a] != ids(before)[b]);
                } else if a >= n && b >= n {
                    assert(ids(more)[a - n] != ids(more)[b - n]);
                } else {
                    let (x, y) = if a < n {
                        (a, b)
                    } else {
                        (b, a)
                    };
                    law_all_models(rest, before[x].id);
                    assert(some_serves(rest, before[x].id));
                    assert(!seen.contains(more[y - n].id));
                    assert(ids(all)[x] == before[x].id && ids(all)[y] == more[y - n].id);
                }
            }
        }
        assert forall|n: int| 0 <= n < all.len() implies ({
            let l = #[trigger] all[n];
            some_serves(endpoints, l.id) && exists|i: int|
                #[trigger] is_first_server(endpoints, i, l.id) && l.object == model_object(
                    endpoints[i],
                    l.id,
                    advertised(h.endpoints, l.id, avoid),
                )
        }) by {
            let l = all[n];
            if n < before.len() {
                assert(l == before[n]);
                let i = choose|i: int|
                    #[trigger] is_first_server(rest, i, l.id) && l.object == model_object(
                        rest[i],
                        l.id,
                        advertised(h.endpoints, l.id, avoid),
                    );
                assert(rest.take(i) =~= endpoints.take(i));
                assert(endpoints[i].models.contains(l.id));
                assert(is_first_server(endpoints, i, l.id));
            } else {
                assert(l == more[n - before.len()]);
                let i = endpoints.len() - 1;
                law_all_models(rest, l.id);
                assert(endpoints.take(i) =~= rest);
                assert(endpoints[i].models.contains(l.id));
                assert(is_first_server(endpoints, i, l.id));
            }
        }
    } else {
        assert(ids(all) =~= Seq::empty());
    }
}

/// A model is listed exactly if a member serves it and there is a path to it to
/// advertise, and it is listed once, as the first member that serves it describes it.
pub proof fn law_model_list(h: HiveV, via: Option<Seq<char>>, id: Seq<char>)
    ensures
        ({
            let avoid = via_of(via).push(h.own_id);
            let all = model_list(h, via);
            &&& ids(all).contains(id) <==> some_serves(h.endpoints, id) && advertised(
                h.endpoints,
                id,
                avoid,
            ).len() > 0
            &&& ids(all).no_duplicates()
            &&& forall|n: int|
                0 <= n < all.len() ==> exists|i: int|
                    #[trigger] is_first_server(h.endpoints, i, (#[trigger] all[n]).id)
                        && all[n].object == model_object(
                        h.endpoints[i],
                        all[n].id,
                        advertised(h.endpoints, all[n].id, avoid),
                    )
        }),
{
    let avoid = via_of(via).push(h.own_id);
    let raw = listed(h, h.endpoints, avoid);
    let all = model_list(h, via);
    lemma_listed_ids(h, h.endpoints, avoid, id);
    law_sorted_is_permutation::<Listed>(raw);
    lemma_map_permutation(raw, all, |l: ListedV| l.id);
    lemma_permutation_distinct(ids(raw), ids(all));
    lemma_permutation_contains(ids(raw), ids(all), id);
    assert forall|n: int| 0 <= n < all.len() implies exists|i: int|
        #[trigger] is_first_server(h.endpoints, i, (#[trigger] all[n]).id) && all[n].object
            == model_object(
            h.endpoints[i],
            all[n].id,
            advertised(h.endpoints, all[n].id, avoid),
        ) by {
        assert(all.contains(all[n]));
        lemma_permutation_contains(raw, all, all[n]);
        let k = choose|k: int| 0 <= k < raw.len() && raw[k] == all[n];
        let i = choose|i: int|
            #[trigger] is_first_server(h.endpoints, i, raw[k].id) && raw[k].object == model_object(
                h.endpoints[i],
                raw[k].id,
                advertised(h.endpoints, raw[k].id, avoid),
            );
        assert(is_first_server(h.endpoints, i, all[n].id));
    }
}

/// The models are listed in the order of their ids.
pub proof fn law_model_list_in_order(h: HiveV, via: Option<Seq<char>>, i: int, j: int)
    requires
        0 <= i < j < model_list(h, via).len(),
    ensures
        lex_before(model_list(h, via)[i].id, model_list(h, via)[j].id),
{
    let raw = listed(h, h.endpoints, via_of(via).push(h.own_id));
    let all = model_list(h, via);
    lemma_text_order();
    assert forall|a: ListedV, b: ListedV| #[trigger] Listed::before(a, b) implies !Listed::before(
        b,
        a,
    ) by {
        assert(String::before(a.id, b.id));
    }
    assert forall|a: ListedV, b: ListedV, c: ListedV| #[trigger]
        Listed::before(a, b) && #[trigger] Listed::before(b, c) implies Listed::before(a, c) by {
        assert(String::before(a.id, b.id) && String::before(b.id, c.id));
    }
    assert forall|a: ListedV, b: ListedV, c: ListedV|
        !(#[trigger] Listed::before(a, b)) && !(#[trigger] Listed::before(
            b,
            c,
        )) implies !Listed::before(a, c) by {
        assert(!String::before(a.id, b.id) && !String::before(b.id, c.id));
    }
    law_sorted_in_order::<Listed>(raw);
    law_model_list(h, via, Seq::empty());
    assert(!Listed::before(all[j], all[i]));
    assert(ids(all)[i] != ids(all)[j]);
    lemma_lex_total(all[i].id, all[j].id);
}

/// The object of one model is the one that the list has under its id; there is none
/// for an id that is not listed.
pub proof fn law_get_model(s: Seq<ListedV>, i: int, id: Seq<char>)
    requires
        ids(s).no_duplicates(),
        0 <= i < s.len(),
    ensures
        object_with_id(s, s[i].id) == Some(s[i].object),
        !ids(s).contains(id) ==> object_with_id(s, id) is None,
    decreases s.len(),
{
    lemma_object_missing(s, id);
    if i > 0 {
        let rest = s.drop_first();
        assert(ids(s)[0] != ids(s)[i]);
        assert(ids(rest).no_duplicates()) by {
            assert forall|a: int, b: int|
                0 <= a < rest.len() && 0 <= b < rest.len() && a != b implies ids(rest)[a] != ids(
                rest,
            )[b] by {
                assert(ids(s)[a + 1] != ids(s)[b + 1]);
            }
        }
        assert(rest[i - 1] == s[i]);
        law_get_model(rest, i - 1, id);
    }
}

/// There is no object for an id that is not listed.
proof fn lemma_object_missing(s: Seq<ListedV>, id: Seq<char>)
    ensures
        !ids(s).contains(id) ==> object_with_id(s, id) is None,
    decreases s.len(),
{
    if s.len() > 0 && !ids(s).contains(id) {
        let rest = s.drop_first();
        assert(ids(s)[0] == s.first().id);
        if ids(rest).contains(id) {
            let k = choose|k: int| 0 <= k < ids(rest).len() && ids(rest)[k] == id;
            assert(ids(s)[k + 1] == id);
        }
        lemma_object_missing(rest, id);
    }
}

/// The object of a model names it, its member and its paths, keeps what the member
/// says of it otherwise, and always has a date.
pub proof fn law_model_object(ep: EndpointV, model: Seq<char>, paths: Seq<PathV>, key: Seq<char>)
    ensures
        ({
            let o = model_object(ep, model, paths);
            let said = if ep.model_meta.contains_key(model) {
                member(ep.model_meta[model], key)
            } else {
                None
            };
            &&& member(o, "id"@) == Some(JsonV::Text(model))
            &&& member(o, "object"@) == Some(JsonV::Text("model"@))
            &&& member(o, "owned_by"@) == Some(JsonV::Text(ep.name))
            &&& member(o, "hivllm"@) == Some(
                JsonV::Object(Map::empty().insert("paths"@, paths_json(paths))),
            )
            &&& key != "id"@ && key != "object"@ && key != "owned_by"@ && key != "hivllm"@ && key
                != "created"@ ==> member(o, key) == said
            &&& key == "created"@ ==> member(o, key) == (if said is Some {
                said
            } else {
                Some(JsonV::Unsigned(0))
            })
        }),
{
    reveal_strlit("id");
    reveal_strlit("object");
    reveal_strlit("created");
    reveal_strlit("owned_by");
    reveal_strlit("hivllm");
    assert("id"@.len() == 2 && "object"@.len() == 6 && "created"@.len() == 7 && "owned_by"@.len()
        == 8 && "hivllm"@.len() == 6);
    assert("object"@[0] == 'o' && "hivllm"@[0] == 'h');
}

/// The body of a model list holds the objects of the list, in order.
pub proof fn law_list_body(h: HiveV, via: Option<Seq<char>>)
    ensures
        member(list_body(h, via), "data"@) matches Some(JsonV::Array(a)) && a.len() == model_list(
            h,
            via,
        ).len() && forall|i: int|
            0 <= i < a.len() ==> #[trigger] a[i] == model_list(h, via)[i].object,
        member(list_body(h, via), "object"@) == Some(JsonV::Text("list"@)),
{
    reveal_strlit("object");
    reveal_strlit("data");
    assert("object"@.len() == 6 && "data"@.len() == 4);
}

/// Paths are written as arrays of the ids they are made of.
pub proof fn law_paths_json(paths: Seq<PathV>, i: int, j: int)
    requires
        0 <= i < paths.len(),
        0 <= j < paths[i].len(),
    ensures
        paths_json(paths) matches JsonV::Array(a) && a.len() == paths.len() && (
        a[i] matches JsonV::Array(b) && b.len() == paths[i].len() && b[j] == JsonV::Text(
            paths[i][j],
        )),
{
}

/// An error tells its message where clients look for it.
pub proof fn law_error_body(message: Seq<char>)
    ensures
        member(error_body_of(message), "error"@) matches Some(e) && member(e, "message"@) == Some(
            JsonV::Text(message),
        ) && member(e, "type"@) == Some(JsonV::Text("hive_error"@)),
{
    reveal_strlit("message");
    reveal_strlit("type");
    assert("message"@.len() == 7 && "type"@.len() == 4);
}

/// A hive that answers is well.
pub proof fn law_health()
    ensures
        member(health_body(), "status"@) == Some(JsonV::Text("ok"@)),
        member(health_body(), "hive"@) is Some,
{
    reveal_strlit("status");
    reveal_strlit("hive");
    assert("status"@.len() != "hive"@.len());
}

/// The headers that do not reach the client are those of one hop, the length, the hive id
/// of the upstream and its CORS policy.
pub proof fn law_dropped_headers(name: Seq<char>)
    ensures
        is_dropped(name) <==> seq![
            "connection"@,
            "keep-alive"@,
            "proxy-authenticate"@,
            "proxy-authorization"@,
            "te"@,
            "trailer"@,
            "transfer-encoding"@,
            "upgrade"@,
            "content-length"@,
            "x-hivllm-id"@,
        ].contains(name) || "access-control-"@.is_prefix_of(name),
{
    let all = seq![
        "connection"@,
        "keep-alive"@,
        "proxy-authenticate"@,
        "proxy-authorization"@,
        "te"@,
        "trailer"@,
        "transfer-encoding"@,
        "upgrade"@,
        "content-length"@,
        "x-hivllm-id"@,
    ];
    assert(all[0] == "connection"@ && all[1] == "keep-alive"@ && all[2] == "proxy-authenticate"@);
    assert(all[3] == "proxy-authorization"@ && all[4] == "te"@ && all[5] == "trailer"@);
    assert(all[6] == "transfer-encoding"@ && all[7] == "upgrade"@ && all[8] == "content-length"@);
    assert(all[9] == "x-hivllm-id"@);
}

/// What the hive adds to the headers of an upstream is a content type where it sent none,
/// that of a stream or of JSON, and for a stream that it is not to be cached.
pub proof fn law_added_headers(headers: Seq<HeaderV>, sse: bool, h: HeaderV)
    ensures
        ({
            let out = passed_headers(headers, sse);
            let typed = names_header(headers, "content-type"@);
            let kind = HeaderV {
                name: "content-type"@,
                value: vstd::utf8::encode_utf8(
                    if sse {
                        "text/event-stream"@
                    } else {
                        "application/json"@
                    },
                ),
            };
            let fresh = HeaderV {
                name: "cache-control"@,
                value: vstd::utf8::encode_utf8("no-cache"@),
            };
            &&& !typed ==> out.contains(kind)
            &&& sse && !names_header(headers, "cache-control"@) ==> out.contains(fresh)
            &&& out.contains(h) ==> headers.contains(h) || (h == kind && !typed) || (h == fresh
                && sse)
        }),
{
    let keep = |x: HeaderV| !is_dropped(x.name);
    let kept = headers.filter(keep);
    let kind = if sse {
        "text/event-stream"@
    } else {
        "application/json"@
    };
    let first = HeaderV { name: "content-type"@, value: vstd::utf8::encode_utf8(kind) };
    let second = HeaderV {
        name: "cache-control"@,
        value: vstd::utf8::encode_utf8("no-cache"@),
    };
    let typed = with_header(kept, "content-type"@, kind);
    lemma_content_type_passes();
    lemma_named_after_filter(headers, "content-type"@);
    lemma_named_after_filter(headers, "cache-control"@);
    lemma_filter(headers, keep, h);
    lemma_header_added(kept, "content-type"@, kind, h);
    lemma_header_added(kept, "content-type"@, kind, first);
    lemma_header_added(typed, "cache-control"@, "no-cache"@, h);
    lemma_header_added(typed, "cache-control"@, "no-cache"@, first);
    lemma_header_added(typed, "cache-control"@, "no-cache"@, second);
    assert(names_header(typed, "cache-control"@) ==> names_header(kept, "cache-control"@)) by {
        reveal_strlit("content-type");
        reveal_strlit("cache-control");
        assert("content-type"@.len() != "cache-control"@.len());
        if names_header(typed, "cache-control"@) {
            let i = choose|i: int|
                0 <= i < typed.len() && (#[trigger] typed[i]).name == "cache-control"@;
            assert(kept[i].name == "cache-control"@);
        }
    }
}

/// A header that passes is named before the filter exactly if it is named after it.
proof fn lemma_named_after_filter(headers: Seq<HeaderV>, name: Seq<char>)
    requires
        !is_dropped(name),
    ensures
        names_header(headers.filter(|x: HeaderV| !is_dropped(x.name)), name) <==> names_header(
            headers,
            name,
        ),
{
    let keep = |x: HeaderV| !is_dropped(x.name);
    let kept = headers.filter(keep);
    if names_header(headers, name) {
        let i = choose|i: int| 0 <= i < headers.len() && (#[trigger] headers[i]).name == name;
        lemma_filter(headers, keep, headers[i]);
        let k = choose|k: int| 0 <= k < kept.len() && kept[k] == headers[i];
        assert(kept[k].name == name);
    }
    if names_header(kept, name) {
        let k = choose|k: int| 0 <= k < kept.len() && (#[trigger] kept[k]).name == name;
        lemma_filter(headers, keep, kept[k]);
        let i = choose|i: int| 0 <= i < headers.len() && headers[i] == kept[k];
        assert(headers[i].name == name);
    }
}

/// A header is added where none has its name, and nothing else is.
proof fn lemma_header_added(headers: Seq<HeaderV>, name: Seq<char>, value: Seq<char>, h: HeaderV)
    ensures
        ({
            let added = HeaderV { name, value: vstd::utf8::encode_utf8(value) };
            with_header(headers, name, value).contains(h) <==> headers.contains(h) || (h == added
                && !names_header(headers, name))
        }),
{
    let added = HeaderV { name, value: vstd::utf8::encode_utf8(value) };
    if !names_header(headers, name) {
        lemma_contains_push(headers, added, h);
    }
}

/// The headers of the upstream that are passed on stay as they came, in order, also
/// where one is given more than once; what the hive adds comes behind them.
pub proof fn law_headers_in_order(headers: Seq<HeaderV>, sse: bool)
    ensures
        headers.filter(|h: HeaderV| !is_dropped(h.name)).is_prefix_of(passed_headers(headers, sse)),
        passed_headers(headers, sse).len() <= headers.len() + 2,
{
    let kept = headers.filter(|h: HeaderV| !is_dropped(h.name));
    let out = passed_headers(headers, sse);
    assert(kept =~= out.subrange(0, kept.len() as int));
    headers.lemma_filter_len(|h: HeaderV| !is_dropped(h.name));
}

} // verus!
