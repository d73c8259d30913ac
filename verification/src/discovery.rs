//! Backends on this machine and elsewhere: where to look for them, how to read
//! what is found, and how to merge it.
use crate::deep::{contains, deep_chars, deep_ports, Dup};
use crate::discovery::ports::lemma_default_ports_distinct;
use crate::json::{Json, JsonV};
use crate::order::{lex_before, sorted, stable_sort, str_before, Ranked};
use crate::table::Table;
use crate::text::{
    chars_of, decimal, ends_with, find, find_chars, lemma_decimal_injective, lemma_find_least,
    lemma_first_place, occurs_at, push_decimal, starts_with, string_of, strip_end, trim_end, Class,
};
use std::collections::HashMap;
use vstd::prelude::*;
use vstd::string::*;

pub mod credentials;
pub mod merge;
pub mod ports;
pub mod probed;

pub use self::credentials::{key_for, key_index, Credentials, CredentialsV};
pub use self::merge::{merge_endpoints, merged};
pub use self::ports::{
    default_ports, hint, names_of, parse_docker_ports, parse_ss_ports, parse_ss_processes,
    proc_hint, scan_ports, well_known_ports,
};
pub use self::probed::{advertised_by, all_paths, all_texts, Probed, ProbedV};

verus! {

broadcast use {deep_chars, deep_ports};

/// Response header that every hive stamps with its instance id, so that peers
/// recognise it whatever address they reach it by.
pub const HIVE_ID_HEADER: &'static str = "x-hivllm-id";

/// Request header with the ids of the hives that a request went through.
pub const VIA_HEADER: &'static str = "x-hivllm-via";

/// Most hives on a path to a backend.
pub const MAX_HOPS: usize = 8;

/// A backend of the hive.
#[derive(Debug)]
pub struct DiscoveredEndpoint {
    /// Stable id, e.g. `http-127.0.0.1-11434`.
    pub id: String,
    /// Human hint: process name, host, container name.
    pub name: String,
    /// Base URL without trailing slash.
    pub base_url: String,
    /// Model ids that the backend reported.
    pub models: Vec<String>,
    /// Where it was found: `well-known-port`, `ss-listener`, `docker`, `static`.
    pub source: String,
    /// Instance id, if the backend is itself a hive.
    pub hive_id: Option<String>,
    /// For a hive: per model, the chains of hives through which it reaches a
    /// real backend, the hive itself first.
    pub paths: Table<String, Vec<Vec<String>>>,
    /// Per model, the object that the backend describes it with.
    pub model_meta: Table<String, Json>,
}

/// What a [`DiscoveredEndpoint`] stands for.
pub struct EndpointV {
    pub id: Seq<char>,
    pub name: Seq<char>,
    pub base_url: Seq<char>,
    pub models: Seq<Seq<char>>,
    pub source: Seq<char>,
    pub hive_id: Option<Seq<char>>,
    pub paths: Map<Seq<char>, Seq<Seq<Seq<char>>>>,
    pub model_meta: Map<Seq<char>, JsonV>,
}

impl View for DiscoveredEndpoint {
    type V = EndpointV;

    open spec fn view(&self) -> EndpointV {
        EndpointV {
            id: self.id@,
            name: self.name@,
            base_url: self.base_url@,
            models: self.models.deep_view(),
            source: self.source@,
            hive_id: self.hive_id.deep_view(),
            paths: self.paths@,
            model_meta: self.model_meta@,
        }
    }
}

impl DeepView for DiscoveredEndpoint {
    type V = EndpointV;

    open spec fn deep_view(&self) -> EndpointV {
        self@
    }
}

impl Dup for DiscoveredEndpoint {
    fn dup(&self) -> (r: Self) {
        DiscoveredEndpoint {
            id: self.id.clone(),
            name: self.name.clone(),
            base_url: self.base_url.clone(),
            models: self.models.dup(),
            source: self.source.clone(),
            hive_id: self.hive_id.dup(),
            paths: self.paths.dup(),
            model_meta: self.model_meta.dup(),
        }
    }
}

impl Clone for DiscoveredEndpoint {
    fn clone(&self) -> (r: Self)
        ensures
            r@ == self@,
    {
        self.dup()
    }
}

impl Ranked for DiscoveredEndpoint {
    open spec fn before(a: EndpointV, b: EndpointV) -> bool {
        lex_before(a.base_url, b.base_url)
    }

    fn is_before(&self, other: &Self) -> (r: bool) {
        str_before(self.base_url.as_str(), other.base_url.as_str())
    }
}

/// A base URL without trailing slashes.
pub open spec fn bare(base_url: Seq<char>) -> Seq<char> {
    strip_end(base_url, Class::Only('/'))
}

/// Whether a base URL already carries the OpenAI prefix.
pub open spec fn has_v1(b: Seq<char>) -> bool {
    "/v1"@.is_suffix_of(b)
}

/// The models endpoint of a base URL.
pub open spec fn models_url_of(base_url: Seq<char>) -> Seq<char> {
    let b = bare(base_url);
    if has_v1(b) {
        b + "/models"@
    } else {
        b + "/v1/models"@
    }
}

/// The server root of a base URL.
pub open spec fn server_root_of(base_url: Seq<char>) -> Seq<char> {
    let b = bare(base_url);
    if has_v1(b) && b.len() > 3 {
        bare(b.take(b.len() - 3))
    } else {
        b
    }
}

/// An API path on the server of a base URL: below the base where both carry the
/// OpenAI prefix, else below the server root.
pub open spec fn upstream_path_of(base_url: Seq<char>, api_path: Seq<char>) -> Seq<char> {
    let b = bare(base_url);
    if has_v1(b) && "/v1"@.is_prefix_of(api_path) {
        b + api_path.skip(3)
    } else {
        server_root_of(base_url) + api_path
    }
}

/// Models endpoint of a base URL. Bare server roots have `{base}/v1/models`;
/// bases that already carry the OpenAI `/v1` prefix have `{base}/models`.
pub fn models_url(base_url: &str) -> (r: String)
    ensures
        r@ == models_url_of(base_url@),
{
    let v = chars_of(base_url);
    let b = trim_end(v.as_slice(), Class::Only('/'));
    let v1 = chars_of("/v1");
    let mut url = string_of(b);
    if ends_with(b, v1.as_slice()) {
        url.append("/models");
    } else {
        url.append("/v1/models");
    }
    url
}

/// Server root for server-level routes (`/metrics`, `/load`): the base URL
/// without a trailing OpenAI `/v1` prefix, since those routes live next to
/// `/v1`, not under it.
pub fn server_root(base_url: &str) -> (r: String)
    ensures
        r@ == server_root_of(base_url@),
{
    let v = chars_of(base_url);
    let b = trim_end(v.as_slice(), Class::Only('/'));
    let v1 = chars_of("/v1");
    proof {
        reveal_strlit("/v1");
    }
    if ends_with(b, v1.as_slice()) && b.len() > 3 {
        let root = vstd::slice::slice_subrange(b, 0, b.len() - 3);
        string_of(trim_end(root, Class::Only('/')))
    } else {
        string_of(b)
    }
}

/// Joins a base URL with an API path without doubling a `/v1` prefix that the
/// base already carries. Paths outside `/v1` live next to it.
pub fn join_upstream_path(base_url: &str, api_path: &str) -> (r: String)
    ensures
        r@ == upstream_path_of(base_url@, api_path@),
{
    let v = chars_of(base_url);
    let b = trim_end(v.as_slice(), Class::Only('/'));
    let p = chars_of(api_path);
    let v1 = chars_of("/v1");
    proof {
        reveal_strlit("/v1");
    }
    if ends_with(b, v1.as_slice()) && starts_with(p.as_slice(), v1.as_slice()) {
        let mut url = string_of(b);
        let rest = string_of(vstd::slice::slice_subrange(p.as_slice(), 3, p.len()));
        url.append(rest.as_str());
        url
    } else {
        let mut url = server_root(base_url);
        url.append(api_path);
        url
    }
}

/// The base URL of a local port.
pub open spec fn local_url(port: u16) -> Seq<char> {
    "http://127.0.0.1:"@ + decimal(port as nat)
}

/// The base URL of a local port.
pub fn local_base_url(port: u16) -> (r: String)
    ensures
        r@ == local_url(port),
{
    let mut s = "http://127.0.0.1:".to_owned();
    push_decimal(&mut s, port as u64);
    s
}

/// Where a local port was found.
pub open spec fn local_source(port: u16, docker_ports: Seq<u16>) -> Seq<char> {
    if docker_ports.contains(port) {
        "docker"@
    } else if default_ports().contains(port) {
        "well-known-port"@
    } else {
        "ss-listener"@
    }
}

/// The endpoint of a local port that answered a probe.
pub open spec fn found_on(
    port: u16,
    probed: ProbedV,
    docker_ports: Seq<u16>,
    names: Map<u16, Seq<char>>,
) -> EndpointV {
    EndpointV {
        id: "http-127.0.0.1-"@ + decimal(port as nat),
        name: hint(port, names),
        base_url: local_url(port),
        models: probed.models,
        source: local_source(port, docker_ports),
        hive_id: probed.hive_id,
        paths: probed.paths,
        model_meta: probed.model_meta,
    }
}

/// The endpoint of a local port that answered a probe.
pub fn local_endpoint(
    port: u16,
    probed: Probed,
    docker_ports: &Vec<u16>,
    proc_map: &HashMap<u16, String>,
) -> (r: DiscoveredEndpoint)
    ensures
        r@ == (EndpointV {
            id: "http-127.0.0.1-"@ + decimal(port as nat),
            name: hint(port, names_of(*proc_map)),
            base_url: local_url(port),
            models: probed@.models,
            source: local_source(port, docker_ports@),
            hive_id: probed@.hive_id,
            paths: probed@.paths,
            model_meta: probed@.model_meta,
        }),
        r@ == found_on(port, probed@, docker_ports@, names_of(*proc_map)),
{
    let mut id = "http-127.0.0.1-".to_owned();
    push_decimal(&mut id, port as u64);
    let none: [u16; 0] = [];
    let well_known = well_known_ports(none.as_slice());
    proof {
        assert(none@ =~= Seq::<u16>::empty());
        lemma_default_ports_distinct();
    }
    let source = if contains(docker_ports, &port) {
        "docker"
    } else if contains(&well_known, &port) {
        "well-known-port"
    } else {
        "ss-listener"
    };
    DiscoveredEndpoint {
        id,
        name: proc_hint(port, proc_map),
        base_url: local_base_url(port),
        models: probed.models,
        source: source.to_owned(),
        hive_id: probed.hive_id,
        paths: probed.paths,
        model_meta: probed.model_meta,
    }
}

/// Endpoints in the order of their base URLs.
pub fn sort_endpoints(endpoints: Vec<DiscoveredEndpoint>) -> (r: Vec<DiscoveredEndpoint>)
    ensures
        r.deep_view() == sorted::<DiscoveredEndpoint>(endpoints.deep_view()),
{
    stable_sort(endpoints)
}

/// An operator-provided backend URL with a scheme and no trailing slash.
pub open spec fn normalized(raw: Seq<char>) -> Seq<char> {
    if find(raw, "://"@, 0) is Some {
        bare(raw)
    } else {
        bare("http://"@ + raw)
    }
}

/// Normalizes an operator-provided backend URL: default to `http://` when no
/// scheme is given, strip trailing slashes.
pub fn normalize_base_url(raw: &str) -> (r: String)
    ensures
        r@ == normalized(raw@),
{
    let v = chars_of(raw);
    let sep = chars_of("://");
    let with_scheme = match find_chars(v.as_slice(), sep.as_slice(), 0) {
        Some(_) => v,
        None => {
            let mut s = "http://".to_owned();
            s.append(raw);
            chars_of(s.as_str())
        },
    };
    string_of(trim_end(with_scheme.as_slice(), Class::Only('/')))
}

/// What follows the last `://`; all of it if there is none.
pub open spec fn after_scheme(s: Seq<char>) -> Seq<char>
    decreases s.len(),
{
    match find(s, "://"@, 0) {
        Some(i) if 0 <= i && i + 3 <= s.len() => after_scheme(s.skip(i + 3)),
        _ => s,
    }
}

/// What follows the last `://`; all of it if there is none.
pub fn without_scheme(v: &[char]) -> (r: &[char])
    ensures
        r@ == after_scheme(v@),
{
    let sep = chars_of("://");
    proof {
        reveal_strlit("://");
    }
    let n: usize = v.len();
    let mut from: usize = 0;
    proof {
        assert(v@.skip(0) =~= v@);
    }
    loop
        invariant
            from <= n,
            n == v@.len(),
            sep@ == "://"@,
            sep@.len() == 3,
            after_scheme(v@) == after_scheme(v@.skip(from as int)),
        ensures
            from <= n,
            after_scheme(v@) == v@.skip(from as int),
        decreases n - from,
    {
        let rest = vstd::slice::slice_subrange(v, from, n);
        proof {
            assert(rest@ =~= v@.skip(from as int));
        }
        match find_chars(rest, sep.as_slice(), 0) {
            Some(i) => {
                proof {
                    assert(rest@.skip(i + 3) =~= v@.skip(from + i + 3));
                }
                from = from + i + 3;
            },
            None => {
                break;
            },
        }
    }
    vstd::slice::slice_subrange(v, from, n)
}

/// The text before the first `c`; all of it if there is none.
pub open spec fn before_first(s: Seq<char>, c: char) -> Seq<char> {
    match find(s, seq![c], 0) {
        Some(i) => s.take(i),
        None => s,
    }
}

/// Host part of a base URL, for ids and display names.
pub fn url_host(base_url: &str) -> (r: String)
    ensures
        r@ == before_first(after_scheme(base_url@), '/'),
{
    let v = chars_of(base_url);
    let rest = without_scheme(v.as_slice());
    let slash: [char; 1] = ['/'];
    proof {
        assert(slash@ =~= seq!['/']);
    }
    match find_chars(rest, slash.as_slice(), 0) {
        Some(i) => string_of(vstd::slice::slice_subrange(rest, 0, i)),
        None => string_of(rest),
    }
}

/// Whether a character beyond ASCII is alphabetic or numeric in Unicode.
pub uninterp spec fn unicode_alphanumeric(c: char) -> bool;

/// Whether a character of ASCII is a letter or a digit.
pub open spec fn ascii_alphanumeric(c: char) -> bool {
    0x30 <= c as u32 <= 0x39 || 0x41 <= c as u32 <= 0x5a || 0x61 <= c as u32 <= 0x7a
}

/// Whether a character is alphabetic or numeric.
pub open spec fn alphanumeric(c: char) -> bool {
    if c as u32 <= 0x7f {
        ascii_alphanumeric(c)
    } else {
        unicode_alphanumeric(c)
    }
}

/// `char::is_alphanumeric` depends on the character alone; among ASCII it holds
/// of the letters and the digits.
pub assume_specification[ char::is_alphanumeric ](c: char) -> (r: bool)
    ensures
        c as u32 <= 0x7f ==> r == ascii_alphanumeric(c),
        c as u32 > 0x7f ==> r == unicode_alphanumeric(c),
;

/// A text with every character that is not alphanumeric made a hyphen.
pub open spec fn slug(s: Seq<char>) -> Seq<char> {
    s.map_values(
        |c: char|
            if alphanumeric(c) {
                c
            } else {
                '-'
            },
    )
}

/// The endpoint of an operator-provided backend that answered a probe.
pub open spec fn pinned_at(raw: Seq<char>, probed: ProbedV) -> EndpointV {
    EndpointV {
        id: "static-"@ + slug(normalized(raw)),
        name: before_first(after_scheme(normalized(raw)), '/'),
        base_url: normalized(raw),
        models: probed.models,
        source: "static"@,
        hive_id: probed.hive_id,
        paths: probed.paths,
        model_meta: probed.model_meta,
    }
}

/// The endpoint of an operator-provided backend that answered a probe.
pub fn static_endpoint(raw: &str, probed: Probed) -> (r: DiscoveredEndpoint)
    ensures
        r@ == (EndpointV {
            id: "static-"@ + slug(normalized(raw@)),
            name: before_first(after_scheme(normalized(raw@)), '/'),
            base_url: normalized(raw@),
            models: probed@.models,
            source: "static"@,
            hive_id: probed@.hive_id,
            paths: probed@.paths,
            model_meta: probed@.model_meta,
        }),
        r@ == pinned_at(raw@, probed@),
{
    let base_url = normalize_base_url(raw);
    let name = url_host(base_url.as_str());
    let v = chars_of(base_url.as_str());
    let mut id = "static-".to_owned();
    let mut i: usize = 0;
    while i < v.len()
        invariant
            i <= v@.len(),
            id@ =~= "static-"@ + slug(v@).take(i as int),
        decreases v@.len() - i,
    {
        let c: char = v[i];
        if c.is_alphanumeric() {
            id.push(c);
        } else {
            id.push('-');
        }
        i = i + 1;
    }
    proof {
        assert(slug(v@).take(i as int) =~= slug(v@));
    }
    DiscoveredEndpoint {
        id,
        name,
        base_url,
        models: probed.models,
        source: "static".to_owned(),
        hive_id: probed.hive_id,
        paths: probed.paths,
        model_meta: probed.model_meta,
    }
}

/// Whether a base URL is a bare server root: without a trailing slash and without
/// the OpenAI prefix.
pub open spec fn is_root(b: Seq<char>) -> bool {
    b.len() > 0 && b.last() != '/' && !has_v1(b)
}

/// Nothing is stripped from a text that does not end in a slash.
proof fn lemma_bare_of_bare(b: Seq<char>)
    ensures
        b.len() == 0 || b.last() != '/' ==> bare(b) == b,
{
}

/// A base URL with the OpenAI prefix and the bare root before it reach the same
/// API: the prefix is never doubled, and routes next to it are found.
pub proof fn law_prefix_not_doubled(b: Seq<char>, path: Seq<char>)
    requires
        is_root(b),
    ensures
        models_url_of(b + "/v1"@) == models_url_of(b),
        server_root_of(b + "/v1"@) == b,
        server_root_of(b) == b,
        upstream_path_of(b + "/v1"@, path) == upstream_path_of(b, path),
        upstream_path_of(b, path) == b + path,
{
    reveal_strlit("/v1");
    reveal_strlit("/models");
    reveal_strlit("/v1/models");
    let v = b + "/v1"@;
    assert(v.last() == '1');
    lemma_bare_of_bare(v);
    lemma_bare_of_bare(b);
    assert("/v1"@.is_suffix_of(v));
    assert(v.take(v.len() - 3) =~= b);
    assert("/v1"@ + "/models"@ =~= "/v1/models"@);
    assert(v + "/models"@ =~= b + "/v1/models"@);
    if "/v1"@.is_prefix_of(path) {
        assert(path =~= "/v1"@ + path.skip(3));
        assert(v + path.skip(3) =~= b + path);
    }
}

/// Stripping slashes twice is stripping them once.
proof fn lemma_bare_idempotent(s: Seq<char>)
    ensures
        bare(bare(s)) == bare(s),
    decreases s.len(),
{
    if s.len() > 0 && s.last() == '/' {
        lemma_bare_idempotent(s.drop_last());
    }
}

/// A URL that was normalized and still has its scheme stays as it is.
pub proof fn law_normalized_stable(raw: Seq<char>)
    requires
        find(normalized(raw), "://"@, 0) is Some,
    ensures
        normalized(normalized(raw)) == normalized(raw),
{
    lemma_bare_idempotent(raw);
    lemma_bare_idempotent("http://"@ + raw);
}

/// Slashes at the end of a base URL do not matter.
pub proof fn law_trailing_slash(b: Seq<char>, path: Seq<char>)
    ensures
        b.len() > 0 && b.last() != '/' ==> bare(b) == b,
        bare(b.push('/')) == bare(b),
        models_url_of(b.push('/')) == models_url_of(b),
        server_root_of(b.push('/')) == server_root_of(b),
        upstream_path_of(b.push('/'), path) == upstream_path_of(b, path),
        find(b, "://"@, 0) is Some || !b.contains(':') ==> normalized(b.push('/')) == normalized(b),
{
    let s = b.push('/');
    assert(s.drop_last() =~= b);
    let t = "http://"@ + s;
    assert(t.last() == '/');
    assert(t.drop_last() =~= "http://"@ + b);
    reveal_strlit("://");
    lemma_find_least(b, "://"@, 0);
    lemma_find_least(s, "://"@, 0);
    if let Some(i) = find(b, "://"@, 0) {
        assert(s.subrange(i, i + 3) =~= b.subrange(i, i + 3));
        assert(occurs_at(s, "://"@, i));
    } else if let Some(i) = find(s, "://"@, 0) {
        assert(s.subrange(i, i + 3)[0] == s[i]);
        assert(b[i] == ':');
    }
}

/// The models of a server are listed below its root.
pub proof fn law_models_below_root(b: Seq<char>)
    requires
        is_root(b),
    ensures
        models_url_of(b) == b + "/v1/models"@,
        models_url_of(b + "/v1"@) == b + "/v1/models"@,
{
    law_prefix_not_doubled(b, Seq::empty());
}

/// Where a port was found is told by what published it: a container first, then the list
/// of well-known ports.
pub proof fn law_local_source(port: u16, docker_ports: Seq<u16>)
    ensures
        local_source(port, docker_ports) == "docker"@ <==> docker_ports.contains(port),
        local_source(port, docker_ports) == "well-known-port"@ <==> !docker_ports.contains(port)
            && default_ports().contains(port),
        local_source(port, docker_ports) == "ss-listener"@ <==> !docker_ports.contains(port)
            && !default_ports().contains(port),
{
    reveal_strlit("docker");
    reveal_strlit("well-known-port");
    reveal_strlit("ss-listener");
    assert("docker"@.len() == 6 && "well-known-port"@.len() == 15 && "ss-listener"@.len() == 11);
}

/// A URL with a scheme keeps it, and one without gets `http://`.
pub proof fn law_default_scheme(scheme: Seq<char>, rest: Seq<char>, raw: Seq<char>)
    requires
        !raw.contains(':'),
    ensures
        normalized(scheme + "://"@ + rest) == bare(scheme + "://"@ + rest),
        normalized(raw) == bare("http://"@ + raw),
{
    reveal_strlit("://");
    let s = scheme + "://"@ + rest;
    let n = scheme.len() as int;
    assert(s.subrange(n, n + 3) =~= "://"@);
    lemma_find_least(s, "://"@, 0);
    assert(occurs_at(s, "://"@, n));
    lemma_find_least(raw, "://"@, 0);
    if let Some(i) = find(raw, "://"@, 0) {
        assert(raw.subrange(i, i + 3)[0] == raw[i]);
        assert(raw.contains(raw[i]));
    }
}

/// The rest of a URL follows its scheme.
pub proof fn law_after_scheme(scheme: Seq<char>, rest: Seq<char>)
    requires
        !scheme.contains(':'),
        find(rest, "://"@, 0) is None,
    ensures
        after_scheme(scheme + "://"@ + rest) == rest,
        after_scheme(rest) == rest,
{
    reveal_strlit("://");
    let s = scheme + "://"@ + rest;
    let n = scheme.len() as int;
    assert(s.subrange(n, n + 3) =~= "://"@);
    assert forall|i: int| 0 <= i < n implies !#[trigger] occurs_at(s, "://"@, i) by {
        if occurs_at(s, "://"@, i) {
            assert(s.subrange(i, i + 3)[0] == s[i]);
            assert(scheme.contains(scheme[i]));
        }
    }
    lemma_first_place(s, "://"@, 0, n);
    assert(s.skip(n + 3) =~= rest);
    assert(after_scheme(rest) == rest);
    assert(after_scheme(s) == after_scheme(s.skip(n + 3)));
}

/// A text is cut before the first of a character; without one it is whole.
pub proof fn law_before_first(a: Seq<char>, c: char, b: Seq<char>)
    requires
        !a.contains(c),
    ensures
        before_first(a + seq![c] + b, c) == a,
        before_first(a, c) == a,
{
    let s = a + seq![c] + b;
    let n = a.len() as int;
    assert(s.subrange(n, n + 1) =~= seq![c]);
    assert forall|i: int| 0 <= i < n implies !#[trigger] occurs_at(s, seq![c], i) by {
        assert(s.subrange(i, i + 1)[0] == s[i]);
        assert(a.contains(a[i]));
    }
    lemma_first_place(s, seq![c], 0, n);
    assert(s.take(n) =~= a);
    lemma_find_least(a, seq![c], 0);
    if let Some(i) = find(a, seq![c], 0) {
        assert(a.subrange(i, i + 1)[0] == a[i]);
        assert(a.contains(a[i]));
    }
}

/// An id keeps the letters and digits of a URL, each in its place, and has hyphens for
/// everything else.
pub proof fn law_slug(s: Seq<char>, i: int)
    requires
        0 <= i < s.len(),
    ensures
        slug(s).len() == s.len(),
        'a' <= s[i] <= 'z' || 'A' <= s[i] <= 'Z' || '0' <= s[i] <= '9' ==> slug(s)[i] == s[i],
        s[i] == '.' || s[i] == ':' || s[i] == '/' || s[i] == '_' ==> slug(s)[i] == '-',
        slug(s)[i] == s[i] || slug(s)[i] == '-',
{
}

/// A local port that answers is a backend on this machine that serves what the probe
/// found; two ports never share an id or a base URL.
pub proof fn law_found_on(
    port: u16,
    other: u16,
    probed: ProbedV,
    docker_ports: Seq<u16>,
    names: Map<u16, Seq<char>>,
)
    ensures
        ({
            let e = found_on(port, probed, docker_ports, names);
            let f = found_on(other, probed, docker_ports, names);
            &&& e.base_url == "http://127.0.0.1:"@ + decimal(port as nat)
            &&& e.models == probed.models && e.hive_id == probed.hive_id
            &&& e.paths == probed.paths && e.model_meta == probed.model_meta
            &&& e.source == local_source(port, docker_ports) && e.name == hint(port, names)
            &&& e.id == f.id || e.base_url == f.base_url ==> port == other
        }),
{
    let (p, q) = (decimal(port as nat), decimal(other as nat));
    let (a, b) = ("http-127.0.0.1-"@, "http://127.0.0.1:"@);
    if a + p == a + q {
        assert(p =~= (a + p).skip(a.len() as int));
        assert(q =~= (a + q).skip(a.len() as int));
    }
    if b + p == b + q {
        assert(p =~= (b + p).skip(b.len() as int));
        assert(q =~= (b + q).skip(b.len() as int));
    }
    if p == q {
        lemma_decimal_injective(port as nat, other as nat);
    }
}

/// A backend that the operator named is reached at the URL that was given, serves what
/// the probe found and is marked as the operator's; its name is its host.
pub proof fn law_pinned_at(host: Seq<char>, probed: ProbedV)
    requires
        host.len() > 0,
        !host.contains(':'),
        !host.contains('/'),
    ensures
        ({
            let e = pinned_at(host, probed);
            &&& e.base_url == "http://"@ + host && e.name == host
            &&& e == pinned_at("http://"@ + host, probed)
            &&& e.source == "static"@
            &&& e.models == probed.models && e.hive_id == probed.hive_id
            &&& e.paths == probed.paths && e.model_meta == probed.model_meta
        }),
{
    reveal_strlit("http");
    reveal_strlit("://");
    reveal_strlit("http://");
    let url = "http://"@ + host;
    assert(url =~= "http"@ + "://"@ + host);
    assert(url.last() == host[host.len() - 1]);
    assert(host.contains(host[host.len() - 1]));
    lemma_bare_of_bare(url);
    law_default_scheme("http"@, host, host);
    lemma_find_least(host, "://"@, 0);
    if let Some(i) = find(host, "://"@, 0) {
        assert(host.subrange(i, i + 3)[0] == host[i]);
        assert(host.contains(host[i]));
    }
    law_after_scheme("http"@, host);
    law_before_first(host, '/', Seq::empty());
}

} // verus!
