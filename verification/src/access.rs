//! Who may use the hive: API keys and browser origins.
use crate::deep::{deep_chars, lemma_deep_push, lemma_filter};
use crate::discovery::before_first;
use crate::hive::request::{list_items, split_list};
use crate::text::{
    chars_of, find, find_chars, law_ascii_space, law_strip_frame, lemma_find_least,
    lemma_first_place, lemma_utf8_injective, occurs_at, starts_with, str_eq, string_of, strip, trim,
    Class,
};
use vstd::prelude::*;
use vstd::string::*;
use vstd::utf8::encode_utf8;

verus! {

broadcast use deep_chars;

/// Compares without leaking the position of the first mismatch.
pub fn constant_time_eq(a: &[u8], b: &[u8]) -> (r: bool)
    ensures
        r == (a@ == b@),
{
    if a.len() != b.len() {
        return false;
    }
    let mut acc: u8 = 0;
    let mut i: usize = 0;
    proof {
        assert(a@.take(0) =~= b@.take(0));
    }
    while i < a.len()
        invariant
            i <= a@.len(),
            a@.len() == b@.len(),
            acc == 0 <==> a@.take(i as int) == b@.take(i as int),
        decreases a@.len() - i,
    {
        let x: u8 = a[i];
        let y: u8 = b[i];
        let next: u8 = acc | (x ^ y);
        proof {
            assert((acc | (x ^ y)) == 0u8 <==> (acc == 0u8 && x == y)) by (bit_vector);
            let (p, q) = (a@.take(i + 1), b@.take(i + 1));
            assert(p.drop_last() =~= a@.take(i as int));
            assert(q.drop_last() =~= b@.take(i as int));
            assert(p.last() == x && q.last() == y);
            if acc == 0 && x == y {
                assert(p =~= p.drop_last().push(x));
                assert(q =~= q.drop_last().push(y));
            }
        }
        acc = next;
        i = i + 1;
    }
    proof {
        assert(a@.take(i as int) =~= a@);
        assert(b@.take(i as int) =~= b@);
    }
    acc == 0
}

/// The `Authorization` header that a key asks for.
pub open spec fn bearer(api_key: Seq<char>) -> Seq<u8> {
    encode_utf8("Bearer "@ + api_key)
}

/// The `Authorization` header that a key asks for.
pub fn expected_header(api_key: &str) -> (r: Vec<u8>)
    ensures
        r@ == bearer(api_key@),
{
    let mut s = "Bearer ".to_owned();
    s.append(api_key);
    vstd::slice::slice_to_vec(s.as_str().as_bytes())
}

/// Whether a request with a header, or without one, is let in.
pub open spec fn admitted(expected: Seq<u8>, path: Seq<char>, presented: Option<Seq<u8>>) -> bool {
    path == "/health"@ || (match presented {
        Some(p) => p,
        None => Seq::empty(),
    }) == expected
}

/// Whether a request is let in: one for `/health` always (health checks carry no
/// credentials), any other with exactly the expected header.
pub fn require_api_key(expected: &[u8], path: &str, presented: Option<&[u8]>) -> (r: bool)
    ensures
        r == (path@ == "/health"@ || (match presented {
            Some(p) => p@,
            None => Seq::empty(),
        }) == expected@),
        r == admitted(
            expected@,
            path@,
            match presented {
                Some(p) => Some(p@),
                None => None,
            },
        ),
{
    if str_eq(path, "/health") {
        return true;
    }
    match presented {
        Some(p) => constant_time_eq(p, expected),
        None => {
            let nothing: [u8; 0] = [];
            proof {
                assert(nothing@ =~= Seq::<u8>::empty());
            }
            constant_time_eq(nothing.as_slice(), expected)
        },
    }
}

/// What follows the scheme of a page's origin.
pub open spec fn origin_rest(origin: Seq<char>) -> Option<Seq<char>> {
    if "http://"@.is_prefix_of(origin) {
        Some(origin.skip(7))
    } else if "https://"@.is_prefix_of(origin) {
        Some(origin.skip(8))
    } else {
        None
    }
}

/// Whether a host, with or without a port, is this machine.
pub open spec fn is_local_host(rest: Seq<char>) -> bool {
    if "[::1]"@.is_prefix_of(rest) {
        let port = rest.skip(5);
        port.len() == 0 || port.first() == ':'
    } else {
        let host = before_first(rest, ':');
        host == "localhost"@ || host == "127.0.0.1"@
    }
}

/// Whether a browser page was served from this machine.
pub open spec fn is_local(origin: Seq<char>) -> bool {
    match origin_rest(origin) {
        Some(rest) => is_local_host(rest),
        None => false,
    }
}

/// Whether a browser page was served from this machine, on any port.
pub fn is_local_origin(origin: &str) -> (r: bool)
    ensures
        r == is_local(origin@),
{
    let v = chars_of(origin);
    let http = chars_of("http://");
    let https = chars_of("https://");
    let ipv6 = chars_of("[::1]");
    proof {
        reveal_strlit("http://");
        reveal_strlit("https://");
        reveal_strlit("[::1]");
    }
    let n: usize = v.len();
    let rest = if starts_with(v.as_slice(), http.as_slice()) {
        vstd::slice::slice_subrange(v.as_slice(), 7, n)
    } else if starts_with(v.as_slice(), https.as_slice()) {
        vstd::slice::slice_subrange(v.as_slice(), 8, n)
    } else {
        return false;
    };
    proof {
        assert(rest@ =~= origin_rest(origin@)->0);
    }
    if starts_with(rest, ipv6.as_slice()) {
        return rest.len() == 5 || rest[5] == ':';
    }
    let colon: [char; 1] = [':'];
    proof {
        assert(colon@ =~= seq![':']);
    }
    let host = match find_chars(rest, colon.as_slice(), 0) {
        Some(i) => string_of(vstd::slice::slice_subrange(rest, 0, i)),
        None => string_of(rest),
    };
    str_eq(host.as_str(), "localhost") || str_eq(host.as_str(), "127.0.0.1")
}

/// Whether bytes can be the value of a header: none is a control character but
/// the tab.
pub open spec fn can_be_header(bytes: Seq<u8>) -> bool {
    forall|i: int|
        0 <= i < bytes.len() ==> (#[trigger] bytes[i] >= 32 && bytes[i] != 127) || bytes[i] == 9
}

/// Calls `http::HeaderValue::from_str`, which refuses exactly the bytes below 32
/// but the tab, and 127.
#[verifier::external_body]
fn is_header_value(s: &str) -> (r: bool)
    ensures
        r == can_be_header(encode_utf8(s@)),
{
    axum::http::HeaderValue::from_str(s).is_ok()
}

/// Which browser pages may call the hive.
#[derive(Debug)]
pub enum CorsPolicy {
    /// None.
    Disabled,
    /// All.
    Any,
    /// Those served from this machine.
    Local,
    /// Those of the listed origins.
    List(Vec<String>),
}

/// What a [`CorsPolicy`] stands for.
pub enum CorsV {
    Disabled,
    Any,
    Local,
    List(Seq<Seq<char>>),
}

impl View for CorsPolicy {
    type V = CorsV;

    open spec fn view(&self) -> CorsV {
        match self {
            CorsPolicy::Disabled => CorsV::Disabled,
            CorsPolicy::Any => CorsV::Any,
            CorsPolicy::Local => CorsV::Local,
            CorsPolicy::List(l) => CorsV::List(l.deep_view()),
        }
    }
}

/// The origins of a list that can be headers.
pub open spec fn usable_origins(list: Seq<char>) -> Seq<Seq<char>> {
    list_items(list).filter(|o: Seq<char>| can_be_header(encode_utf8(o)))
}

/// The policy that a setting asks for.
pub open spec fn cors_of(setting: Seq<char>) -> CorsV {
    let s = strip(setting, Class::Space);
    if s == ""@ {
        CorsV::Disabled
    } else if s == "*"@ {
        CorsV::Any
    } else if s == "local"@ {
        CorsV::Local
    } else if usable_origins(s).len() == 0 {
        CorsV::Disabled
    } else {
        CorsV::List(usable_origins(s))
    }
}

/// The policy that a setting asks for: nothing, `*`, `local` or a comma-separated
/// list of origins. Origins that cannot be headers are skipped.
pub fn cors_layer(setting: &str) -> (r: CorsPolicy)
    ensures
        r@ == cors_of(setting@),
{
    let v = chars_of(setting);
    let s = string_of(trim(v.as_slice(), Class::Space));
    if str_eq(s.as_str(), "") {
        return CorsPolicy::Disabled;
    }
    if str_eq(s.as_str(), "*") {
        return CorsPolicy::Any;
    }
    if str_eq(s.as_str(), "local") {
        return CorsPolicy::Local;
    }
    let items = split_list(s.as_str());
    let ghost all = items@;
    let ghost l = items.deep_view();
    let ghost keep = |o: Seq<char>| can_be_header(encode_utf8(o));
    let mut out: Vec<String> = Vec::new();
    proof {
        reveal(Seq::filter);
        assert(out.deep_view() =~= l.take(0).filter(keep));
    }
    for o in it: items
        invariant
            it.seq() == all,
            l.len() == all.len(),
            forall|k: int| 0 <= k < all.len() ==> l[k] == all[k]@,
            keep == (|o: Seq<char>| can_be_header(encode_utf8(o))),
            out.deep_view() == l.take(it.index() as int).filter(keep),
    {
        proof {
            reveal(Seq::filter);
            assert(l.take(it.index() + 1).drop_last() =~= l.take(it.index() as int));
            assert(l.take(it.index() + 1).last() == o@);
        }
        if is_header_value(o.as_str()) {
            let ghost before = out;
            out.push(o);
            proof {
                lemma_deep_push(before, out, o);
            }
        }
    }
    proof {
        assert(l.take(l.len() as int) =~= l);
    }
    if out.len() == 0 {
        CorsPolicy::Disabled
    } else {
        CorsPolicy::List(out)
    }
}

/// A header lets in exactly the requests that carry the same key; without one, nothing
/// but health checks is let in.
pub proof fn law_only_the_key(key: Seq<char>, other: Seq<char>, path: Seq<char>, bytes: Seq<u8>)
    ensures
        admitted(bearer(key), path, Some(bearer(other))) <==> path == "/health"@ || other == key,
        admitted(bearer(key), path, None) <==> path == "/health"@,
        admitted(bearer(key), path, Some(bytes)) ==> path == "/health"@ || bytes == encode_utf8(
            "Bearer "@ + key,
        ),
{
    let (a, b) = ("Bearer "@ + key, "Bearer "@ + other);
    reveal_strlit("Bearer ");
    if encode_utf8(a) == encode_utf8(b) {
        lemma_utf8_injective(a, b);
        assert(key =~= a.skip(7));
        assert(other =~= b.skip(7));
    }
    if encode_utf8(a) == Seq::<u8>::empty() {
        vstd::utf8::encode_utf8_decode_utf8(a);
        let none = Seq::<char>::empty();
        assert(encode_utf8(none) =~= Seq::<u8>::empty());
        lemma_utf8_injective(a, none);
        assert(a.len() >= 7);
    }
}

/// Whether an origin is a scheme and a host, with or without a port.
pub open spec fn served_from(origin: Seq<char>, scheme: Seq<char>, host: Seq<char>) -> bool {
    let start = scheme + host;
    start.is_prefix_of(origin) && (origin.len() == start.len() || origin[start.len() as int] == ':')
}

/// The pages of this machine are those that it serves over HTTP or HTTPS under the names
/// that it has for itself, on any port.
pub proof fn law_local_origins(origin: Seq<char>)
    ensures
        is_local(origin) <==> {
            ||| served_from(origin, "http://"@, "localhost"@)
            ||| served_from(origin, "http://"@, "127.0.0.1"@)
            ||| served_from(origin, "http://"@, "[::1]"@)
            ||| served_from(origin, "https://"@, "localhost"@)
            ||| served_from(origin, "https://"@, "127.0.0.1"@)
            ||| served_from(origin, "https://"@, "[::1]"@)
        },
{
    reveal_strlit("http://");
    reveal_strlit("https://");
    if "http://"@.is_prefix_of(origin) {
        lemma_local_rest(origin, "http://"@);
        assert(origin[4] == "http://"@[4]);
        assert(!"https://"@.is_prefix_of(origin)) by {
            if "https://"@.is_prefix_of(origin) {
                assert(origin[4] == "https://"@[4]);
            }
        }
        lemma_not_served(origin, "https://"@);
    } else {
        lemma_not_served(origin, "http://"@);
        if "https://"@.is_prefix_of(origin) {
            lemma_local_rest(origin, "https://"@);
        } else {
            lemma_not_served(origin, "https://"@);
        }
    }
}

/// An origin of another scheme is not served from any host of this one.
proof fn lemma_not_served(origin: Seq<char>, scheme: Seq<char>)
    requires
        !scheme.is_prefix_of(origin),
    ensures
        forall|host: Seq<char>| !#[trigger] served_from(origin, scheme, host),
{
    assert forall|host: Seq<char>| !#[trigger] served_from(origin, scheme, host) by {
        if served_from(origin, scheme, host) {
            assert(scheme =~= (scheme + host).subrange(0, scheme.len() as int));
            assert forall|i: int| 0 <= i < scheme.len() implies scheme[i] == origin[i] by {
                assert((scheme + host)[i] == origin[i]);
            }
            assert(scheme =~= origin.subrange(0, scheme.len() as int));
        }
    }
}

/// The local hosts behind a scheme.
proof fn lemma_local_rest(origin: Seq<char>, scheme: Seq<char>)
    requires
        scheme.is_prefix_of(origin),
    ensures
        ({
            let rest = origin.skip(scheme.len() as int);
            is_local_host(rest) <==> {
                ||| served_from(origin, scheme, "localhost"@)
                ||| served_from(origin, scheme, "127.0.0.1"@)
                ||| served_from(origin, scheme, "[::1]"@)
            }
        }),
{
    let rest = origin.skip(scheme.len() as int);
    reveal_strlit("localhost");
    reveal_strlit("127.0.0.1");
    reveal_strlit("[::1]");
    lemma_served_rest(origin, scheme, "localhost"@);
    lemma_served_rest(origin, scheme, "127.0.0.1"@);
    lemma_served_rest(origin, scheme, "[::1]"@);
    lemma_host(rest, "localhost"@);
    lemma_host(rest, "127.0.0.1"@);
    if "[::1]"@.is_prefix_of(rest) {
        assert(rest[0] == "[::1]"@[0]);
        assert(!served_from(rest, Seq::empty(), "localhost"@)) by {
            if served_from(rest, Seq::empty(), "localhost"@) {
                assert(Seq::<char>::empty() + "localhost"@ =~= "localhost"@);
                assert(rest[0] == "localhost"@[0]);
            }
        }
        assert(!served_from(rest, Seq::empty(), "127.0.0.1"@)) by {
            if served_from(rest, Seq::empty(), "127.0.0.1"@) {
                assert(Seq::<char>::empty() + "127.0.0.1"@ =~= "127.0.0.1"@);
                assert(rest[0] == "127.0.0.1"@[0]);
            }
        }
    }
    assert(Seq::<char>::empty() + "[::1]"@ =~= "[::1]"@);
}

/// Where an origin is served from is what follows its scheme.
proof fn lemma_served_rest(origin: Seq<char>, scheme: Seq<char>, host: Seq<char>)
    requires
        scheme.is_prefix_of(origin),
    ensures
        served_from(origin, scheme, host) <==> served_from(
            origin.skip(scheme.len() as int),
            Seq::empty(),
            host,
        ),
{
    let rest = origin.skip(scheme.len() as int);
    let start = scheme + host;
    assert(Seq::<char>::empty() + host =~= host);
    assert(origin =~= scheme + rest);
    if host.is_prefix_of(rest) {
        assert(start =~= origin.subrange(0, start.len() as int));
    }
    if start.is_prefix_of(origin) {
        assert forall|i: int| 0 <= i < host.len() implies host[i] == rest[i] by {
            assert(start[scheme.len() + i] == origin[scheme.len() + i]);
        }
        assert(host =~= rest.subrange(0, host.len() as int));
    }
}

/// A host is what stands before the port.
proof fn lemma_host(rest: Seq<char>, host: Seq<char>)
    requires
        forall|i: int| 0 <= i < host.len() ==> #[trigger] host[i] != ':',
    ensures
        before_first(rest, ':') == host <==> served_from(rest, Seq::empty(), host),
{
    assert(Seq::<char>::empty() + host =~= host);
    lemma_find_least(rest, seq![':'], 0);
    if served_from(rest, Seq::empty(), host) {
        let n = host.len() as int;
        assert forall|i: int| 0 <= i < n implies !#[trigger] occurs_at(rest, seq![':'], i) by {
            assert(rest.subrange(i, i + 1)[0] == rest[i]);
            assert(rest[i] == host[i]);
        }
        if rest.len() > n {
            assert(rest.subrange(n, n + 1) =~= seq![':']);
            lemma_first_place(rest, seq![':'], 0, n);
            assert(rest.take(n) =~= host);
        } else {
            if let Some(i) = find(rest, seq![':'], 0) {
                assert(occurs_at(rest, seq![':'], i));
                assert(rest.subrange(i, i + 1)[0] == rest[i]);
            }
            assert(rest =~= host);
        }
    } else if let Some(i) = find(rest, seq![':'], 0) {
        assert(rest.subrange(i, i + 1)[0] == rest[i]);
        if rest.take(i) == host {
            assert(host =~= rest.subrange(0, i));
        }
    } else {
        assert(rest == host ==> host =~= rest.subrange(0, host.len() as int));
    }
}

/// A setting of nothing but space lets no page in, `*` every page and `local` the pages
/// of this machine, whatever space is round them.
pub proof fn law_cors_words(a: Seq<char>, b: Seq<char>)
    requires
        forall|i: int| 0 <= i < a.len() ==> Class::Space.has(#[trigger] a[i]),
        forall|i: int| 0 <= i < b.len() ==> Class::Space.has(#[trigger] b[i]),
    ensures
        cors_of(a) is Disabled,
        cors_of(a + "*"@ + b) is Any,
        cors_of(a + "local"@ + b) is Local,
{
    let none = Seq::<char>::empty();
    reveal_strlit("");
    reveal_strlit("*");
    reveal_strlit("local");
    assert("*"@.first() == '*' && "*"@.last() == '*');
    assert("local"@.first() == 'l' && "local"@.last() == 'l');
    law_ascii_space('*');
    law_ascii_space('l');
    law_strip_frame(a, none, none, Class::Space);
    assert(a + none + none =~= a);
    law_strip_frame(a, "*"@, b, Class::Space);
    law_strip_frame(a, "local"@, b, Class::Space);
    assert(none =~= ""@);
    assert("local"@.len() == 5 && "*"@.len() == 1);
}

/// Any other setting is a list of origins: those that it lists and that can be the value
/// of a header are let in, and no others; where there are none, no page is.
pub proof fn law_cors_list(setting: Seq<char>, origin: Seq<char>)
    requires
        strip(setting, Class::Space) != ""@,
        strip(setting, Class::Space) != "*"@,
        strip(setting, Class::Space) != "local"@,
    ensures
        ({
            let listed = list_items(strip(setting, Class::Space)).contains(origin)
                && can_be_header(encode_utf8(origin));
            match cors_of(setting) {
                CorsV::List(l) => l.contains(origin) <==> listed,
                CorsV::Disabled => !listed,
                _ => false,
            }
        }),
{
    let s = strip(setting, Class::Space);
    lemma_filter(list_items(s), |o: Seq<char>| can_be_header(encode_utf8(o)), origin);
}

/// A control character other than the tab cannot stand in a header, and any other byte
/// can.
pub proof fn law_header_bytes(bytes: Seq<u8>, b: u8)
    ensures
        can_be_header(Seq::empty()),
        can_be_header(bytes.push(b)) <==> can_be_header(bytes) && (b == 9 || (32 <= b && b != 127)),
{
    let all = bytes.push(b);
    if can_be_header(all) {
        assert(all[bytes.len() as int] == b);
        assert forall|i: int| 0 <= i < bytes.len() implies (#[trigger] bytes[i] >= 32 && bytes[i]
            != 127) || bytes[i] == 9 by {
            assert(all[i] == bytes[i]);
        }
    }
}

} // verus!
