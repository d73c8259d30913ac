//! The hive: its members, their loads, and what it does with requests.
//!
//! [`Hive`] is the state that routing decisions are made on. Its operations
//! take the time of a call, in milliseconds of a clock that never goes back,
//! and the answers of backends as plain values.
use crate::deep::Dup;
use crate::discovery::{Credentials, CredentialsV, DiscoveredEndpoint, EndpointV};
use crate::hive::proxy::{Outcome, OutcomeV};
use crate::load::Load;
use crate::logging::{
    cut_json, logged_response, logged_value, truncate_value, EntryV, LogEntry, Truncate,
};
use crate::table::Table;
use crate::text::chars_of;
use vstd::prelude::*;
use vstd::string::*;

pub mod expiry;
pub mod loads;
pub mod membership;
pub mod paths;
pub mod proxy;
pub mod replies;
pub mod request;
pub mod routing;
pub mod view;

pub use self::request::{LoadQuery, ModelQuery, QueriesQuery};
pub use self::view::{BackendInfo, BackendsView, ModelBackends};

verus! {

/// Default consecutive failed scans before a member leaves.
pub const DEFAULT_DROP_AFTER: u32 = 3;

/// Default largest request body: room for long contexts and a few base64 images.
pub const DEFAULT_MAX_BODY: usize = 67108864;

/// Upstream connect timeout default, in seconds: a dead host fails over quickly.
pub const DEFAULT_CONNECT_TIMEOUT: u64 = 5;

/// Upstream read (idle) timeout default, in seconds.
pub const DEFAULT_READ_TIMEOUT: u64 = 600;

/// How long a backend that failed a request stays ranked last, in milliseconds.
pub const FAILURE_COOLDOWN: u64 = 15000;

/// Most routes advertised per model.
pub const MAX_ADVERTISED_PATHS: usize = 8;

/// The state of a hive.
pub struct Hive {
    /// Port the hive itself listens on, never discovered.
    own_port: u16,
    /// Instance id: stamped on every response and appended to the Via path of
    /// forwarded requests.
    own_id: String,
    log_truncate: Truncate,
    log_max_chars: usize,
    /// Whether a client's `Authorization` header is passed on to backends.
    forward_auth: bool,
    /// API keys of backends; a backend's own key wins over a client's token.
    credentials: Credentials,
    /// Largest accepted request body (`None` = unlimited).
    max_body: Option<usize>,
    /// Consecutive missed scans before a member leaves (1 = at once).
    drop_after: u32,
    endpoints: Vec<DiscoveredEndpoint>,
    /// (endpoint id, model) to last polled load.
    loads: Table<(String, String), Load>,
    /// Base URL to requests currently being served by the hive.
    inflight: Table<String, u64>,
    /// Base URL to the time until which the backend is ranked last.
    cooldown: Table<String, u64>,
    /// Base URL to consecutive scans a member has been missing from.
    missed_scans: Table<String, u32>,
    /// Model to round-robin counter, advanced once per routing decision.
    rr: Table<String, usize>,
    /// Last rendered view.
    last_view: String,
}

/// What the state of a hive stands for.
pub struct HiveV {
    pub own_port: u16,
    pub own_id: Seq<char>,
    pub log_truncate: Truncate,
    pub log_max_chars: usize,
    pub forward_auth: bool,
    pub credentials: CredentialsV,
    pub max_body: Option<usize>,
    pub drop_after: u32,
    pub endpoints: Seq<EndpointV>,
    pub loads: Map<(Seq<char>, Seq<char>), Load>,
    pub inflight: Map<Seq<char>, u64>,
    pub cooldown: Map<Seq<char>, u64>,
    pub missed_scans: Map<Seq<char>, u32>,
    pub rr: Map<Seq<char>, usize>,
    pub last_view: Seq<char>,
}

/// Whether every count can grow by one.
pub open spec fn can_grow(counts: Map<Seq<char>, u32>) -> bool {
    forall|url: Seq<char>| #[trigger] counts.contains_key(url) ==> counts[url] < u32::MAX
}

impl HiveV {
    /// A member is kept for at least one scan, and the count of missed scans can
    /// always grow by one.
    pub open spec fn wf(self) -> bool {
        self.drop_after >= 1 && can_grow(self.missed_scans)
    }
}

impl View for Hive {
    type V = HiveV;

    closed spec fn view(&self) -> HiveV {
        HiveV {
            own_port: self.own_port,
            own_id: self.own_id@,
            log_truncate: self.log_truncate,
            log_max_chars: self.log_max_chars,
            forward_auth: self.forward_auth,
            credentials: self.credentials@,
            max_body: self.max_body,
            drop_after: self.drop_after,
            endpoints: self.endpoints.deep_view(),
            loads: self.loads@,
            inflight: self.inflight@,
            cooldown: self.cooldown@,
            missed_scans: self.missed_scans@,
            rr: self.rr@,
            last_view: self.last_view@,
        }
    }
}

/// The state of a hive without members.
pub open spec fn fresh_hive(own_port: u16, own_id: Seq<char>) -> HiveV {
    HiveV {
        own_port,
        own_id,
        log_truncate: Truncate::Off,
        log_max_chars: 2000,
        forward_auth: false,
        credentials: CredentialsV::empty(),
        max_body: Some(DEFAULT_MAX_BODY),
        drop_after: DEFAULT_DROP_AFTER,
        endpoints: Seq::empty(),
        loads: Map::empty(),
        inflight: Map::empty(),
        cooldown: Map::empty(),
        missed_scans: Map::empty(),
        rr: Map::empty(),
        last_view: Seq::empty(),
    }
}

/// The log entry of an outcome.
pub open spec fn entry_of(
    h: HiveV,
    ts: Seq<char>,
    route: Seq<char>,
    o: OutcomeV,
    latency_ms: u64,
) -> EntryV {
    let max = h.log_max_chars as nat;
    EntryV {
        ts,
        route,
        model: o.model,
        upstream: o.upstream,
        stream: o.stream,
        status: o.status,
        latency_ms,
        usage: o.usage,
        error: o.error,
        request: logged_value(o.request, h.log_truncate, max),
        response: match o.response {
            Some(x) => Some(logged_response(x, h.log_truncate, max)),
            None => None,
        },
    }
}

impl Hive {
    /// A hive without members that listens on `own_port`, with a random instance id.
    pub fn new(own_port: u16) -> (r: Self)
        ensures
            r@ == fresh_hive(own_port, r@.own_id),
            is_hive_id(r@.own_id),
            r@.wf(),
    {
        let r = Hive {
            own_port,
            own_id: new_hive_id(),
            log_truncate: Truncate::Off,
            log_max_chars: 2000,
            forward_auth: false,
            credentials: Credentials::default(),
            max_body: Some(DEFAULT_MAX_BODY),
            drop_after: DEFAULT_DROP_AFTER,
            endpoints: Vec::new(),
            loads: Table::new(),
            inflight: Table::new(),
            cooldown: Table::new(),
            missed_scans: Table::new(),
            rr: Table::new(),
            last_view: String::new(),
        };
        proof {
            assert(r@.endpoints =~= Seq::empty());
        }
        r
    }
}

impl Hive {
    /// The hive with another instance id. It must be a valid header value without
    /// commas (see [`valid_hive_id`]).
    pub fn with_hive_id(self, id: String) -> (r: Self)
        ensures
            r@ == (HiveV { own_id: id@, ..self@ }),
    {
        let mut h = self;
        h.own_id = id;
        h
    }

    /// The hive with another number of consecutive failed scans before a member
    /// leaves; at least one.
    pub fn with_drop_after(self, scans: u32) -> (r: Self)
        ensures
            r@ == (HiveV {
                drop_after: if scans < 1 {
                    1
                } else {
                    scans
                },
                ..self@
            }),
            self@.wf() ==> r@.wf(),
    {
        let mut h = self;
        h.drop_after = if scans < 1 {
            1
        } else {
            scans
        };
        h
    }

    /// The hive with another limit for request bodies (`None` = unlimited).
    pub fn with_max_body(self, max: Option<usize>) -> (r: Self)
        ensures
            r@ == (HiveV { max_body: max, ..self@ }),
    {
        let mut h = self;
        h.max_body = max;
        h
    }

    /// The hive with API keys of backends.
    pub fn with_credentials(self, credentials: Credentials) -> (r: Self)
        ensures
            r@ == (HiveV { credentials: credentials@, ..self@ }),
    {
        let mut h = self;
        h.credentials = credentials;
        h
    }

    /// The hive with or without passing the client's `Authorization` header on.
    pub fn with_forward_auth(self, forward: bool) -> (r: Self)
        ensures
            r@ == (HiveV { forward_auth: forward, ..self@ }),
    {
        let mut h = self;
        h.forward_auth = forward;
        h
    }

    /// The hive with another treatment of long text in its query log.
    pub fn with_log_options(self, truncate: Truncate, max_chars: usize) -> (r: Self)
        ensures
            r@ == (HiveV { log_truncate: truncate, log_max_chars: max_chars, ..self@ }),
    {
        let mut h = self;
        h.log_truncate = truncate;
        h.log_max_chars = max_chars;
        h
    }

    /// The port that the hive itself listens on.
    pub fn own_port(&self) -> (r: u16)
        ensures
            r == self@.own_port,
    {
        self.own_port
    }

    /// The instance id.
    pub fn own_id(&self) -> (r: String)
        ensures
            r@ == self@.own_id,
    {
        self.own_id.clone()
    }

    /// The largest accepted request body.
    pub fn max_body(&self) -> (r: Option<usize>)
        ensures
            r == self@.max_body,
    {
        self.max_body
    }

    /// The members.
    pub fn snapshot(&self) -> (r: Vec<DiscoveredEndpoint>)
        ensures
            r.deep_view() == self@.endpoints,
    {
        self.endpoints.dup()
    }

    /// The requests in flight on a base URL.
    pub fn inflight(&self, base_url: &str) -> (r: u64)
        ensures
            r == routing::flying(self@, base_url@),
    {
        match self.inflight.get(&base_url.to_owned()) {
            Some(n) => *n,
            None => 0,
        }
    }

    /// The last polled load of a model on an endpoint.
    pub fn load_of(&self, id: &str, model: &str) -> (r: Load)
        ensures
            r == routing::polled(self@, id@, model@),
    {
        let key = (id.to_owned(), model.to_owned());
        match self.loads.get(&key) {
            Some(l) => *l,
            None => Load::Unknown,
        }
    }

    /// The round-robin counter of a model, if a request for it was routed.
    pub fn turn(&self, model: &str) -> (r: Option<usize>)
        ensures
            match r {
                Some(n) => self@.rr.contains_key(model@) && n == self@.rr[model@],
                None => !self@.rr.contains_key(model@),
            },
    {
        match self.rr.get(&model.to_owned()) {
            Some(n) => Some(*n),
            None => None,
        }
    }

    /// The log entry of an outcome, long text treated as configured.
    pub fn log_query(&self, ts: String, route: &str, o: Outcome, latency_ms: u64) -> (r: LogEntry)
        ensures
            r@ == (EntryV {
                ts: ts@,
                route: route@,
                model: o@.model,
                upstream: o@.upstream,
                stream: o@.stream,
                status: o@.status,
                latency_ms,
                usage: o@.usage,
                error: o@.error,
                request: logged_value(
                    o@.request,
                    self@.log_truncate,
                    self@.log_max_chars as nat,
                ),
                response: match o@.response {
                    Some(x) => Some(
                        logged_response(x, self@.log_truncate, self@.log_max_chars as nat),
                    ),
                    None => None,
                },
            }),
            r@ == entry_of(self@, ts@, route@, o@, latency_ms),
    {
        let request = truncate_value(o.request, self.log_truncate, self.log_max_chars);
        let response = match o.response {
            Some(x) => Some(x.truncated(self.log_truncate, self.log_max_chars)),
            None => None,
        };
        LogEntry {
            ts,
            route: route.to_owned(),
            model: o.model,
            upstream: o.upstream,
            stream: o.stream,
            status: o.status,
            latency_ms,
            usage: o.usage,
            error: o.error,
            request,
            response,
        }
    }
}

/// The hexadecimal digit for a number below 16.
pub open spec fn hex_digit(n: nat) -> char {
    if n < 10 {
        (0x30 + n) as u8 as char
    } else {
        (0x57 + n) as u8 as char
    }
}

/// The last `width` hexadecimal digits of `n`.
pub open spec fn hex(n: nat, width: nat) -> Seq<char>
    decreases width,
{
    if width == 0 {
        Seq::empty()
    } else {
        hex(n / 16, (width - 1) as nat).push(hex_digit(n % 16))
    }
}

/// The instance id made of 64 bits.
pub open spec fn hive_id_of(bits: u64) -> Seq<char> {
    "hive-"@ + hex(bits as nat, 16)
}

/// Whether a character is visible ASCII.
pub open spec fn is_graphic(c: char) -> bool {
    0x21 <= c as u32 <= 0x7e
}

/// Whether a text can be a hive id.
pub open spec fn is_hive_id(id: Seq<char>) -> bool {
    id.len() > 0 && forall|i: int| 0 <= i < id.len() ==> is_graphic(#[trigger] id[i]) && id[i] != ','
}

/// Appends the last `width` hexadecimal digits of `n`.
fn push_hex(s: &mut String, n: u64, width: u32)
    ensures
        final(s)@ == old(s)@ + hex(n as nat, width as nat),
    decreases width,
{
    if width > 0 {
        push_hex(s, n / 16, width - 1);
        let d: u8 = (n % 16) as u8;
        if d < 10 {
            s.push((0x30 + d) as char);
        } else {
            s.push((0x57 + d) as char);
        }
    }
    proof {
        assert(s@ =~= old(s)@ + hex(n as nat, width as nat));
    }
}

/// The instance id made of 64 bits.
pub fn hive_id(bits: u64) -> (r: String)
    ensures
        r@ == hive_id_of(bits),
{
    let mut s = "hive-".to_owned();
    push_hex(&mut s, bits, 16);
    s
}

/// Hashes nothing with a `std::collections::hash_map::RandomState` of its own,
/// which the standard library seeds at random. Nothing is stated of the result.
#[verifier::external_body]
fn random_bits() -> (r: u64)
{
    let state = std::collections::hash_map::RandomState::new();
    std::hash::Hasher::finish(&std::hash::BuildHasher::build_hasher(&state))
}

/// A random instance id, so that two hives do not share one.
pub fn new_hive_id() -> (r: String)
    ensures
        is_hive_id(r@),
        exists|bits: u64| r@ == hive_id_of(bits),
{
    let bits: u64 = random_bits();
    proof {
        law_hive_id_valid(bits);
    }
    hive_id(bits)
}

/// Whether `id` can be a hive id: a header value that cannot be confused with the
/// separators of a Via path.
pub fn valid_hive_id(id: &str) -> (r: bool)
    ensures
        r == is_hive_id(id@),
{
    let v = chars_of(id);
    if v.len() == 0 {
        return false;
    }
    let mut i: usize = 0;
    while i < v.len()
        invariant
            i <= v@.len(),
            v@ == id@,
            forall|k: int| 0 <= k < i ==> is_graphic(#[trigger] v@[k]) && v@[k] != ',',
        decreases v@.len() - i,
    {
        let c: char = v[i];
        let n: u32 = c as u32;
        if !(0x21 <= n && n <= 0x7e && c != ',') {
            proof {
                assert(!(is_graphic(id@[i as int]) && id@[i as int] != ','));
            }
            return false;
        }
        i = i + 1;
    }
    true
}

/// Hexadecimal digits are visible, and none is a comma.
proof fn lemma_hex_graphic(n: nat, width: nat)
    ensures
        hex(n, width).len() == width,
        forall|i: int|
            0 <= i < width ==> is_graphic(#[trigger] hex(n, width)[i]) && hex(n, width)[i] != ',',
    decreases width,
{
    if width > 0 {
        lemma_hex_graphic(n / 16, (width - 1) as nat);
        let d = hex_digit(n % 16);
        assert(is_graphic(d) && d != ',');
    }
}

/// An instance id made of bits is valid.
pub proof fn law_hive_id_valid(bits: u64)
    ensures
        is_hive_id(hive_id_of(bits)),
{
    reveal_strlit("hive-");
    lemma_hex_graphic(bits as nat, 16);
    let id = hive_id_of(bits);
    assert forall|i: int| 0 <= i < id.len() implies is_graphic(#[trigger] id[i]) && id[i]
        != ',' by {
        if i >= 5 {
            assert(id[i] == hex(bits as nat, 16)[i - 5]);
        }
    }
}

/// Sixteen to a power.
spec fn pow16(width: nat) -> nat
    decreases width,
{
    if width == 0 {
        1
    } else {
        16 * pow16((width - 1) as nat)
    }
}

/// Numbers with the same digits are equal.
proof fn lemma_hex_injective(a: nat, b: nat, width: nat)
    requires
        a < pow16(width),
        b < pow16(width),
        hex(a, width) == hex(b, width),
    ensures
        a == b,
    decreases width,
{
    if width > 0 {
        let x = hex(a, width);
        let y = hex(b, width);
        let w = (width - 1) as nat;
        assert(x.drop_last() =~= hex(a / 16, w));
        assert(y.drop_last() =~= hex(b / 16, w));
        assert(x.last() == hex_digit(a % 16));
        assert(y.last() == hex_digit(b % 16));
        lemma_hex_digit_injective(a % 16, b % 16);
        lemma_hex_injective(a / 16, b / 16, w);
    }
}

/// Different numbers below 16 have different digits.
proof fn lemma_hex_digit_injective(a: nat, b: nat)
    requires
        a < 16,
        b < 16,
        hex_digit(a) == hex_digit(b),
    ensures
        a == b,
{
    let x = hex_digit(a);
    let y = hex_digit(b);
    assert(x as u32 == y as u32);
}

/// Instance ids made of different bits differ.
pub proof fn law_hive_ids_differ(a: u64, b: u64)
    requires
        hive_id_of(a) == hive_id_of(b),
    ensures
        a == b,
{
    let x = hex(a as nat, 16);
    let y = hex(b as nat, 16);
    assert(hive_id_of(a).skip("hive-"@.len() as int) =~= x);
    assert(hive_id_of(b).skip("hive-"@.len() as int) =~= y);
    reveal_with_fuel(pow16, 17);
    assert(pow16(16) == 0x1_0000_0000_0000_0000);
    lemma_hex_injective(a as nat, b as nat, 16);
}

/// A route whose requests are forwarded to a backend that serves their model.
#[derive(Debug, Clone, Copy)]
pub struct Route {
    pub path: &'static str,
    /// What the query log calls it.
    pub label: &'static str,
}

/// The routes whose requests are forwarded: path and label of each.
pub open spec fn forwarded_routes() -> Seq<(Seq<char>, Seq<char>)> {
    seq![
        ("/v1/chat/completions"@, "chat"@),
        ("/v1/completions"@, "completions"@),
        ("/v1/embeddings"@, "embeddings"@),
        ("/v1/responses"@, "responses"@),
        ("/v1/rerank"@, "rerank"@),
        ("/v2/rerank"@, "rerank"@),
        ("/rerank"@, "rerank"@),
        ("/v1/score"@, "score"@),
        ("/score"@, "score"@),
        ("/pooling"@, "pooling"@),
        ("/classify"@, "classify"@),
        ("/tokenize"@, "tokenize"@),
        ("/detokenize"@, "detokenize"@),
        ("/v1/audio/speech"@, "speech"@),
        ("/v1/audio/transcriptions"@, "transcriptions"@),
        ("/v1/audio/translations"@, "translations"@),
    ]
}

/// The routes whose requests are forwarded to a backend that serves their model.
pub fn routes() -> (r: Vec<Route>)
    ensures
        r@.map_values(|x: Route| (x.path@, x.label@)) == forwarded_routes(),
{
    let r: Vec<Route> = vec![
        Route { path: "/v1/chat/completions", label: "chat" },
        Route { path: "/v1/completions", label: "completions" },
        Route { path: "/v1/embeddings", label: "embeddings" },
        Route { path: "/v1/responses", label: "responses" },
        Route { path: "/v1/rerank", label: "rerank" },
        Route { path: "/v2/rerank", label: "rerank" },
        Route { path: "/rerank", label: "rerank" },
        Route { path: "/v1/score", label: "score" },
        Route { path: "/score", label: "score" },
        Route { path: "/pooling", label: "pooling" },
        Route { path: "/classify", label: "classify" },
        Route { path: "/tokenize", label: "tokenize" },
        Route { path: "/detokenize", label: "detokenize" },
        Route { path: "/v1/audio/speech", label: "speech" },
        Route { path: "/v1/audio/transcriptions", label: "transcriptions" },
        Route { path: "/v1/audio/translations", label: "translations" },
    ];
    proof {
        assert(r@.map_values(|x: Route| (x.path@, x.label@)) =~= forwarded_routes());
    }
    r
}

/// Ids are written in lower case: the digits, then `a` to `f`.
pub proof fn law_hex_digit(n: nat)
    requires
        n < 16,
    ensures
        hex_digit(n) == "0123456789abcdef"@[n as int],
{
    reveal_strlit("0123456789abcdef");
    if n < 8 {
        if n < 4 {
            assert(n == 0 || n == 1 || n == 2 || n == 3);
        } else {
            assert(n == 4 || n == 5 || n == 6 || n == 7);
        }
    } else if n < 12 {
        assert(n == 8 || n == 9 || n == 10 || n == 11);
    } else {
        assert(n == 12 || n == 13 || n == 14 || n == 15);
    }
}

/// The last digit of a number is its remainder, the digits before it those of the
/// quotient.
pub proof fn law_hex(n: nat, width: nat)
    ensures
        hex(n, width).len() == width,
        width > 0 ==> hex(n, width).last() == hex_digit(n % 16) && hex(n, width).drop_last() == hex(
            n / 16,
            (width - 1) as nat,
        ),
    decreases width,
{
    if width > 0 {
        law_hex(n / 16, (width - 1) as nat);
        assert(hex(n, width).drop_last() =~= hex(n / 16, (width - 1) as nat));
    }
}

/// The id of a hive is its mark and sixteen digits.
pub proof fn law_hive_id(bits: u64)
    ensures
        hive_id_of(bits) == "hive-"@ + hex(bits as nat, 16),
        hive_id_of(bits).len() == 21,
{
    reveal_strlit("hive-");
    law_hex(bits as nat, 16);
}

/// A text with space, a comma, a control character or anything beyond ASCII in it is no
/// id of a hive, nor is the empty one.
pub proof fn law_no_hive_id(id: Seq<char>, i: int)
    requires
        0 <= i < id.len(),
        id[i] as u32 <= 0x20 || id[i] == ',' || id[i] as u32 > 0x7e,
    ensures
        !is_hive_id(id),
        !is_hive_id(Seq::empty()),
{
    assert(!is_graphic(id[i]) || id[i] == ',');
}

/// A new hive has no members and knows nothing, passes no token on and takes bodies of
/// up to 64 MiB.
pub proof fn law_fresh_hive(own_port: u16, own_id: Seq<char>, k: Seq<char>, m: Seq<char>)
    ensures
        ({
            let h = fresh_hive(own_port, own_id);
            &&& h.own_port == own_port && h.own_id == own_id
            &&& h.endpoints.len() == 0 && !h.loads.contains_key((k, m))
            &&& !h.inflight.contains_key(k) && !h.cooldown.contains_key(k)
            &&& !h.missed_scans.contains_key(k) && !h.rr.contains_key(k)
            &&& !h.forward_auth && h.credentials.len() == 0
            &&& h.max_body == Some(67108864usize) && h.drop_after == 3
            &&& h.log_truncate == Truncate::Off && h.last_view.len() == 0
        }),
{
}

/// Whether a path has a segment.
pub open spec fn has_segment(path: Seq<char>, s: Seq<char>) -> bool {
    exists|a: Seq<char>, b: Seq<char>|
        path == #[trigger] (a + ("/"@ + s) + b) && (b.len() == 0 || b[0] == '/')
}

/// The query log calls a route by a segment of its path.
pub proof fn law_route_labels(i: int)
    requires
        0 <= i < forwarded_routes().len(),
    ensures
        has_segment(forwarded_routes()[i].0, forwarded_routes()[i].1),
{
    let r = forwarded_routes();
    let none = Seq::<char>::empty();
    reveal_strlit("/");
    reveal_strlit("/v1");
    reveal_strlit("/v2");
    reveal_strlit("/v1/audio");
    lemma_routes_of_text();
    lemma_routes_of_ranking();
    lemma_routes_of_audio();
    let p = r[i].0;
    if i == 0 {
        reveal_strlit("/v1/chat/completions");
        reveal_strlit("/completions");
        reveal_strlit("chat");
        assert(p =~= "/v1"@ + ("/"@ + "chat"@) + "/completions"@);
    }
}

/// The labels of the routes for text.
proof fn lemma_routes_of_text()
    ensures
        forall|i: int|
            1 <= i < 4 || 9 <= i < 13 ==> has_segment(
                #[trigger] forwarded_routes()[i].0,
                forwarded_routes()[i].1,
            ),
{
    let none = Seq::<char>::empty();
    reveal_strlit("/");
    reveal_strlit("/v1");
    reveal_strlit("/v1/completions");
    reveal_strlit("completions");
    reveal_strlit("/v1/embeddings");
    reveal_strlit("embeddings");
    reveal_strlit("/v1/responses");
    reveal_strlit("responses");
    reveal_strlit("/pooling");
    reveal_strlit("pooling");
    reveal_strlit("/classify");
    reveal_strlit("classify");
    reveal_strlit("/tokenize");
    reveal_strlit("tokenize");
    reveal_strlit("/detokenize");
    reveal_strlit("detokenize");
    assert("/v1/completions"@ =~= "/v1"@ + ("/"@ + "completions"@) + none);
    assert("/v1/embeddings"@ =~= "/v1"@ + ("/"@ + "embeddings"@) + none);
    assert("/v1/responses"@ =~= "/v1"@ + ("/"@ + "responses"@) + none);
    assert("/pooling"@ =~= none + ("/"@ + "pooling"@) + none);
    assert("/classify"@ =~= none + ("/"@ + "classify"@) + none);
    assert("/tokenize"@ =~= none + ("/"@ + "tokenize"@) + none);
    assert("/detokenize"@ =~= none + ("/"@ + "detokenize"@) + none);
}

/// The labels of the routes for ranking.
proof fn lemma_routes_of_ranking()
    ensures
        forall|i: int|
            4 <= i < 9 ==> has_segment(
                #[trigger] forwarded_routes()[i].0,
                forwarded_routes()[i].1,
            ),
{
    let none = Seq::<char>::empty();
    reveal_strlit("/");
    reveal_strlit("/v1");
    reveal_strlit("/v2");
    reveal_strlit("/v1/rerank");
    reveal_strlit("/v2/rerank");
    reveal_strlit("/rerank");
    reveal_strlit("rerank");
    reveal_strlit("/v1/score");
    reveal_strlit("/score");
    reveal_strlit("score");
    assert("/v1/rerank"@ =~= "/v1"@ + ("/"@ + "rerank"@) + none);
    assert("/v2/rerank"@ =~= "/v2"@ + ("/"@ + "rerank"@) + none);
    assert("/rerank"@ =~= none + ("/"@ + "rerank"@) + none);
    assert("/v1/score"@ =~= "/v1"@ + ("/"@ + "score"@) + none);
    assert("/score"@ =~= none + ("/"@ + "score"@) + none);
}

/// The labels of the routes for audio.
proof fn lemma_routes_of_audio()
    ensures
        forall|i: int|
            13 <= i < 16 ==> has_segment(
                #[trigger] forwarded_routes()[i].0,
                forwarded_routes()[i].1,
            ),
{
    let none = Seq::<char>::empty();
    reveal_strlit("/");
    reveal_strlit("/v1/audio");
    reveal_strlit("/v1/audio/speech");
    reveal_strlit("speech");
    reveal_strlit("/v1/audio/transcriptions");
    reveal_strlit("transcriptions");
    reveal_strlit("/v1/audio/translations");
    reveal_strlit("translations");
    assert("/v1/audio/speech"@ =~= "/v1/audio"@ + ("/"@ + "speech"@) + none);
    assert("/v1/audio/transcriptions"@ =~= "/v1/audio"@ + ("/"@ + "transcriptions"@) + none);
    assert("/v1/audio/translations"@ =~= "/v1/audio"@ + ("/"@ + "translations"@) + none);
}

/// What is logged of an outcome is the outcome: nothing is lost, and nothing is cut but
/// the request and the response, if the operator asked for it.
pub proof fn law_logged(h: HiveV, ts: Seq<char>, route: Seq<char>, o: OutcomeV, ms: u64)
    ensures
        ({
            let e = entry_of(h, ts, route, o, ms);
            &&& e.ts == ts && e.route == route && e.latency_ms == ms
            &&& e.model == o.model && e.upstream == o.upstream && e.stream == o.stream
            &&& e.status == o.status && e.usage == o.usage && e.error == o.error
            &&& h.log_truncate == Truncate::Off ==> e.request == o.request && e.response
                == o.response
            &&& h.log_truncate == Truncate::Chars ==> e.request == cut_json(
                o.request,
                h.log_max_chars as nat,
            )
            &&& e.response is Some <==> o.response is Some
        }),
{
}

/// Every visible character of ASCII but the comma can stand in the id of a hive.
pub proof fn law_hive_id_grows(id: Seq<char>, c: char)
    requires
        0x21 <= c as u32 <= 0x7e,
        c != ',',
    ensures
        is_hive_id(seq![c]),
        is_hive_id(id) ==> is_hive_id(id.push(c)),
{
}

} // verus!
