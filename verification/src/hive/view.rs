//! What the hive shows of its backends and their loads.
use crate::deep::{
    deep_chars, distinct, keep_distinct, lemma_contains_concat, lemma_deep_push, lemma_distinct,
    Same,
};
use crate::discovery::{
    after_scheme, before_first, law_after_scheme, law_before_first, without_scheme, EndpointV,
};
use crate::hive::membership::{all_models, models_of};
use crate::hive::routing::{cools, load_on, row};
use crate::hive::{Hive, HiveV};
use crate::load::Load;
use crate::order::{
    is_order, law_sorted_in_order, law_sorted_is_permutation, lemma_permutation_contains,
    lemma_text_order, lex_before, sorted, stable_sort, Ranked,
};
use crate::table::above;
use crate::text::{
    after_last, chars_of, decimal, find, find_chars, is_digit, law_after_last,
    law_number_read_back, lemma_decimal_digits, parse_u16, push_decimal, str_eq, string_of,
    tail_after_last, u16_value,
};
use vstd::prelude::*;
use vstd::string::*;

verus! {

broadcast use deep_chars;

/// One backend of a model.
#[derive(Debug, Clone)]
pub struct BackendInfo {
    pub ip: String,
    pub port: Option<u16>,
    /// Serving path below host and port (empty for bare roots).
    pub path: String,
    pub load: u64,
    pub exact: bool,
    /// A recent request failed: ranked last until the cooldown expires or a
    /// request succeeds.
    pub cooling: bool,
}

/// What a [`BackendInfo`] stands for.
pub struct InfoV {
    pub ip: Seq<char>,
    pub port: Option<u16>,
    pub path: Seq<char>,
    pub load: u64,
    pub exact: bool,
    pub cooling: bool,
}

impl DeepView for BackendInfo {
    type V = InfoV;

    open spec fn deep_view(&self) -> InfoV {
        InfoV {
            ip: self.ip@,
            port: self.port,
            path: self.path@,
            load: self.load,
            exact: self.exact,
            cooling: self.cooling,
        }
    }
}

impl Ranked for BackendInfo {
    /// Decreasing load; vouched-for loads before approximations on ties.
    open spec fn before(a: InfoV, b: InfoV) -> bool {
        a.load > b.load || (a.load == b.load && a.exact && !b.exact)
    }

    fn is_before(&self, other: &Self) -> (r: bool) {
        self.load > other.load || (self.load == other.load && self.exact && !other.exact)
    }
}

/// The backends of one model.
#[derive(Debug, Clone)]
pub struct ModelBackends {
    pub id: String,
    pub backends: Vec<BackendInfo>,
}

/// What [`ModelBackends`] stand for.
pub struct ModelV {
    pub id: Seq<char>,
    pub backends: Seq<InfoV>,
}

impl DeepView for ModelBackends {
    type V = ModelV;

    open spec fn deep_view(&self) -> ModelV {
        ModelV { id: self.id@, backends: self.backends.deep_view() }
    }
}

/// The backends of every model.
#[derive(Debug, Clone)]
pub struct BackendsView {
    pub models: Vec<ModelBackends>,
}

/// The parts of a base URL: host, port and serving path.
pub open spec fn url_parts(base_url: Seq<char>) -> (Seq<char>, Option<u16>, Seq<char>) {
    let rest = after_scheme(base_url);
    let authority = before_first(rest, '/');
    let path = rest.skip(authority.len() as int);
    match after_last(authority, ':') {
        Some(t) => (authority.take(authority.len() - t.len() - 1), u16_value(t), path),
        None => (authority, None, path),
    }
}

/// What follows the last colon is shorter than the text.
proof fn lemma_after_last_shorter(s: Seq<char>, c: char)
    ensures
        after_last(s, c) matches Some(t) ==> t.len() < s.len(),
    decreases s.len(),
{
    if s.len() > 0 {
        lemma_after_last_shorter(s.drop_last(), c);
    }
}

/// What an endpoint that serves a model is shown as.
pub open spec fn info(h: HiveV, ep: EndpointV, model: Seq<char>, now: u64) -> InfoV {
    let (load, exact) = load_on(h, ep, model);
    let (ip, port, path) = url_parts(ep.base_url);
    InfoV { ip, port, path, load, exact, cooling: cools(h, ep.base_url, now) }
}

/// `x` once for each time that `name` is in `models`.
pub open spec fn repeated(x: InfoV, models: Seq<Seq<char>>, name: Seq<char>) -> Seq<InfoV>
    decreases models.len(),
{
    if models.len() == 0 {
        Seq::empty()
    } else if models.last() == name {
        repeated(x, models.drop_last(), name).push(x)
    } else {
        repeated(x, models.drop_last(), name)
    }
}

/// The backends of a model, in the order of `endpoints`.
pub open spec fn infos(h: HiveV, endpoints: Seq<EndpointV>, name: Seq<char>, now: u64) -> Seq<InfoV>
    decreases endpoints.len(),
{
    if endpoints.len() == 0 {
        Seq::empty()
    } else {
        infos(h, endpoints.drop_last(), name, now) + repeated(
            info(h, endpoints.last(), name, now),
            endpoints.last().models,
            name,
        )
    }
}

/// The backends of a model, in the order in which they are shown.
pub open spec fn model_backends(h: HiveV, name: Seq<char>, now: u64) -> ModelV {
    ModelV { id: name, backends: sorted::<BackendInfo>(infos(h, h.endpoints, name, now)) }
}

/// The models of a hive, in order, each once.
pub open spec fn model_names(h: HiveV) -> Seq<Seq<char>> {
    sorted::<String>(distinct(all_models(h.endpoints)))
}

/// The backends of every model, with the loads that requests are routed on.
pub open spec fn view_of(h: HiveV, now: u64) -> Seq<ModelV> {
    model_names(h).map_values(|name: Seq<char>| model_backends(h, name, now))
}

/// The hive without expired cooldowns.
pub open spec fn pruned(h: HiveV, now: u64) -> HiveV {
    HiveV { cooldown: above(h.cooldown, now), ..h }
}

/// Expired cooldowns show nowhere.
proof fn lemma_pruned_infos(h: HiveV, endpoints: Seq<EndpointV>, name: Seq<char>, now: u64)
    ensures
        infos(pruned(h, now), endpoints, name, now) == infos(h, endpoints, name, now),
    decreases endpoints.len(),
{
    if endpoints.len() > 0 {
        lemma_pruned_infos(h, endpoints.drop_last(), name, now);
        let url = endpoints.last().base_url;
        assert(cools(pruned(h, now), url, now) == cools(h, url, now));
        assert(info(pruned(h, now), endpoints.last(), name, now) == info(
            h,
            endpoints.last(),
            name,
            now,
        ));
    }
}

impl Hive {
    /// Splits `http://127.0.0.1:9037` into `("127.0.0.1", Some(9037), "")`;
    /// `http://127.0.0.1:8180/general-stage1/v1` gives
    /// `("127.0.0.1", Some(8180), "/general-stage1/v1")`.
    pub fn split_host_port(base_url: &str) -> (r: (String, Option<u16>, String))
        ensures
            (r.0@, r.1, r.2@) == url_parts(base_url@),
    {
        let v = chars_of(base_url);
        let rest = without_scheme(v.as_slice());
        let slash: [char; 1] = ['/'];
        proof {
            assert(slash@ =~= seq!['/']);
        }
        let end: usize = match find_chars(rest, slash.as_slice(), 0) {
            Some(i) => i,
            None => rest.len(),
        };
        let authority = vstd::slice::slice_subrange(rest, 0, end);
        let path = string_of(vstd::slice::slice_subrange(rest, end, rest.len()));
        proof {
            assert(authority@ =~= before_first(rest@, '/'));
            assert(path@ =~= rest@.skip(end as int));
            lemma_after_last_shorter(authority@, ':');
        }
        match tail_after_last(authority, ':') {
            Some(t) => {
                let host = vstd::slice::slice_subrange(authority, 0, authority.len() - t.len() - 1);
                (string_of(host), parse_u16(t), path)
            },
            None => (string_of(authority), None, path),
        }
    }

    /// The backends of one model.
    fn infos_of(&self, name: &String, now: u64) -> (r: Vec<BackendInfo>)
        ensures
            r.deep_view() == infos(self@, self@.endpoints, name@, now),
    {
        let ghost h = self@;
        let ghost eps = self.endpoints.deep_view();
        let mut out: Vec<BackendInfo> = Vec::new();
        let mut i: usize = 0;
        proof {
            assert(out.deep_view() =~= infos(h, eps.take(0), name@, now));
        }
        while i < self.endpoints.len()
            invariant
                i <= self.endpoints@.len(),
                h == self@,
                eps == self.endpoints.deep_view(),
                out.deep_view() == infos(h, eps.take(i as int), name@, now),
            decreases self.endpoints@.len() - i,
        {
            let ep = &self.endpoints[i];
            let ghost start = out.deep_view();
            let ghost ms = ep.models.deep_view();
            let ghost x = info(h, ep@, name@, now);
            let mut j: usize = 0;
            proof {
                assert(ms.take(0) =~= Seq::empty());
                assert(start + repeated(x, ms.take(0), name@) =~= start);
            }
            while j < ep.models.len()
                invariant
                    j <= ep.models@.len(),
                    h == self@,
                    ms == ep.models.deep_view(),
                    x == info(h, ep@, name@, now),
                    out.deep_view() == start + repeated(x, ms.take(j as int), name@),
                decreases ep.models@.len() - j,
            {
                proof {
                    assert(ms.take(j + 1).drop_last() =~= ms.take(j as int));
                    assert(ms.take(j + 1).last() == ep.models@[j as int]@);
                }
                if ep.models[j].same(name) {
                    let ghost before = out;
                    let (load, exact) = self.endpoint_load(ep, name);
                    let (ip, port, path) = Hive::split_host_port(ep.base_url.as_str());
                    let cooling = match self.cooldown.get(&ep.base_url) {
                        Some(until) => *until > now,
                        None => false,
                    };
                    let b = BackendInfo { ip, port, path, load, exact, cooling };
                    out.push(b);
                    proof {
                        assert(b.deep_view() == x);
                        lemma_deep_push(before, out, b);
                        assert((start + repeated(x, ms.take(j as int), name@)).push(x) =~= start
                            + repeated(x, ms.take(j as int), name@).push(x));
                    }
                }
                j = j + 1;
            }
            proof {
                assert(ms.take(j as int) =~= ms);
                assert(eps.take(i + 1).drop_last() =~= eps.take(i as int));
                assert(eps.take(i + 1).last() == ep@);
            }
            i = i + 1;
        }
        proof {
            assert(eps.take(i as int) =~= eps);
        }
        out
    }

    /// The backends of every model, with the loads that requests are routed on.
    pub fn backends_view(&mut self, now: u64) -> (r: BackendsView)
        ensures
            r.models.deep_view() == view_of(old(self)@, now),
            final(self)@ == pruned(old(self)@, now),
    {
        let ghost h = self@;
        self.cooldown.keep_above(now);
        let names = stable_sort(keep_distinct(models_of(&self.endpoints)));
        let ghost all = names@;
        let ghost ns = names.deep_view();
        let ghost shown = view_of(h, now);
        let mut models: Vec<ModelBackends> = Vec::new();
        for name in it: names
            invariant
                it.seq() == all,
                ns.len() == all.len(),
                forall|k: int| 0 <= k < all.len() ==> ns[k] == all[k]@,
                self@ == pruned(h, now),
                shown.len() == ns.len(),
                forall|k: int|
                    0 <= k < ns.len() ==> #[trigger] shown[k] == model_backends(h, ns[k], now),
                models@.len() == it.index(),
                forall|k: int| 0 <= k < it.index() ==> models@[k].deep_view() == shown[k],
        {
            proof {
                lemma_pruned_infos(h, h.endpoints, name@, now);
            }
            let backends = stable_sort(self.infos_of(&name, now));
            models.push(ModelBackends { id: name, backends });
        }
        proof {
            assert(models.deep_view() =~= shown);
        }
        BackendsView { models }
    }
}

/// The number of backends shown, over all models.
pub open spec fn total(models: Seq<ModelV>) -> nat
    decreases models.len(),
{
    if models.len() == 0 {
        0
    } else {
        total(models.drop_last()) + models.last().backends.len()
    }
}

/// How often `name` is in `s`.
pub open spec fn occurrences(s: Seq<Seq<char>>, name: Seq<char>) -> nat
    decreases s.len(),
{
    if s.len() == 0 {
        0
    } else {
        occurrences(s.drop_last(), name) + if s.last() == name {
            1nat
        } else {
            0nat
        }
    }
}

/// How often the names are in `s`, together.
pub open spec fn all_occurrences(s: Seq<Seq<char>>, names: Seq<Seq<char>>) -> nat
    decreases names.len(),
{
    if names.len() == 0 {
        0
    } else {
        all_occurrences(s, names.drop_last()) + occurrences(s, names.last())
    }
}

/// One more item adds one occurrence, of one name.
proof fn lemma_occurrences_push(s: Seq<Seq<char>>, names: Seq<Seq<char>>)
    requires
        s.len() > 0,
        names.no_duplicates(),
    ensures
        all_occurrences(s, names) == all_occurrences(s.drop_last(), names) + if names.contains(
            s.last(),
        ) {
            1nat
        } else {
            0nat
        },
    decreases names.len(),
{
    if names.len() > 0 {
        let rest = names.drop_last();
        lemma_occurrences_push(s, rest);
        if names.last() == s.last() {
            if rest.contains(s.last()) {
                let k = choose|k: int| 0 <= k < rest.len() && rest[k] == s.last();
                assert(names[k] == names[names.len() - 1]);
            }
            assert(names[names.len() - 1] == s.last());
        } else if names.contains(s.last()) {
            let k = choose|k: int| 0 <= k < names.len() && names[k] == s.last();
            assert(rest[k] == s.last());
        } else if rest.contains(s.last()) {
            let k = choose|k: int| 0 <= k < rest.len() && rest[k] == s.last();
            assert(names[k] == s.last());
        }
    }
}

/// Distinct names that cover a list occur in it as often as it has items.
proof fn lemma_occurrences_total(s: Seq<Seq<char>>, names: Seq<Seq<char>>)
    requires
        names.no_duplicates(),
        forall|x: Seq<char>| #[trigger] s.contains(x) ==> names.contains(x),
    ensures
        all_occurrences(s, names) == s.len(),
    decreases s.len(),
{
    if s.len() > 0 {
        lemma_occurrences_push(s, names);
        assert(s[s.len() - 1] == s.last());
        assert(s.contains(s.last()));
        assert forall|x: Seq<char>| #[trigger] s.drop_last().contains(x) implies names.contains(
            x,
        ) by {
            let k = choose|k: int| 0 <= k < s.drop_last().len() && s.drop_last()[k] == x;
            assert(s[k] == x);
            assert(s.contains(x));
        }
        lemma_occurrences_total(s.drop_last(), names);
    } else {
        lemma_no_occurrences(s, names);
    }
}

/// Nothing occurs in an empty list.
proof fn lemma_no_occurrences(s: Seq<Seq<char>>, names: Seq<Seq<char>>)
    requires
        s.len() == 0,
    ensures
        all_occurrences(s, names) == 0,
    decreases names.len(),
{
    if names.len() > 0 {
        lemma_no_occurrences(s, names.drop_last());
    }
}

/// Occurrences in a longer list.
proof fn lemma_occurrences_concat(a: Seq<Seq<char>>, b: Seq<Seq<char>>, name: Seq<char>)
    ensures
        occurrences(a + b, name) == occurrences(a, name) + occurrences(b, name),
    decreases b.len(),
{
    if b.len() > 0 {
        lemma_occurrences_concat(a, b.drop_last(), name);
        assert((a + b).drop_last() =~= a + b.drop_last());
        assert((a + b).last() == b.last());
    } else {
        assert(a + b =~= a);
    }
}

/// A backend is listed under a model as often as the model is listed for it.
proof fn lemma_repeated_len(x: InfoV, models: Seq<Seq<char>>, name: Seq<char>)
    ensures
        repeated(x, models, name).len() == occurrences(models, name),
    decreases models.len(),
{
    if models.len() > 0 {
        lemma_repeated_len(x, models.drop_last(), name);
    }
}

/// A model has as many backends as endpoints list it.
proof fn lemma_infos_len(h: HiveV, endpoints: Seq<EndpointV>, name: Seq<char>, now: u64)
    ensures
        infos(h, endpoints, name, now).len() == occurrences(all_models(endpoints), name),
    decreases endpoints.len(),
{
    if endpoints.len() > 0 {
        let last = endpoints.last();
        lemma_infos_len(h, endpoints.drop_last(), name, now);
        lemma_repeated_len(info(h, last, name, now), last.models, name);
        lemma_occurrences_concat(all_models(endpoints.drop_last()), last.models, name);
    }
}

/// The backends shown for the first names.
proof fn lemma_total_prefix(h: HiveV, names: Seq<Seq<char>>, now: u64)
    ensures
        total(names.map_values(|name: Seq<char>| model_backends(h, name, now))) == all_occurrences(
            all_models(h.endpoints),
            names,
        ),
    decreases names.len(),
{
    let f = |name: Seq<char>| model_backends(h, name, now);
    let shown = names.map_values(f);
    if names.len() > 0 {
        lemma_total_prefix(h, names.drop_last(), now);
        assert(shown.drop_last() =~= names.drop_last().map_values(f));
        lemma_infos_len(h, h.endpoints, names.last(), now);
        law_sorted_is_permutation::<BackendInfo>(infos(h, h.endpoints, names.last(), now));
    }
}

/// The models of a hive are listed once each, and all of them are.
pub proof fn law_model_names(h: HiveV)
    ensures
        model_names(h).no_duplicates(),
        forall|m: Seq<char>| #[trigger]
            model_names(h).contains(m) <==> all_models(h.endpoints).contains(m),
{
    broadcast use vstd::seq_lib::group_to_multiset_ensures;

    let all = all_models(h.endpoints);
    let d = distinct(all);
    lemma_distinct(all);
    law_sorted_is_permutation::<String>(d);
    let names = model_names(h);
    d.lemma_multiset_has_no_duplicates();
    assert forall|m: Seq<char>| #[trigger] names.contains(m) <==> all.contains(m) by {
        assert(names.to_multiset().count(m) > 0 <==> names.contains(m));
        assert(d.to_multiset().count(m) > 0 <==> d.contains(m));
    }
    names.lemma_multiset_has_no_duplicates_conv();
}

/// The view shows as many backends, over all models, as the endpoints list
/// models.
pub proof fn law_view_is_complete(h: HiveV, now: u64)
    ensures
        total(view_of(h, now)) == all_models(h.endpoints).len(),
{
    law_model_names(h);
    lemma_total_prefix(h, model_names(h), now);
    lemma_occurrences_total(all_models(h.endpoints), model_names(h));
}

/// A count and the noun that goes with it.
pub open spec fn counted(n: nat, one: Seq<char>, many: Seq<char>) -> Seq<char> {
    if n == 1 {
        "1 "@ + one
    } else {
        decimal(n) + " "@ + many
    }
}

/// A count and the noun that goes with it.
pub fn plural(n: usize, one: &str, many: &str) -> (r: String)
    ensures
        r@ == counted(n as nat, one@, many@),
{
    if n == 1 {
        let mut s = "1 ".to_owned();
        s.append(one);
        s
    } else {
        let mut s: String = String::new();
        push_decimal(&mut s, n as u64);
        s.append(" ");
        s.append(many);
        proof {
            assert(s@ =~= decimal(n as nat) + " "@ + many@);
        }
        s
    }
}

/// The line of a backend: where it is and its load, `~` before one that is not
/// vouched for.
pub open spec fn info_text(b: InfoV) -> Seq<char> {
    let port = match b.port {
        Some(p) => decimal(p as nat),
        None => "?"@,
    };
    let mark = if b.exact {
        " load="@
    } else {
        " load=~"@
    };
    let note = if b.cooling {
        " (failing, ranked last)"@
    } else {
        ""@
    };
    "\n    "@ + b.ip + ":"@ + port + b.path + mark + decimal(b.load as nat) + note
}

/// The lines of backends.
pub open spec fn infos_text(backends: Seq<InfoV>) -> Seq<char>
    decreases backends.len(),
{
    if backends.len() == 0 {
        Seq::empty()
    } else {
        infos_text(backends.drop_last()) + info_text(backends.last())
    }
}

/// The lines of models and their backends.
pub open spec fn models_text(models: Seq<ModelV>) -> Seq<char>
    decreases models.len(),
{
    if models.len() == 0 {
        Seq::empty()
    } else {
        let m = models.last();
        models_text(models.drop_last()) + ("\n  "@ + m.id + " ("@ + counted(
            m.backends.len(),
            "backend"@,
            "backends"@,
        ) + "):"@ + infos_text(m.backends))
    }
}

/// The text of a view.
pub open spec fn view_text(models: Seq<ModelV>) -> Seq<char> {
    "🐝 hive: "@ + counted(models.len(), "model"@, "models"@) + ", "@ + counted(
        total(models),
        "backend"@,
        "backends"@,
    ) + models_text(models)
}

/// The line of a backend.
fn render_info(b: &BackendInfo) -> (r: String)
    ensures
        r@ == info_text(b.deep_view()),
{
    let mut out = "\n    ".to_owned();
    out.append(b.ip.as_str());
    out.append(":");
    match b.port {
        Some(p) => push_decimal(&mut out, p as u64),
        None => out.append("?"),
    }
    out.append(b.path.as_str());
    if b.exact {
        out.append(" load=");
    } else {
        out.append(" load=~");
    }
    push_decimal(&mut out, b.load);
    if b.cooling {
        out.append(" (failing, ranked last)");
    } else {
        out.append("");
    }
    out
}

/// The text of a view.
fn render(view: &BackendsView) -> (r: String)
    requires
        total(view.models.deep_view()) <= usize::MAX,
    ensures
        r@ == view_text(view.models.deep_view()),
{
    let ghost ms = view.models.deep_view();
    let mut n_backends: usize = 0;
    let mut body: String = String::new();
    let mut i: usize = 0;
    proof {
        assert(body@ =~= models_text(ms.take(0)));
    }
    while i < view.models.len()
        invariant
            i <= view.models@.len(),
            ms == view.models.deep_view(),
            total(ms) <= usize::MAX,
            n_backends == total(ms.take(i as int)),
            body@ == models_text(ms.take(i as int)),
        decreases view.models@.len() - i,
    {
        let m = &view.models[i];
        let ghost bs = m.backends.deep_view();
        proof {
            assert(ms.take(i + 1).drop_last() =~= ms.take(i as int));
            assert(ms.take(i + 1).last() == m.deep_view());
            lemma_total_monotonic(ms, i + 1);
        }
        n_backends = n_backends + m.backends.len();
        let mut part = "\n  ".to_owned();
        part.append(m.id.as_str());
        part.append(" (");
        let count = plural(m.backends.len(), "backend", "backends");
        part.append(count.as_str());
        part.append("):");
        let ghost head = part@;
        let mut j: usize = 0;
        proof {
            assert(head + infos_text(bs.take(0)) =~= head);
        }
        while j < m.backends.len()
            invariant
                j <= m.backends@.len(),
                bs == m.backends.deep_view(),
                part@ == head + infos_text(bs.take(j as int)),
            decreases m.backends@.len() - j,
        {
            let line = render_info(&m.backends[j]);
            part.append(line.as_str());
            proof {
                assert(bs.take(j + 1).drop_last() =~= bs.take(j as int));
                assert(bs.take(j + 1).last() == m.backends@[j as int].deep_view());
                assert(part@ =~= head + infos_text(bs.take(j + 1)));
            }
            j = j + 1;
        }
        body.append(part.as_str());
        proof {
            assert(bs.take(j as int) =~= bs);
        }
        i = i + 1;
    }
    proof {
        assert(ms.take(i as int) =~= ms);
    }
    let mut out = "🐝 hive: ".to_owned();
    let models = plural(view.models.len(), "model", "models");
    out.append(models.as_str());
    out.append(", ");
    let backends = plural(n_backends, "backend", "backends");
    out.append(backends.as_str());
    out.append(body.as_str());
    out
}

/// Fewer models have fewer backends.
proof fn lemma_total_monotonic(models: Seq<ModelV>, n: int)
    requires
        0 <= n <= models.len(),
    ensures
        total(models.take(n)) <= total(models),
    decreases models.len() - n,
{
    if n < models.len() {
        lemma_total_monotonic(models, n + 1);
        assert(models.take(n + 1).drop_last() =~= models.take(n));
    } else {
        assert(models.take(n) =~= models);
    }
}

/// The view as text if it changed, and the hive that remembers it.
pub open spec fn noted(h: HiveV, now: u64) -> (Option<Seq<char>>, HiveV) {
    let text = view_text(view_of(h, now));
    if text == h.last_view {
        (None, pruned(h, now))
    } else {
        (Some(text), HiveV { last_view: text, ..pruned(h, now) })
    }
}

impl Hive {
    /// The per-model view as text: for each model, every backend with host, port
    /// and the load that requests are routed on, in the order of decreasing load.
    pub fn render_view(&mut self, now: u64) -> (r: String)
        ensures
            r@ == view_text(view_of(old(self)@, now)),
            final(self)@ == pruned(old(self)@, now),
    {
        // The view has as many rows as models are listed, so their number fits.
        let listed: usize = models_of(&self.endpoints).len();
        let view = self.backends_view(now);
        proof {
            law_view_is_complete(old(self)@, now);
        }
        render(&view)
    }

    /// The per-model view as text, if it changed since the last time.
    pub fn log_view(&mut self, now: u64) -> (r: Option<String>)
        ensures
            ({
                let text = view_text(view_of(old(self)@, now));
                if text == old(self)@.last_view {
                    r is None && final(self)@ == pruned(old(self)@, now)
                } else {
                    r.deep_view() == Some(text) && final(self)@ == (HiveV {
                        last_view: text,
                        ..pruned(old(self)@, now)
                    })
                }
            }),
            (r.deep_view(), final(self)@) == noted(old(self)@, now),
    {
        let view = self.render_view(now);
        if str_eq(self.last_view.as_str(), view.as_str()) {
            None
        } else {
            self.last_view = view.clone();
            Some(view)
        }
    }
}

/// A base URL is taken apart as it was put together: host, port and path.
pub proof fn law_url_parts(scheme: Seq<char>, host: Seq<char>, port: u16, path: Seq<char>)
    requires
        !scheme.contains(':'),
        !host.contains('/'),
        path.len() == 0 || path[0] == '/',
        find(host + seq![':'] + decimal(port as nat) + path, "://"@, 0) is None,
    ensures
        url_parts(scheme + "://"@ + (host + seq![':'] + decimal(port as nat) + path)) == (
            host,
            Some(port),
            path,
        ),
{
    let digits = decimal(port as nat);
    let authority = host + seq![':'] + digits;
    let rest = authority + path;
    law_after_scheme(scheme, rest);
    lemma_decimal_digits(port as nat);
    assert(!digits.contains('/') && !digits.contains(':')) by {
        if digits.contains('/') {
            let i = choose|i: int| 0 <= i < digits.len() && digits[i] == '/';
            assert(is_digit(digits[i]));
        }
        if digits.contains(':') {
            let i = choose|i: int| 0 <= i < digits.len() && digits[i] == ':';
            assert(is_digit(digits[i]));
        }
    }
    assert(!authority.contains('/')) by {
        if authority.contains('/') {
            let i = choose|i: int| 0 <= i < authority.len() && authority[i] == '/';
            if i < host.len() {
                assert(host.contains(host[i]));
            } else if i > host.len() {
                assert(digits.contains(digits[i - host.len() - 1]));
            }
        }
    }
    lemma_authority(authority, path);
    law_after_last(host, ':', digits);
    law_number_read_back(port);
    assert(authority.take(authority.len() - digits.len() - 1) =~= host);
    assert(rest.skip(authority.len() as int) =~= path);
}

/// A host without a port has none.
pub proof fn law_url_without_port(scheme: Seq<char>, host: Seq<char>, path: Seq<char>)
    requires
        !scheme.contains(':'),
        !host.contains('/'),
        !host.contains(':'),
        path.len() == 0 || path[0] == '/',
        find(host + path, "://"@, 0) is None,
    ensures
        url_parts(scheme + "://"@ + (host + path)) == (host, None::<u16>, path),
{
    law_after_scheme(scheme, host + path);
    lemma_authority(host, path);
    law_after_last(Seq::empty(), ':', host);
    assert((host + path).skip(host.len() as int) =~= path);
}

/// The authority of a URL stands before its path.
proof fn lemma_authority(authority: Seq<char>, path: Seq<char>)
    requires
        !authority.contains('/'),
        path.len() == 0 || path[0] == '/',
    ensures
        before_first(authority + path, '/') == authority,
{
    if path.len() == 0 {
        law_before_first(authority, '/', path);
        assert(authority + path =~= authority);
    } else {
        law_before_first(authority, '/', path.drop_first());
        assert(authority + path =~= authority + seq!['/'] + path.drop_first());
    }
}

/// A backend is shown with what requests are routed by: its load, whether it is vouched
/// for, and whether it cools down.
pub proof fn law_info(h: HiveV, ep: EndpointV, model: Seq<char>, now: u64)
    ensures
        ({
            let b = info(h, ep, model, now);
            &&& (b.ip, b.port, b.path) == url_parts(ep.base_url)
            &&& b.load == row(h, ep, model, now).load && b.cooling == row(h, ep, model, now).cooling
            &&& b.exact ==> h.loads.contains_key((ep.id, model)) && match h.loads[(ep.id, model)] {
                Load::Known(n) | Load::Measured(n) => n == b.load,
                Load::Unknown => false,
            }
        }),
{
}

/// A backend is repeated exactly if its model is listed.
proof fn lemma_repeated(x: InfoV, models: Seq<Seq<char>>, name: Seq<char>, y: InfoV)
    ensures
        repeated(x, models, name).contains(y) <==> x == y && models.contains(name),
    decreases models.len(),
{
    if models.len() > 0 {
        let rest = models.drop_last();
        let (before, all) = (repeated(x, rest, name), repeated(x, models, name));
        lemma_repeated(x, rest, name, y);
        if before.contains(y) {
            let k = choose|k: int| 0 <= k < before.len() && before[k] == y;
            assert(all[k] == y);
            let i = choose|i: int| 0 <= i < rest.len() && rest[i] == name;
            assert(models[i] == name);
        }
        if all.contains(y) && !before.contains(y) {
            let k = choose|k: int| 0 <= k < all.len() && all[k] == y;
            if k < before.len() {
                assert(before[k] == y);
            }
            assert(models[models.len() - 1] == name);
        }
        if x == y && models.contains(name) {
            let i = choose|i: int| 0 <= i < models.len() && models[i] == name;
            if i < rest.len() {
                assert(rest[i] == name);
            } else {
                assert(all[before.len() as int] == y);
            }
        }
    }
}

/// The backends of a model are those that serve it.
proof fn lemma_infos(h: HiveV, endpoints: Seq<EndpointV>, name: Seq<char>, now: u64, y: InfoV)
    ensures
        infos(h, endpoints, name, now).contains(y) <==> exists|i: int|
            0 <= i < endpoints.len() && (#[trigger] endpoints[i]).models.contains(name) && y
                == info(h, endpoints[i], name, now),
    decreases endpoints.len(),
{
    if endpoints.len() > 0 {
        let rest = endpoints.drop_last();
        let ep = endpoints.last();
        let x = info(h, ep, name, now);
        let (a, own) = (infos(h, rest, name, now), repeated(x, ep.models, name));
        lemma_infos(h, rest, name, now, y);
        lemma_repeated(x, ep.models, name, y);
        lemma_contains_concat(a, own, y);
        if a.contains(y) {
            let i = choose|i: int|
                0 <= i < rest.len() && (#[trigger] rest[i]).models.contains(name) && y == info(
                    h,
                    rest[i],
                    name,
                    now,
                );
            assert(endpoints[i] == rest[i]);
        }
        if own.contains(y) {
            assert(endpoints[endpoints.len() - 1].models.contains(name));
        }
        if exists|i: int|
            0 <= i < endpoints.len() && (#[trigger] endpoints[i]).models.contains(name) && y
                == info(h, endpoints[i], name, now) {
            let i = choose|i: int|
                0 <= i < endpoints.len() && (#[trigger] endpoints[i]).models.contains(name) && y
                    == info(h, endpoints[i], name, now);
            if i < rest.len() {
                assert(rest[i] == endpoints[i]);
            }
        }
    }
}

/// The view shows each model with the backends that serve it, and no others.
pub proof fn law_view(h: HiveV, now: u64, k: int, y: InfoV)
    requires
        0 <= k < view_of(h, now).len(),
    ensures
        view_of(h, now).len() == model_names(h).len(),
        ({
            let m = view_of(h, now)[k];
            &&& m.id == model_names(h)[k]
            &&& m.backends.contains(y) <==> exists|i: int|
                0 <= i < h.endpoints.len() && (#[trigger] h.endpoints[i]).models.contains(m.id) && y
                    == info(h, h.endpoints[i], m.id, now)
        }),
{
    let name = model_names(h)[k];
    let all = infos(h, h.endpoints, name, now);
    law_sorted_is_permutation::<BackendInfo>(all);
    lemma_permutation_contains(sorted::<BackendInfo>(all), all, y);
    lemma_infos(h, h.endpoints, name, now, y);
}

/// The backends of a model are shown by decreasing load, and of those with the same load
/// the ones that vouch for it first.
pub proof fn law_view_in_order(h: HiveV, name: Seq<char>, now: u64, i: int, j: int)
    requires
        0 <= i < j < model_backends(h, name, now).backends.len(),
    ensures
        ({
            let s = model_backends(h, name, now).backends;
            &&& s[i].load >= s[j].load
            &&& s[i].load == s[j].load && s[j].exact ==> s[i].exact
        }),
{
    assert(is_order::<BackendInfo>());
    law_sorted_in_order::<BackendInfo>(infos(h, h.endpoints, name, now));
    let s = model_backends(h, name, now).backends;
    assert(!BackendInfo::before(s[j], s[i]));
}

/// The models are shown in the order of their names.
pub proof fn law_names_in_order(h: HiveV, i: int, j: int)
    requires
        0 <= i < j < model_names(h).len(),
    ensures
        !lex_before(model_names(h)[j], model_names(h)[i]),
{
    lemma_text_order();
    law_sorted_in_order::<String>(distinct(all_models(h.endpoints)));
    assert(!String::before(model_names(h)[j], model_names(h)[i]));
}

/// One is counted in the singular, anything else in the plural.
pub proof fn law_counted(n: nat, one: Seq<char>, many: Seq<char>)
    ensures
        counted(1, one, many) == "1 "@ + one,
        n != 1 ==> counted(n, one, many) == decimal(n) + " "@ + many,
{
}

/// The line of a backend names its host, its port and its path and tells its load, with a
/// mark if nothing vouches for it and a note if it cools down.
pub proof fn law_info_text(ip: Seq<char>, port: u16, path: Seq<char>, load: u64)
    ensures
        ({
            let place = "\n    "@ + ip + ":"@ + decimal(port as nat) + path;
            let n = decimal(load as nat);
            let b = InfoV { ip, port: Some(port), path, load, exact: true, cooling: false };
            &&& info_text(b) == place + " load="@ + n
            &&& info_text(InfoV { exact: false, ..b }) == place + " load=~"@ + n
            &&& info_text(InfoV { cooling: true, ..b }) == place + " load="@ + n
                + " (failing, ranked last)"@
            &&& info_text(InfoV { port: None, ..b }) == "\n    "@ + ip + ":"@ + "?"@ + path
                + " load="@ + n
        }),
{
    reveal_strlit("");
    let place = "\n    "@ + ip + ":"@ + decimal(port as nat) + path;
    let n = decimal(load as nat);
    assert(place + " load="@ + n + ""@ =~= place + " load="@ + n);
    assert(place + " load=~"@ + n + ""@ =~= place + " load=~"@ + n);
    let other = "\n    "@ + ip + ":"@ + "?"@ + path + " load="@ + n;
    assert(other + ""@ =~= other);
}

/// The lines of a view follow each other in the order of its models and their backends.
pub proof fn law_view_text(models: Seq<ModelV>, m: ModelV, backends: Seq<InfoV>, b: InfoV)
    ensures
        infos_text(backends.push(b)) == infos_text(backends) + info_text(b),
        models_text(models.push(m)) == models_text(models) + ("\n  "@ + m.id + " ("@ + counted(
            m.backends.len(),
            "backend"@,
            "backends"@,
        ) + "):"@ + infos_text(m.backends)),
        infos_text(Seq::empty()).len() == 0,
        models_text(Seq::empty()).len() == 0,
        view_text(models) == "🐝 hive: "@ + counted(models.len(), "model"@, "models"@) + ", "@
            + counted(total(models), "backend"@, "backends"@) + models_text(models),
        total(models.push(m)) == total(models) + m.backends.len(),
{
    assert(backends.push(b).drop_last() =~= backends);
    assert(models.push(m).drop_last() =~= models);
}

/// Forgetting ended cooldowns changes nothing else.
pub proof fn law_pruned(h: HiveV, now: u64, url: Seq<char>)
    ensures
        pruned(h, now) == (HiveV { cooldown: pruned(h, now).cooldown, ..h }),
        pruned(h, now).cooldown.contains_key(url) <==> h.cooldown.contains_key(url)
            && h.cooldown[url] > now,
        pruned(h, now).cooldown.contains_key(url) ==> pruned(h, now).cooldown[url]
            == h.cooldown[url],
{
}

/// The view is told when it differs from the one that was told last, and only then; it
/// is remembered, and nothing else changes but for ended cooldowns.
pub proof fn law_noted(h: HiveV, now: u64)
    ensures
        ({
            let (told, g) = noted(h, now);
            &&& told is Some <==> view_text(view_of(h, now)) != h.last_view
            &&& told matches Some(t) ==> t == view_text(view_of(h, now))
            &&& g.last_view == view_text(view_of(h, now))
            &&& g == (HiveV { cooldown: g.cooldown, last_view: g.last_view, ..h })
        }),
        noted(noted(h, now).1, now).0 is None,
{
    let g = noted(h, now).1;
    lemma_view_same(g, h, now);
}

/// The view does not show what was told last, nor cooldowns that have ended.
proof fn lemma_view_same(g: HiveV, h: HiveV, now: u64)
    requires
        g == (HiveV { cooldown: above(h.cooldown, now), last_view: g.last_view, ..h }),
    ensures
        view_of(g, now) == view_of(h, now),
{
    assert forall|name: Seq<char>| #[trigger] model_backends(g, name, now) == model_backends(
        h,
        name,
        now,
    ) by {
        lemma_infos_same(g, h, h.endpoints, name, now);
    }
    assert(view_of(g, now) =~= view_of(h, now));
}

/// The backends of a model do not show it either.
proof fn lemma_infos_same(g: HiveV, h: HiveV, endpoints: Seq<EndpointV>, name: Seq<char>, now: u64)
    requires
        g == (HiveV { cooldown: above(h.cooldown, now), last_view: g.last_view, ..h }),
    ensures
        infos(g, endpoints, name, now) == infos(h, endpoints, name, now),
    decreases endpoints.len(),
{
    if endpoints.len() > 0 {
        lemma_infos_same(g, h, endpoints.drop_last(), name, now);
        let ep = endpoints.last();
        assert(cools(g, ep.base_url, now) == cools(h, ep.base_url, now));
        assert(info(g, ep, name, now) == info(h, ep, name, now));
    }
}

} // verus!
