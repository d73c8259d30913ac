//! Which backend a request goes to.
use crate::deep::{contains, lemma_deep_push, lemma_filter, Same};
use crate::discovery::{DiscoveredEndpoint, EndpointV};
use crate::hive::paths::{free_of, loop_free, routes, routes_of, PathV};
use crate::hive::{Hive, HiveV, FAILURE_COOLDOWN};
use crate::load::{effective, effective_load, Load};
use crate::order::{
    in_order, is_order, law_sorted_in_order, law_sorted_is_permutation,
    lemma_map_permutation, lemma_permutation_contains, sorted, stable_sort, Ranked,
};
use crate::table::above;
use vstd::prelude::*;
use vstd::string::*;

verus! {

/// A backend that serves a model, and what it is ranked by.
pub struct Row {
    pub url: String,
    /// Whether it failed a moment ago.
    pub cooling: bool,
    /// Its effective load.
    pub load: u64,
}

/// What a [`Row`] stands for.
pub struct RowV {
    pub url: Seq<char>,
    pub cooling: bool,
    pub load: u64,
}

impl DeepView for Row {
    type V = RowV;

    open spec fn deep_view(&self) -> RowV {
        RowV { url: self.url@, cooling: self.cooling, load: self.load }
    }
}

impl Ranked for Row {
    open spec fn before(a: RowV, b: RowV) -> bool {
        (!a.cooling && b.cooling) || (a.cooling == b.cooling && a.load < b.load)
    }

    fn is_before(&self, other: &Self) -> (r: bool) {
        (!self.cooling && other.cooling) || (self.cooling == other.cooling && self.load
            < other.load)
    }
}

/// Whether two backends are ranked alike.
pub open spec fn tied(a: RowV, b: RowV) -> bool {
    a.cooling == b.cooling && a.load == b.load
}

/// The last polled load of a model on an endpoint.
pub open spec fn polled(h: HiveV, id: Seq<char>, model: Seq<char>) -> Load {
    if h.loads.contains_key((id, model)) {
        h.loads[(id, model)]
    } else {
        Load::Unknown
    }
}

/// The requests that the hive has in flight on a base URL.
pub open spec fn flying(h: HiveV, url: Seq<char>) -> u64 {
    if h.inflight.contains_key(url) {
        h.inflight[url]
    } else {
        0
    }
}

/// The load of a model on an endpoint to route on, and whether it is vouched for.
pub open spec fn load_on(h: HiveV, ep: EndpointV, model: Seq<char>) -> (u64, bool) {
    effective(polled(h, ep.id, model), flying(h, ep.base_url))
}

/// Whether a backend still cools down after a failure.
pub open spec fn cools(h: HiveV, url: Seq<char>, now: u64) -> bool {
    h.cooldown.contains_key(url) && h.cooldown[url] > now
}

/// What an endpoint is ranked by.
pub open spec fn row(h: HiveV, ep: EndpointV, model: Seq<char>, now: u64) -> RowV {
    RowV {
        url: ep.base_url,
        cooling: cools(h, ep.base_url, now),
        load: load_on(h, ep, model).0,
    }
}

/// The endpoints that serve `model`, in the order of `endpoints`.
pub open spec fn rows(h: HiveV, endpoints: Seq<EndpointV>, model: Seq<char>, now: u64) -> Seq<RowV>
    decreases endpoints.len(),
{
    if endpoints.len() == 0 {
        Seq::empty()
    } else {
        let before = rows(h, endpoints.drop_last(), model, now);
        if endpoints.last().models.contains(model) {
            before.push(row(h, endpoints.last(), model, now))
        } else {
            before
        }
    }
}

/// The number of leading rows that tie with `first`.
pub open spec fn run_of(first: RowV, s: Seq<RowV>) -> nat
    decreases s.len(),
{
    if s.len() > 0 && tied(first, s.first()) {
        1 + run_of(first, s.drop_first())
    } else {
        0
    }
}

/// A run is not longer than the list.
pub proof fn lemma_run(first: RowV, s: Seq<RowV>)
    ensures
        run_of(first, s) <= s.len(),
        forall|i: int| 0 <= i < run_of(first, s) ==> tied(first, #[trigger] s[i]),
        run_of(first, s) < s.len() ==> !tied(first, s[run_of(first, s) as int]),
    decreases s.len(),
{
    if s.len() > 0 && tied(first, s.first()) {
        lemma_run(first, s.drop_first());
        assert forall|i: int| 0 <= i < run_of(first, s) implies tied(first, #[trigger] s[i]) by {
            if i > 0 {
                assert(s.drop_first()[i - 1] == s[i]);
            }
        }
    }
}

/// The length of the run of ties at the front of a nonempty list.
pub open spec fn run_len(s: Seq<RowV>) -> nat {
    run_of(s.first(), s)
}

/// Each run of ties rotated by `turn`.
pub open spec fn turned(s: Seq<RowV>, turn: nat) -> Seq<RowV>
    decreases s.len(),
{
    if s.len() == 0 {
        s
    } else {
        let n = run_len(s);
        if 0 < n <= s.len() {
            let k = (turn % n) as int;
            s.subrange(k, n as int) + s.take(k) + turned(s.skip(n as int), turn)
        } else {
            s
        }
    }
}

/// The base URLs of rows.
pub open spec fn row_urls(s: Seq<RowV>) -> Seq<Seq<char>> {
    s.map_values(|r: RowV| r.url)
}

/// The round-robin turn of a model.
pub open spec fn turn_of(h: HiveV, model: Seq<char>) -> usize {
    if h.rr.contains_key(model) {
        h.rr[model]
    } else {
        0
    }
}

/// The backends that serve `model`, ranked: those that cool down last, else by
/// load, ties taking turns.
pub open spec fn ranking(h: HiveV, model: Seq<char>, now: u64) -> Seq<RowV> {
    turned(sorted::<Row>(rows(h, h.endpoints, model, now)), turn_of(h, model) as nat)
}

/// The number after `n`, or zero after the largest.
pub open spec fn wrapping_next(n: usize) -> usize {
    if n == usize::MAX {
        0
    } else {
        (n + 1) as usize
    }
}

/// The hive after one routing decision for `model`: expired cooldowns are gone
/// and the turn of the model has advanced.
pub open spec fn after_decision(h: HiveV, model: Seq<char>, now: u64) -> HiveV {
    HiveV {
        cooldown: above(h.cooldown, now),
        rr: h.rr.insert(model, wrapping_next(turn_of(h, model))),
        ..h
    }
}

/// Whether an endpoint leads to none but visited hives.
pub open spec fn leads_back(ep: EndpointV, model: Seq<char>, visited: Seq<Seq<char>>) -> bool {
    visited.contains(ep.base_url) || forall|i: int|
        0 <= i < routes(ep, model).len() ==> !free_of(#[trigger] routes(ep, model)[i], visited)
}

/// Whether a base URL is that of an endpoint that leads to none but visited hives.
pub open spec fn url_leads_back(
    endpoints: Seq<EndpointV>,
    url: Seq<char>,
    model: Seq<char>,
    visited: Seq<Seq<char>>,
) -> bool {
    exists|i: int|
        0 <= i < endpoints.len() && (#[trigger] endpoints[i]).base_url == url && leads_back(
            endpoints[i],
            model,
            visited,
        )
}

/// The candidates that do not lead back to a visited hive.
pub open spec fn unvisited(
    endpoints: Seq<EndpointV>,
    candidates: Seq<Seq<char>>,
    model: Seq<char>,
    visited: Seq<Seq<char>>,
) -> Seq<Seq<char>> {
    candidates.filter(|u: Seq<char>| !url_leads_back(endpoints, u, model, visited))
}

/// Whether an endpoint leads to none but visited hives.
fn endpoint_leads_back(ep: &DiscoveredEndpoint, model: &str, visited: &Vec<String>) -> (r: bool)
    ensures
        r == leads_back(ep@, model@, visited.deep_view()),
{
    if contains(visited, &ep.base_url) {
        return true;
    }
    let paths = routes_of(ep, model);
    let ghost ps = paths.deep_view();
    let mut i: usize = 0;
    while i < paths.len()
        invariant
            i <= paths@.len(),
            ps == paths.deep_view(),
            ps == routes(ep@, model@),
            !visited.deep_view().contains(ep@.base_url),
            forall|k: int| 0 <= k < i ==> !free_of(#[trigger] ps[k], visited.deep_view()),
        decreases paths@.len() - i,
    {
        if loop_free(&paths[i], visited) {
            proof {
                assert(free_of(ps[i as int], visited.deep_view()));
            }
            return false;
        }
        i = i + 1;
    }
    true
}

/// Whether a base URL is that of an endpoint that leads to none but visited hives.
fn candidate_leads_back(
    endpoints: &Vec<DiscoveredEndpoint>,
    url: &String,
    model: &str,
    visited: &Vec<String>,
) -> (r: bool)
    ensures
        r == url_leads_back(endpoints.deep_view(), url@, model@, visited.deep_view()),
{
    let ghost eps = endpoints.deep_view();
    let mut i: usize = 0;
    while i < endpoints.len()
        invariant
            i <= endpoints@.len(),
            eps == endpoints.deep_view(),
            forall|k: int|
                0 <= k < i ==> !((#[trigger] eps[k]).base_url == url@ && leads_back(
                    eps[k],
                    model@,
                    visited.deep_view(),
                )),
        decreases endpoints@.len() - i,
    {
        if endpoints[i].base_url.same(url) && endpoint_leads_back(&endpoints[i], model, visited) {
            proof {
                assert(eps[i as int].base_url == url@);
            }
            return true;
        }
        i = i + 1;
    }
    false
}

impl Hive {
    /// The load of a model on an endpoint to route on, and whether it is vouched for.
    pub(crate) fn endpoint_load(&self, ep: &DiscoveredEndpoint, model: &String) -> (r: (u64, bool))
        ensures
            r == load_on(self@, ep@, model@),
    {
        let key = (ep.id.clone(), model.clone());
        let server = match self.loads.get(&key) {
            Some(l) => *l,
            None => Load::Unknown,
        };
        let flying: u64 = match self.inflight.get(&ep.base_url) {
            Some(n) => *n,
            None => 0,
        };
        effective_load(server, flying)
    }

    /// Counts one request against `base_url`.
    pub fn track_inflight(&mut self, base_url: &str)
        requires
            flying(old(self)@, base_url@) < u64::MAX,
        ensures
            final(self)@ == (HiveV {
                inflight: old(self)@.inflight.insert(
                    base_url@,
                    (flying(old(self)@, base_url@) + 1) as u64,
                ),
                ..old(self)@
            }),
    {
        let url = base_url.to_owned();
        let n: u64 = match self.inflight.get(&url) {
            Some(n) => *n,
            None => 0,
        };
        self.inflight.insert(url, n + 1);
    }

    /// Counts one request against `base_url` no longer. No entry of zero stays.
    pub fn release_inflight(&mut self, base_url: &str)
        ensures
            final(self)@ == (HiveV {
                inflight: released(old(self)@.inflight, base_url@),
                ..old(self)@
            }),
    {
        let url = base_url.to_owned();
        let n: u64 = match self.inflight.get(&url) {
            Some(n) => *n,
            None => 0,
        };
        if n > 1 {
            self.inflight.insert(url, n - 1);
        } else {
            self.inflight.remove(&url);
            proof {
                assert(self@.inflight =~= released(old(self)@.inflight, base_url@));
            }
        }
    }

    /// Ranks `base_url` last for [`FAILURE_COOLDOWN`].
    pub fn mark_failed(&mut self, base_url: &str, now: u64)
        requires
            now + FAILURE_COOLDOWN <= u64::MAX,
        ensures
            final(self)@ == failed(old(self)@, base_url@, now),
    {
        self.cooldown.insert(base_url.to_owned(), now + FAILURE_COOLDOWN);
    }

    /// Ends the cooldown of `base_url`.
    pub fn mark_healthy(&mut self, base_url: &str)
        ensures
            final(self)@ == healthy(old(self)@, base_url@),
    {
        self.cooldown.remove(&base_url.to_owned());
    }

    /// Orders the backends that serve `model` by effective load, lowest first.
    /// Equal loads rotate round-robin. Backends that just failed a request go
    /// last: an unreachable backend reports no load, so it would otherwise look
    /// idle and be tried first.
    pub fn candidates(&mut self, model: &str, now: u64) -> (r: Vec<String>)
        ensures
            r.deep_view() == row_urls(ranking(old(self)@, model@, now)),
            final(self)@ == after_decision(old(self)@, model@, now),
            old(self)@.wf() ==> final(self)@.wf(),
    {
        let ghost h = self@;
        let name = model.to_owned();
        self.cooldown.keep_above(now);
        let ghost eps = self.endpoints.deep_view();
        let mut ranked: Vec<Row> = Vec::new();
        let mut i: usize = 0;
        proof {
            assert(ranked.deep_view() =~= rows(h, eps.take(0), model@, now));
        }
        while i < self.endpoints.len()
            invariant
                i <= self.endpoints@.len(),
                eps == self.endpoints.deep_view(),
                eps == h.endpoints,
                name@ == model@,
                self@ == (HiveV { cooldown: above(h.cooldown, now), ..h }),
                ranked.deep_view() == rows(h, eps.take(i as int), model@, now),
            decreases self.endpoints@.len() - i,
        {
            let ep = &self.endpoints[i];
            proof {
                assert(eps.take(i + 1).drop_last() =~= eps.take(i as int));
                assert(eps.take(i + 1).last() == ep@);
            }
            if contains(&ep.models, &name) {
                let ghost before = ranked;
                let (load, _) = self.endpoint_load(ep, &name);
                let cooling = self.cooldown.contains_key(&ep.base_url);
                let r = Row { url: ep.base_url.clone(), cooling, load };
                ranked.push(r);
                proof {
                    assert(r.deep_view() == row(h, ep@, model@, now));
                    lemma_deep_push(before, ranked, r);
                }
            }
            i = i + 1;
        }
        proof {
            assert(eps.take(i as int) =~= eps);
        }
        let ranked = stable_sort(ranked);
        let turn: usize = match self.rr.get(&name) {
            Some(n) => *n,
            None => 0,
        };
        self.rr.insert(name, turn.wrapping_add(1));
        take_turns(&ranked, turn)
    }

    /// `candidates` minus those leading back to a visited hive: those whose base
    /// URL was visited, and hives whose every route for `model` runs through a
    /// visited hive.
    pub fn without_visited(&self, model: &str, candidates: Vec<String>, visited: &Vec<String>) -> (r:
        Vec<String>)
        ensures
            r.deep_view() == unvisited(
                self@.endpoints,
                candidates.deep_view(),
                model@,
                visited.deep_view(),
            ),
    {
        let ghost all = candidates@;
        let ghost s = candidates.deep_view();
        let ghost eps = self.endpoints.deep_view();
        let ghost vs = visited.deep_view();
        let ghost keep = |u: Seq<char>| !url_leads_back(eps, u, model@, vs);
        let mut out: Vec<String> = Vec::new();
        proof {
            reveal(Seq::filter);
            assert(out.deep_view() =~= s.take(0).filter(keep));
        }
        for u in it: candidates
            invariant
                it.seq() == all,
                s.len() == all.len(),
                forall|k: int| 0 <= k < all.len() ==> s[k] == all[k]@,
                eps == self.endpoints.deep_view(),
                vs == visited.deep_view(),
                keep == (|u: Seq<char>| !url_leads_back(eps, u, model@, vs)),
                out.deep_view() == s.take(it.index() as int).filter(keep),
        {
            proof {
                reveal(Seq::filter);
                assert(s.take(it.index() + 1).drop_last() =~= s.take(it.index() as int));
                assert(s.take(it.index() + 1).last() == u@);
            }
            if !candidate_leads_back(&self.endpoints, &u, model, visited) {
                let ghost before = out;
                out.push(u);
                proof {
                    lemma_deep_push(before, out, u);
                }
            }
        }
        proof {
            assert(s.take(s.len() as int) =~= s);
        }
        out
    }

    /// [`Hive::candidates`] minus backends that lead back to a visited hive.
    pub fn candidates_excluding(&mut self, model: &str, visited: &Vec<String>, now: u64) -> (r: Vec<
        String,
    >)
        ensures
            r.deep_view() == unvisited(
                old(self)@.endpoints,
                row_urls(ranking(old(self)@, model@, now)),
                model@,
                visited.deep_view(),
            ),
            final(self)@ == after_decision(old(self)@, model@, now),
    {
        let all = self.candidates(model, now);
        self.without_visited(model, all, visited)
    }
}

/// The requests in flight after one on `url` has ended.
pub open spec fn released(inflight: Map<Seq<char>, u64>, url: Seq<char>) -> Map<Seq<char>, u64> {
    if inflight.contains_key(url) && inflight[url] > 1 {
        inflight.insert(url, (inflight[url] - 1) as u64)
    } else {
        inflight.remove(url)
    }
}

/// The hive after a failure of `url`.
pub open spec fn failed(h: HiveV, url: Seq<char>, now: u64) -> HiveV {
    HiveV { cooldown: h.cooldown.insert(url, (now + FAILURE_COOLDOWN) as u64), ..h }
}

/// The hive after `url` answered.
pub open spec fn healthy(h: HiveV, url: Seq<char>) -> HiveV {
    HiveV { cooldown: h.cooldown.remove(url), ..h }
}

/// The base URLs of ranked rows, each run of ties rotated by `turn`.
fn take_turns(ranked: &Vec<Row>, turn: usize) -> (r: Vec<String>)
    ensures
        r.deep_view() == row_urls(turned(ranked.deep_view(), turn as nat)),
{
    let ghost s = ranked.deep_view();
    let mut out: Vec<String> = Vec::new();
    let mut i: usize = 0;
    proof {
        assert(s.skip(0) =~= s);
        assert(out.deep_view() + row_urls(turned(s, turn as nat)) =~= row_urls(
            turned(s, turn as nat),
        ));
    }
    while i < ranked.len()
        invariant
            i <= ranked@.len(),
            s == ranked.deep_view(),
            out.deep_view() + row_urls(turned(s.skip(i as int), turn as nat)) == row_urls(
                turned(s, turn as nat),
            ),
        decreases ranked@.len() - i,
    {
        let ghost rest = s.skip(i as int);
        let ghost first = s[i as int];
        let mut j: usize = i;
        proof {
            lemma_run(first, rest);
        }
        while j < ranked.len() && ranked[j].cooling == ranked[i].cooling && ranked[j].load
            == ranked[i].load
            invariant
                i <= j <= ranked@.len(),
                i < ranked@.len(),
                s == ranked.deep_view(),
                rest == s.skip(i as int),
                first == s[i as int],
                run_of(first, rest) == (j - i) + run_of(first, s.skip(j as int)),
            decreases ranked@.len() - j,
        {
            proof {
                assert(s.skip(j as int).first() == ranked@[j as int].deep_view());
                assert(s.skip(j as int).drop_first() =~= s.skip(j + 1));
            }
            j = j + 1;
        }
        proof {
            if j < ranked@.len() {
                assert(s.skip(j as int).first() == ranked@[j as int].deep_view());
            }
            assert(run_of(first, s.skip(j as int)) == 0);
            assert(rest.first() == first);
            assert(run_len(rest) == j - i);
        }
        let n: usize = j - i;
        let k: usize = turn % n;
        let ghost start = out.deep_view();
        let ghost group = rest.subrange(k as int, n as int) + rest.take(k as int);
        let mut m: usize = 0;
        while m < n
            invariant
                m <= n,
                n == j - i,
                k < n,
                i <= j <= ranked@.len(),
                s == ranked.deep_view(),
                rest == s.skip(i as int),
                group == rest.subrange(k as int, n as int) + rest.take(k as int),
                out.deep_view() == start + row_urls(group.take(m as int)),
            decreases n - m,
        {
            let at: usize = if m < n - k {
                i + k + m
            } else {
                i + (m - (n - k))
            };
            let ghost before = out;
            let u = ranked[at].url.clone();
            out.push(u);
            proof {
                lemma_deep_push(before, out, u);
                assert(group[m as int] == s[at as int]);
                assert(row_urls(group.take(m + 1)) =~= row_urls(group.take(m as int)).push(u@));
                assert(start + row_urls(group.take(m as int)).push(u@) =~= (start + row_urls(
                    group.take(m as int),
                )).push(u@));
            }
            m = m + 1;
        }
        proof {
            assert(group.take(n as int) =~= group);
            assert(rest.skip(n as int) =~= s.skip(j as int));
            let tail = turned(s.skip(j as int), turn as nat);
            assert(turned(rest, turn as nat) == group + tail);
            assert(row_urls(group + tail) =~= row_urls(group) + row_urls(tail));
            assert(start + (row_urls(group) + row_urls(tail)) =~= (start + row_urls(group))
                + row_urls(tail));
        }
        i = j;
    }
    proof {
        assert(s.skip(i as int).len() == 0);
        assert(out.deep_view() + row_urls(turned(s.skip(i as int), turn as nat))
            =~= out.deep_view());
    }
    out
}

/// The base URLs of the endpoints that serve a model.
pub open spec fn servers(endpoints: Seq<EndpointV>, model: Seq<char>) -> Seq<Seq<char>>
    decreases endpoints.len(),
{
    if endpoints.len() == 0 {
        Seq::empty()
    } else {
        let before = servers(endpoints.drop_last(), model);
        if endpoints.last().models.contains(model) {
            before.push(endpoints.last().base_url)
        } else {
            before
        }
    }
}

/// The rows are those of the endpoints that serve the model.
proof fn lemma_rows_urls(h: HiveV, endpoints: Seq<EndpointV>, model: Seq<char>, now: u64)
    ensures
        row_urls(rows(h, endpoints, model, now)) == servers(endpoints, model),
    decreases endpoints.len(),
{
    if endpoints.len() > 0 {
        lemma_rows_urls(h, endpoints.drop_last(), model, now);
        assert(row_urls(rows(h, endpoints, model, now)) =~= servers(endpoints, model));
    } else {
        assert(row_urls(rows(h, endpoints, model, now)) =~= servers(endpoints, model));
    }
}

/// Taking turns loses no row and adds none.
proof fn lemma_turned_items(s: Seq<RowV>, turn: nat)
    ensures
        turned(s, turn).to_multiset() == s.to_multiset(),
        turned(s, turn).len() == s.len(),
    decreases s.len(),
{
    broadcast use vstd::seq_lib::group_to_multiset_ensures;

    if s.len() > 0 {
        let n = run_len(s);
        lemma_run(s.first(), s);
        lemma_run_positive(s);
        let k = (turn % n) as int;
        let rest = s.skip(n as int);
        lemma_turned_items(rest, turn);
        let a = s.subrange(k, n as int);
        let b = s.take(k);
        let t = turned(rest, turn);
        vstd::seq_lib::lemma_multiset_commutative(a + b, t);
        vstd::seq_lib::lemma_multiset_commutative(a, b);
        vstd::seq_lib::lemma_multiset_commutative(b, a);
        vstd::seq_lib::lemma_multiset_commutative(b + a, rest);
        assert((b + a) + rest =~= s);
        assert(turned(s, turn).to_multiset() =~= s.to_multiset());
    }
}

/// The run at the front of a nonempty list is not empty.
proof fn lemma_run_positive(s: Seq<RowV>)
    requires
        s.len() > 0,
    ensures
        run_len(s) > 0,
{
}

/// The ranking has the rows of the endpoints that serve the model.
pub proof fn law_ranking_is_rows(h: HiveV, model: Seq<char>, now: u64)
    ensures
        ranking(h, model, now).to_multiset() == rows(h, h.endpoints, model, now).to_multiset(),
{
    let r = rows(h, h.endpoints, model, now);
    law_sorted_is_permutation::<Row>(r);
    lemma_turned_items(sorted::<Row>(r), turn_of(h, model) as nat);
}

/// The candidates for a model are the endpoints that serve it: none is left out,
/// none is added, none is repeated.
pub proof fn law_candidates_are_the_servers(h: HiveV, model: Seq<char>, now: u64)
    ensures
        row_urls(ranking(h, model, now)).to_multiset() == servers(h.endpoints, model).to_multiset(),
{
    let r = rows(h, h.endpoints, model, now);
    law_ranking_is_rows(h, model, now);
    lemma_map_permutation(ranking(h, model, now), r, |r: RowV| r.url);
    lemma_rows_urls(h, h.endpoints, model, now);
}

/// The front of a list in which turns were taken ties, and the rest is turned.
proof fn lemma_turned_front(s: Seq<RowV>, turn: nat)
    requires
        s.len() > 0,
    ensures
        ({
            let n = run_len(s) as int;
            let all = turned(s, turn);
            &&& 0 < n <= s.len() == all.len()
            &&& forall|i: int| 0 <= i < n ==> tied(s.first(), #[trigger] all[i])
            &&& all.skip(n) == turned(s.skip(n), turn)
        }),
{
    let n = run_len(s) as int;
    lemma_run(s.first(), s);
    lemma_run_positive(s);
    lemma_turned_items(s, turn);
    let k = (turn % run_len(s)) as int;
    let all = turned(s, turn);
    assert forall|i: int| 0 <= i < n implies tied(s.first(), #[trigger] all[i]) by {
        if i < n - k {
            assert(all[i] == s[k + i]);
        } else {
            assert(all[i] == s[i - (n - k)]);
        }
    }
    assert(all.skip(n) =~= turned(s.skip(n), turn));
}

/// Taking turns keeps the order.
proof fn lemma_turned_in_order(s: Seq<RowV>, turn: nat)
    requires
        in_order::<Row>(s),
    ensures
        in_order::<Row>(turned(s, turn)),
    decreases s.len(),
{
    if s.len() > 0 {
        let n = run_len(s) as int;
        let all = turned(s, turn);
        lemma_turned_front(s, turn);
        let rest = s.skip(n);
        let t = turned(rest, turn);
        assert(in_order::<Row>(rest)) by {
            assert forall|i: int, j: int| 0 <= i < j < rest.len() implies !Row::before(
                #[trigger] rest[j],
                #[trigger] rest[i],
            ) by {
                assert(!Row::before(s[n + j], s[n + i]));
            }
        }
        lemma_turned_in_order(rest, turn);
        lemma_turned_items(rest, turn);
        assert forall|i: int, j: int| 0 <= i < j < all.len() implies !Row::before(
            #[trigger] all[j],
            #[trigger] all[i],
        ) by {
            if j >= n {
                assert(all.skip(n)[j - n] == all[j]);
                if i >= n {
                    assert(all.skip(n)[i - n] == all[i]);
                    assert(!Row::before(t[j - n], t[i - n]));
                } else {
                    assert(t.contains(t[j - n]));
                    lemma_permutation_contains(t, rest, t[j - n]);
                    let m = choose|m: int| 0 <= m < rest.len() && rest[m] == t[j - n];
                    assert(!Row::before(s[n + m], s[0]));
                    assert(tied(s.first(), all[i]));
                }
            } else {
                assert(tied(s.first(), all[i]) && tied(s.first(), all[j]));
            }
        }
    }
}

/// Rows are ordered.
proof fn lemma_row_order()
    ensures
        is_order::<Row>(),
{
}

/// A backend that cools down never comes before one that does not, and of two that
/// do or do not, none comes before one with a smaller load.
pub proof fn law_candidates_in_order(h: HiveV, model: Seq<char>, now: u64)
    ensures
        in_order::<Row>(ranking(h, model, now)),
{
    lemma_row_order();
    let s = sorted::<Row>(rows(h, h.endpoints, model, now));
    law_sorted_in_order::<Row>(rows(h, h.endpoints, model, now));
    lemma_turned_in_order(s, turn_of(h, model) as nat);
}

/// Backends that tie for the first place take turns: over as many consecutive turns
/// as there are of them, each comes first.
pub proof fn law_ties_take_turns(s: Seq<RowV>, turn: nat, j: nat)
    requires
        s.len() > 0,
        j < run_len(s),
    ensures
        exists|k: nat| k < run_len(s) && #[trigger] turned(s, turn + k).first() == s[j as int],
{
    lemma_run(s.first(), s);
    let n = run_len(s);
    let t = turn % n;
    let k: nat = if j >= t {
        (j - t) as nat
    } else {
        (j + n - t) as nat
    };
    assert((turn + k) % n == j) by {
        vstd::arithmetic::div_mod::lemma_fundamental_div_mod(turn as int, n as int);
        let q = turn as int / n as int;
        if j >= t {
            assert(turn + k == n * q + j);
            vstd::arithmetic::div_mod::lemma_fundamental_div_mod_converse(
                (turn + k) as int,
                n as int,
                q,
                j as int,
            );
        } else {
            assert(turn + k == n * q + n + j);
            assert(n * (q + 1) == n * q + n) by (nonlinear_arith);
            vstd::arithmetic::div_mod::lemma_fundamental_div_mod_converse(
                (turn + k) as int,
                n as int,
                q + 1,
                j as int,
            );
        }
    }
    let m = ((turn + k) % n) as int;
    assert(turned(s, turn + k)[0] == s[m]);
    assert(turned(s, turn + k).first() == s[j as int]);
}

/// Each decision for a model advances its turn by one, and that of no other model.
pub proof fn law_turn_advances(h: HiveV, model: Seq<char>, other: Seq<char>, now: u64)
    requires
        other != model,
    ensures
        turn_of(after_decision(h, model, now), model) == wrapping_next(turn_of(h, model)),
        turn_of(after_decision(h, model, now), other) == turn_of(h, other),
{
}

/// No candidate that is left leads back to a visited hive, and none was added.
pub proof fn law_visited_never_tried(
    endpoints: Seq<EndpointV>,
    candidates: Seq<Seq<char>>,
    model: Seq<char>,
    visited: Seq<Seq<char>>,
    u: Seq<char>,
)
    ensures
        unvisited(endpoints, candidates, model, visited).contains(u) <==> candidates.contains(u)
            && !url_leads_back(endpoints, u, model, visited),
{
    lemma_filter(candidates, |u: Seq<char>| !url_leads_back(endpoints, u, model, visited), u);
}

/// A backend that failed is ranked last for exactly the cooldown.
pub proof fn law_cooldown_expires(h: HiveV, url: Seq<char>, now: u64, later: u64)
    requires
        now + FAILURE_COOLDOWN <= u64::MAX,
    ensures
        cools(failed(h, url, now), url, later) <==> later < now + FAILURE_COOLDOWN,
        !cools(healthy(h, url), url, later),
{
}

/// Forgetting expired cooldowns changes no later ranking.
pub proof fn law_pruning_changes_nothing(h: HiveV, url: Seq<char>, now: u64, later: u64)
    requires
        now <= later,
    ensures
        cools(HiveV { cooldown: above(h.cooldown, now), ..h }, url, later) == cools(h, url, later),
{
}

/// Whether every backend with an entry has a request in flight.
pub open spec fn no_idle_entries(inflight: Map<Seq<char>, u64>) -> bool {
    forall|u: Seq<char>| #[trigger] inflight.contains_key(u) ==> inflight[u] > 0
}

/// Ending a request undoes the count of its start, and idle backends leave no
/// entry.
pub proof fn law_release_undoes_track(h: HiveV, url: Seq<char>)
    requires
        no_idle_entries(h.inflight),
        flying(h, url) < u64::MAX,
    ensures
        ({
            let counted = h.inflight.insert(url, (flying(h, url) + 1) as u64);
            released(counted, url) == h.inflight && no_idle_entries(counted)
        }),
{
    let counted = h.inflight.insert(url, (flying(h, url) + 1) as u64);
    assert(released(counted, url) =~= h.inflight);
}

/// The rows say which backends cool down.
proof fn lemma_rows_cooling(
    h: HiveV,
    endpoints: Seq<EndpointV>,
    model: Seq<char>,
    now: u64,
    r: RowV,
)
    requires
        rows(h, endpoints, model, now).contains(r),
    ensures
        r.cooling == cools(h, r.url, now),
    decreases endpoints.len(),
{
    if endpoints.len() > 0 {
        let before = rows(h, endpoints.drop_last(), model, now);
        if before.contains(r) {
            lemma_rows_cooling(h, endpoints.drop_last(), model, now, r);
        } else {
            let all = rows(h, endpoints, model, now);
            let k = choose|k: int| 0 <= k < all.len() && all[k] == r;
            if k < before.len() {
                assert(before[k] == r);
            }
        }
    }
}

/// A backend that cools down stands behind every candidate that does not, whatever
/// their loads.
pub proof fn law_cooling_backends_last(h: HiveV, model: Seq<char>, now: u64, i: int, j: int)
    requires
        0 <= i < j < ranking(h, model, now).len(),
        cools(h, ranking(h, model, now)[i].url, now),
    ensures
        cools(h, ranking(h, model, now)[j].url, now),
{
    let all = ranking(h, model, now);
    let r = rows(h, h.endpoints, model, now);
    law_candidates_in_order(h, model, now);
    law_ranking_is_rows(h, model, now);
    assert(all.contains(all[i]) && all.contains(all[j]));
    lemma_permutation_contains(all, r, all[i]);
    lemma_permutation_contains(all, r, all[j]);
    lemma_rows_cooling(h, h.endpoints, model, now, all[i]);
    lemma_rows_cooling(h, h.endpoints, model, now, all[j]);
    assert(!Row::before(all[j], all[i]));
}

/// A list that starts with the item at `n` and runs round.
pub open spec fn rotated<A>(s: Seq<A>, n: int) -> Seq<A> {
    s.skip(n) + s.take(n)
}

/// Routing decisions: for which model, and when.
pub type DecisionsV = Seq<(Seq<char>, u64)>;

/// The hive after routing decisions.
pub open spec fn after_decisions(h: HiveV, calls: DecisionsV) -> HiveV
    decreases calls.len(),
{
    if calls.len() == 0 {
        h
    } else {
        after_decision(after_decisions(h, calls.drop_last()), calls.last().0, calls.last().1)
    }
}

/// The number of decisions for a model.
pub open spec fn asked(calls: DecisionsV, model: Seq<char>) -> nat
    decreases calls.len(),
{
    if calls.len() == 0 {
        0
    } else {
        asked(calls.drop_last(), model) + if calls.last().0 == model {
            1nat
        } else {
            0nat
        }
    }
}

/// Whether all backends that serve `model` are ranked alike at a time.
pub open spec fn all_tied(h: HiveV, model: Seq<char>, now: u64) -> bool {
    let r = rows(h, h.endpoints, model, now);
    forall|i: int, j: int|
        0 <= i < r.len() && 0 <= j < r.len() ==> tied(#[trigger] r[i], #[trigger] r[j])
}

/// Decisions keep what backends are ranked by, and count the turns of a model.
proof fn lemma_after_decisions(h: HiveV, calls: DecisionsV, model: Seq<char>, now: u64)
    requires
        forall|i: int| 0 <= i < calls.len() ==> (#[trigger] calls[i]).1 <= now,
        turn_of(h, model) + asked(calls, model) <= usize::MAX,
    ensures
        ({
            let g = after_decisions(h, calls);
            &&& g.endpoints == h.endpoints
            &&& g.loads == h.loads
            &&& g.inflight == h.inflight
            &&& forall|u: Seq<char>| #[trigger] cools(g, u, now) == cools(h, u, now)
            &&& turn_of(g, model) == turn_of(h, model) + asked(calls, model)
        }),
    decreases calls.len(),
{
    if calls.len() > 0 {
        let before = calls.drop_last();
        assert forall|i: int| 0 <= i < before.len() implies (#[trigger] before[i]).1 <= now by {
            assert(before[i] == calls[i]);
        }
        lemma_after_decisions(h, before, model, now);
        assert(calls[calls.len() - 1].1 <= now);
        let b = after_decisions(h, before);
        let g = after_decisions(h, calls);
        assert forall|u: Seq<char>| #[trigger] cools(g, u, now) == cools(h, u, now) by {
            assert(cools(b, u, now) == cools(h, u, now));
        }
    }
}

/// Hives that agree on what backends are ranked by have the same rows.
proof fn lemma_same_rows(h: HiveV, g: HiveV, eps: Seq<EndpointV>, model: Seq<char>, now: u64)
    requires
        g.loads == h.loads,
        g.inflight == h.inflight,
        forall|u: Seq<char>| #[trigger] cools(g, u, now) == cools(h, u, now),
    ensures
        rows(g, eps, model, now) == rows(h, eps, model, now),
    decreases eps.len(),
{
    if eps.len() > 0 {
        lemma_same_rows(h, g, eps.drop_last(), model, now);
        assert(cools(g, eps.last().base_url, now) == cools(h, eps.last().base_url, now));
    }
}

/// Rows that all tie stay as they stand when sorted.
proof fn lemma_tied_sorted(s: Seq<RowV>)
    requires
        forall|i: int, j: int|
            0 <= i < s.len() && 0 <= j < s.len() ==> tied(#[trigger] s[i], #[trigger] s[j]),
    ensures
        sorted::<Row>(s) == s,
    decreases s.len(),
{
    if s.len() > 0 {
        let rest = s.drop_last();
        assert forall|i: int, j: int| 0 <= i < rest.len() && 0 <= j < rest.len() implies tied(
            #[trigger] rest[i],
            #[trigger] rest[j],
        ) by {
            assert(tied(s[i], s[j]));
        }
        lemma_tied_sorted(rest);
        if rest.len() > 0 {
            assert(rest.last() == s[s.len() - 2]);
            assert(tied(s[s.len() - 1], s[s.len() - 2]));
        }
        assert(rest.push(s.last()) =~= s);
    }
}

/// Rows that all tie are one run.
proof fn lemma_tied_run(first: RowV, s: Seq<RowV>)
    requires
        forall|i: int| 0 <= i < s.len() ==> tied(first, #[trigger] s[i]),
    ensures
        run_of(first, s) == s.len(),
{
    lemma_run(first, s);
}

/// The n-th decision for a model whose backends are ranked alike starts with the
/// backend at `n` and runs round, counted from the turn that the model had, whatever
/// other models were asked for in between. Time does not run backwards.
pub proof fn law_nth_decision_rotates(h: HiveV, model: Seq<char>, calls: DecisionsV, now: u64)
    requires
        all_tied(h, model, now),
        servers(h.endpoints, model).len() > 0,
        forall|i: int| 0 <= i < calls.len() ==> (#[trigger] calls[i]).1 <= now,
        turn_of(h, model) + asked(calls, model) <= usize::MAX,
    ensures
        row_urls(ranking(after_decisions(h, calls), model, now)) == rotated(
            servers(h.endpoints, model),
            (turn_of(h, model) + asked(calls, model)) % (servers(h.endpoints, model).len() as int),
        ),
{
    let g = after_decisions(h, calls);
    let r = rows(h, h.endpoints, model, now);
    lemma_after_decisions(h, calls, model, now);
    lemma_same_rows(h, g, h.endpoints, model, now);
    lemma_tied_sorted(r);
    lemma_rows_urls(h, h.endpoints, model, now);
    let urls = servers(h.endpoints, model);
    assert(urls.len() == r.len());
    lemma_tied_run(r.first(), r);
    let turn = turn_of(g, model) as nat;
    let k = (turn % r.len()) as int;
    assert(turned(r, turn) == r.subrange(k, r.len() as int) + r.take(k) + turned(
        r.skip(r.len() as int),
        turn,
    ));
    assert(turned(r.skip(r.len() as int), turn) =~= Seq::empty());
    assert forall|i: int| 0 <= i < r.len() implies #[trigger] urls[i] == r[i].url by {
        assert(row_urls(r)[i] == r[i].url);
    }
    assert(row_urls(turned(r, turn)) =~= rotated(urls, k));
}

/// The decision for a model that has `n` others before it.
proof fn lemma_nth_call(calls: DecisionsV, model: Seq<char>, n: nat) -> (i: int)
    requires
        n < asked(calls, model),
    ensures
        0 <= i < calls.len(),
        calls[i].0 == model,
        asked(calls.take(i), model) == n,
    decreases calls.len(),
{
    let before = calls.drop_last();
    if n < asked(before, model) {
        let i = lemma_nth_call(before, model, n);
        assert(before.take(i) =~= calls.take(i));
        i
    } else {
        assert(calls.take(calls.len() - 1) =~= before);
        calls.len() - 1
    }
}

/// Of two decisions for a model the later has more before it.
proof fn lemma_calls_count(calls: DecisionsV, model: Seq<char>, i: int, j: int)
    requires
        0 <= i < j <= calls.len(),
        calls[i].0 == model,
    ensures
        asked(calls.take(i), model) < asked(calls.take(j), model),
    decreases j,
{
    assert(calls.take(j).drop_last() =~= calls.take(j - 1));
    assert(calls.take(j).last() == calls[j - 1]);
    if i < j - 1 {
        lemma_calls_count(calls, model, i, j - 1);
    }
}

/// Whether the decision at `i` is for a model and starts with a backend.
pub open spec fn led_by(
    h: HiveV,
    calls: DecisionsV,
    i: int,
    model: Seq<char>,
    url: Seq<char>,
) -> bool {
    calls[i].0 == model && row_urls(
        ranking(after_decisions(h, calls.take(i)), model, calls[i].1),
    ).first() == url
}

/// Over as many decisions for a model as it has backends, each of them comes first
/// exactly once, as long as they are ranked alike.
pub proof fn law_each_backend_leads_once(h: HiveV, model: Seq<char>, calls: DecisionsV, b: int)
    requires
        0 <= b < servers(h.endpoints, model).len(),
        servers(h.endpoints, model).no_duplicates(),
        asked(calls, model) == servers(h.endpoints, model).len(),
        turn_of(h, model) + asked(calls, model) <= usize::MAX,
        forall|i: int, j: int|
            0 <= i <= j < calls.len() ==> (#[trigger] calls[i]).1 <= (#[trigger] calls[j]).1,
        forall|i: int| 0 <= i < calls.len() ==> all_tied(h, model, (#[trigger] calls[i]).1),
    ensures
        exists|i: int|
            0 <= i < calls.len() && #[trigger] led_by(
                h,
                calls,
                i,
                model,
                servers(h.endpoints, model)[b],
            ),
        forall|i: int, j: int|
            0 <= i < calls.len() && 0 <= j < calls.len() && #[trigger] led_by(
                h,
                calls,
                i,
                model,
                servers(h.endpoints, model)[b],
            ) && #[trigger] led_by(h, calls, j, model, servers(h.endpoints, model)[b]) ==> i == j,
{
    let urls = servers(h.endpoints, model);
    let k = urls.len() as int;
    let t = turn_of(h, model) as int;
    assert forall|i: int| 0 <= i < calls.len() && (#[trigger] calls[i]).0 == model implies led_by(
        h,
        calls,
        i,
        model,
        urls[(t + asked(calls.take(i), model)) % k],
    ) && asked(calls.take(i), model) < k by {
        lemma_calls_count(calls, model, i, calls.len() as int);
        assert(calls.take(calls.len() as int) =~= calls);
        let before = calls.take(i);
        assert forall|m: int| 0 <= m < before.len() implies (#[trigger] before[m]).1
            <= calls[i].1 by {
            assert(before[m] == calls[m]);
        }
        assert(all_tied(h, model, calls[i].1));
        law_nth_decision_rotates(h, model, before, calls[i].1);
        let at = (t + asked(before, model)) % k;
        vstd::arithmetic::div_mod::lemma_mod_bound(t + asked(before, model), k);
        assert(rotated(urls, at).first() == urls[at]);
    }
    // The backend leads after as many decisions as make up for the turn.
    let n: int = (b - t) % k;
    vstd::arithmetic::div_mod::lemma_mod_bound(b - t, k);
    assert((t + n) % k == b) by {
        vstd::arithmetic::div_mod::lemma_add_mod_noop_right(t, b - t, k);
        vstd::arithmetic::div_mod::lemma_small_mod(b as nat, k as nat);
    }
    let i = lemma_nth_call(calls, model, n as nat);
    assert(calls[i].0 == model);
    assert(led_by(h, calls, i, model, urls[b]));
    assert forall|i: int, j: int|
        0 <= i < calls.len() && 0 <= j < calls.len() && #[trigger] led_by(
            h,
            calls,
            i,
            model,
            urls[b],
        ) && #[trigger] led_by(h, calls, j, model, urls[b]) implies i == j by {
        let x = asked(calls.take(i), model);
        let y = asked(calls.take(j), model);
        assert(calls[i].0 == model && calls[j].0 == model);
        vstd::arithmetic::div_mod::lemma_mod_bound(t + x, k);
        vstd::arithmetic::div_mod::lemma_mod_bound(t + y, k);
        assert((t + x) % k == b && (t + y) % k == b);
        lemma_same_remainder(t + x, t + y, k);
        if i < j {
            lemma_calls_count(calls, model, i, j);
        } else if j < i {
            lemma_calls_count(calls, model, j, i);
        }
    }
}

/// Numbers less than `k` apart with the same remainder are equal.
proof fn lemma_same_remainder(x: int, y: int, k: int)
    requires
        k > 0,
        -k < x - y < k,
        x % k == y % k,
    ensures
        x == y,
{
    vstd::arithmetic::div_mod::lemma_fundamental_div_mod(x, k);
    vstd::arithmetic::div_mod::lemma_fundamental_div_mod(y, k);
    let p = x / k;
    let q = y / k;
    assert(p == q) by (nonlinear_arith)
        requires
            k > 0,
            -k < k * p - k * q < k,
    ;
}

/// The servers of a model are the endpoints that list it, and no others.
pub proof fn law_servers(endpoints: Seq<EndpointV>, model: Seq<char>, u: Seq<char>)
    ensures
        servers(endpoints, model).contains(u) <==> exists|i: int|
            0 <= i < endpoints.len() && (#[trigger] endpoints[i]).base_url == u
                && endpoints[i].models.contains(model),
    decreases endpoints.len(),
{
    if endpoints.len() > 0 {
        let rest = endpoints.drop_last();
        let all = servers(endpoints, model);
        let before = servers(rest, model);
        law_servers(rest, model, u);
        if before.contains(u) {
            let i = choose|i: int|
                0 <= i < rest.len() && (#[trigger] rest[i]).base_url == u
                    && rest[i].models.contains(model);
            assert(endpoints[i] == rest[i]);
            let k = choose|k: int| 0 <= k < before.len() && before[k] == u;
            assert(all[k] == u);
        }
        if endpoints.last().base_url == u && endpoints.last().models.contains(model) {
            assert(all.last() == u);
        }
        if all.contains(u) && !before.contains(u) {
            let k = choose|k: int| 0 <= k < all.len() && all[k] == u;
            if k < before.len() {
                assert(before[k] == u);
            }
            assert(endpoints[endpoints.len() - 1].base_url == u);
        }
        if exists|i: int|
            0 <= i < endpoints.len() && (#[trigger] endpoints[i]).base_url == u
                && endpoints[i].models.contains(model) {
            let i = choose|i: int|
                0 <= i < endpoints.len() && (#[trigger] endpoints[i]).base_url == u
                    && endpoints[i].models.contains(model);
            if i < rest.len() {
                assert(rest[i] == endpoints[i]);
            }
        }
    }
}

/// A row is that of an endpoint that serves the model.
proof fn lemma_row_endpoint(
    h: HiveV,
    endpoints: Seq<EndpointV>,
    model: Seq<char>,
    now: u64,
    r: RowV,
) -> (k: int)
    requires
        rows(h, endpoints, model, now).contains(r),
    ensures
        0 <= k < endpoints.len(),
        endpoints[k].models.contains(model),
        r == row(h, endpoints[k], model, now),
    decreases endpoints.len(),
{
    let all = rows(h, endpoints, model, now);
    let before = rows(h, endpoints.drop_last(), model, now);
    if before.contains(r) {
        lemma_row_endpoint(h, endpoints.drop_last(), model, now, r)
    } else {
        let k = choose|k: int| 0 <= k < all.len() && all[k] == r;
        if k < before.len() {
            assert(before[k] == r);
        }
        endpoints.len() - 1
    }
}

/// What a backend is ranked by is what is known of it: it cools down while its cooldown
/// has not ended, and its load is at least what it last reported for the model and what
/// the hive has in flight there, and one of the two.
pub proof fn law_ranked_row(h: HiveV, model: Seq<char>, now: u64, i: int) -> (k: int)
    requires
        0 <= i < ranking(h, model, now).len(),
    ensures
        0 <= k < h.endpoints.len(),
        ({
            let r = ranking(h, model, now)[i];
            let ep = h.endpoints[k];
            let f = if h.inflight.contains_key(ep.base_url) {
                h.inflight[ep.base_url]
            } else {
                0
            };
            &&& ep.models.contains(model) && r.url == ep.base_url
            &&& r.cooling <==> h.cooldown.contains_key(r.url) && h.cooldown[r.url] > now
            &&& r.load >= f
            &&& !h.loads.contains_key((ep.id, model)) ==> r.load == f
            &&& h.loads.contains_key((ep.id, model)) ==> match h.loads[(ep.id, model)] {
                Load::Known(n) | Load::Measured(n) => r.load >= n && (r.load == n || r.load == f),
                Load::Unknown => r.load == f,
            }
        }),
{
    let all = ranking(h, model, now);
    law_ranking_is_rows(h, model, now);
    assert(all.contains(all[i]));
    lemma_permutation_contains(all, rows(h, h.endpoints, model, now), all[i]);
    lemma_row_endpoint(h, h.endpoints, model, now, all[i])
}

/// A request goes to a backend that does not cool down before one that does, and of two
/// that are alike in that to the one with the smaller load.
pub proof fn law_ranked_in_order(h: HiveV, model: Seq<char>, now: u64, i: int, j: int)
    requires
        0 <= i < j < ranking(h, model, now).len(),
    ensures
        ({
            let (a, b) = (ranking(h, model, now)[i], ranking(h, model, now)[j]);
            &&& a.cooling ==> b.cooling
            &&& a.cooling == b.cooling ==> a.load <= b.load
        }),
{
    law_candidates_in_order(h, model, now);
    assert(!Row::before(ranking(h, model, now)[j], ranking(h, model, now)[i]));
}

/// Whether a hive of a path was visited.
pub open spec fn passes(path: PathV, visited: Seq<Seq<char>>) -> bool {
    exists|j: int| 0 <= j < path.len() && visited.contains(#[trigger] path[j])
}

/// A plain backend leads back only where it was itself visited. A hive leads back where
/// every path that it told of passes a visited hive, or, where it told of none, if it
/// was visited.
pub proof fn law_leads_back(ep: EndpointV, model: Seq<char>, visited: Seq<Seq<char>>)
    requires
        !visited.contains(ep.base_url),
    ensures
        ep.hive_id is None ==> !leads_back(ep, model, visited),
        ep.hive_id is Some && !ep.paths.contains_key(model) ==> (leads_back(ep, model, visited)
            <==> visited.contains(ep.hive_id->Some_0)),
        ep.hive_id is Some && ep.paths.contains_key(model) ==> (leads_back(ep, model, visited)
            <==> forall|i: int|
            0 <= i < ep.paths[model].len() ==> passes(#[trigger] ep.paths[model][i], visited)),
{
    let rs = routes(ep, model);
    match ep.hive_id {
        None => {
            assert(rs[0] == Seq::<Seq<char>>::empty());
            assert(free_of(rs[0], visited));
        },
        Some(hid) => {
            if ep.paths.contains_key(model) {
                assert(rs == ep.paths[model]);
                assert forall|p: PathV| #[trigger]
                    passes(p, visited) <==> !free_of(p, visited) by {}
            } else {
                assert(rs[0] == seq![hid]);
                assert(rs[0][0] == hid);
                assert(free_of(rs[0], visited) <==> !visited.contains(hid));
            }
        },
    }
}

/// A backend whose own URL was visited leads back, whatever it serves.
pub proof fn law_visited_leads_back(ep: EndpointV, model: Seq<char>, visited: Seq<Seq<char>>)
    requires
        visited.contains(ep.base_url),
    ensures
        leads_back(ep, model, visited),
{
}

/// A routing decision changes the turn of its model and forgets cooldowns that have
/// ended; nothing else. A failure or an answer changes the cooldown of its backend.
pub proof fn law_decisions_keep(
    h: HiveV,
    model: Seq<char>,
    url: Seq<char>,
    other: Seq<char>,
    now: u64,
)
    requires
        other != url,
    ensures
        after_decision(h, model, now) == (HiveV {
            rr: after_decision(h, model, now).rr,
            cooldown: after_decision(h, model, now).cooldown,
            ..h
        }),
        after_decision(h, model, now).cooldown.contains_key(url) <==> h.cooldown.contains_key(url)
            && h.cooldown[url] > now,
        failed(h, url, now) == (HiveV { cooldown: failed(h, url, now).cooldown, ..h }),
        healthy(h, url) == (HiveV { cooldown: healthy(h, url).cooldown, ..h }),
        failed(h, url, now).cooldown.contains_key(other) <==> h.cooldown.contains_key(other),
        h.cooldown.contains_key(other) ==> failed(h, url, now).cooldown[other]
            == h.cooldown[other],
        healthy(h, url).cooldown.contains_key(other) <==> h.cooldown.contains_key(other),
        h.cooldown.contains_key(other) ==> healthy(h, url).cooldown[other] == h.cooldown[other],
{
}

/// The end of a request takes one from the count of its backend, and the last one its
/// entry; the counts of other backends stay.
pub proof fn law_released(inflight: Map<Seq<char>, u64>, url: Seq<char>, other: Seq<char>)
    requires
        other != url,
    ensures
        inflight.contains_key(url) && inflight[url] > 1 ==> released(inflight, url).contains_key(
            url,
        ) && released(inflight, url)[url] == inflight[url] - 1,
        !inflight.contains_key(url) || inflight[url] <= 1 ==> !released(
            inflight,
            url,
        ).contains_key(url),
        released(inflight, url).contains_key(other) <==> inflight.contains_key(other),
        inflight.contains_key(other) ==> released(inflight, url)[other] == inflight[other],
{
}

/// Every run of backends with the same rank takes turns, not just the first: a run is
/// rotated by the turn, and what stands behind it is treated alike.
pub proof fn law_every_run_takes_turns(a: Seq<RowV>, b: Seq<RowV>, turn: nat)
    requires
        a.len() > 0,
        forall|i: int|
            0 <= i < a.len() ==> (#[trigger] a[i]).cooling == a[0].cooling && a[i].load
                == a[0].load,
        b.len() > 0 ==> b[0].cooling != a[0].cooling || b[0].load != a[0].load,
    ensures
        turned(a + b, turn) == rotated(a, (turn % a.len()) as int) + turned(b, turn),
{
    let s = a + b;
    let n = a.len();
    assert(s.first() == a[0]);
    lemma_run(s.first(), s);
    let k = run_len(s);
    if k < n {
        assert(s[k as int] == a[k as int]);
    }
    if k > n {
        assert(s[n as int] == b[0]);
    }
    assert(k == n);
    let t = (turn % n) as int;
    assert(s.subrange(t, n as int) =~= a.skip(t));
    assert(s.take(t) =~= a.take(t));
    assert(s.skip(n as int) =~= b);
}

} // verus!
