//! Hives that discover each other, and how the routes to a model that has lost its
//! backends expire among them.
use crate::deep::{distinct, lemma_contains_push, lemma_distinct, lemma_filter};
use crate::discovery::merge::{
    base_urls, extended, joined, law_merged_by_url, lemma_extended, lemma_url_index, merged,
    url_index,
};
use crate::discovery::probed::{described_paths, objects_of, probe_result};
use crate::discovery::{advertised_by, DiscoveredEndpoint, EndpointV, ProbedV, MAX_HOPS};
use crate::hive::membership::{
    all_models, avoiding, cleaned, foreign, installed, law_members_distinct, law_missing_member,
    lemma_installed_wf, lemma_no_stranger, reachable, scan_result, urls,
};
use crate::hive::paths::{advertised, recorded, routes, PathV};
use crate::hive::replies::{
    law_advertised_read_back, law_routes_grow, list_body, listed, listed_on, model_list,
    model_object, objects, Listed, ListedV,
};
use crate::hive::request::via_of;
use crate::hive::HiveV;
use crate::json::{member, text_of};
use crate::order::{
    law_sorted_is_permutation, lemma_permutation_contains, lemma_permutation_distinct, sorted,
};
use vstd::prelude::*;
use vstd::string::*;

verus! {

/// What a probe of a hive finds, sent with a Via header.
pub open spec fn heard(h: HiveV, via: Option<Seq<char>>) -> ProbedV {
    probe_result(
        model_list(h, via).map_values(|l: ListedV| l.id),
        list_body(h, via),
        Some(h.own_id),
    )
}

/// Whether an endpoint is a hive, as a probe of it found it.
pub open spec fn told_by(ep: EndpointV, h: HiveV, via: Option<Seq<char>>) -> bool {
    let p = heard(h, via);
    ep.models == p.models && ep.hive_id == p.hive_id && ep.paths == p.paths
}

/// Whether an endpoint has nothing to say of a model.
pub open spec fn silent(ep: EndpointV, model: Seq<char>) -> bool {
    ep.models.no_duplicates() && !ep.models.contains(model) && !ep.paths.contains_key(model)
}

/// Whether the paths have at least `k` hops.
pub open spec fn all_far(paths: Seq<PathV>, k: nat) -> bool {
    forall|i: int| 0 <= i < paths.len() ==> (#[trigger] paths[i]).len() >= k
}

/// Whether an endpoint is at least `k` hops away from a backend of a model, as far as
/// it says. No route has more than [`MAX_HOPS`] hops: an endpoint that is farther
/// away does not serve the model.
pub open spec fn distant(ep: EndpointV, model: Seq<char>, k: nat) -> bool {
    &&& ep.models.no_duplicates()
    &&& ep.models.contains(model) ==> k <= MAX_HOPS && (if ep.hive_id is Some {
        ep.paths.contains_key(model)
    } else {
        k == 0
    })
    &&& ep.paths.contains_key(model) ==> all_far(ep.paths[model], k)
}

/// Whether all endpoints are at least `k` hops away from a backend of a model.
pub open spec fn all_distant(endpoints: Seq<EndpointV>, model: Seq<char>, k: nat) -> bool {
    forall|i: int| 0 <= i < endpoints.len() ==> distant(#[trigger] endpoints[i], model, k)
}

/// A scan of one hive of a network: what it found of local backends, of
/// operator-provided ones and of containers.
pub struct ScanV {
    pub hive: int,
    pub found: Seq<EndpointV>,
    pub pinned: Seq<EndpointV>,
    pub docked: Seq<EndpointV>,
}

impl ScanV {
    /// Everything that was found.
    pub open spec fn all(self) -> Seq<EndpointV> {
        self.found + self.pinned + self.docked
    }
}

/// Whether a scan of a hive of a network finds no backend of a model: what serves it
/// is a hive of the network, as it is at the time of the scan.
pub open spec fn finds_hives_only(net: Seq<HiveV>, scan: ScanV, model: Seq<char>) -> bool {
    &&& 0 <= scan.hive < net.len()
    &&& forall|i: int|
        0 <= i < scan.all().len() ==> silent(#[trigger] scan.all()[i], model) || exists|
            p: int,
            via: Option<Seq<char>>,
        |
            0 <= p < net.len() && #[trigger] told_by(scan.all()[i], net[p], via)
}

/// The network after one of its hives installed what a scan found.
pub open spec fn net_after(net: Seq<HiveV>, scan: ScanV) -> Seq<HiveV> {
    net.update(
        scan.hive,
        installed(net[scan.hive], scan_result(scan.found, scan.pinned, scan.docked)),
    )
}

/// The network after scans.
pub open spec fn net_after_all(net: Seq<HiveV>, scans: Seq<ScanV>) -> Seq<HiveV>
    decreases scans.len(),
{
    if scans.len() == 0 {
        net
    } else {
        net_after(net_after_all(net, scans.drop_last()), scans.last())
    }
}

/// Whether none of some scans finds a backend of a model.
pub open spec fn find_hives_only(net: Seq<HiveV>, scans: Seq<ScanV>, model: Seq<char>) -> bool
    decreases scans.len(),
{
    scans.len() > 0 ==> find_hives_only(net, scans.drop_last(), model) && finds_hives_only(
        net_after_all(net, scans.drop_last()),
        scans.last(),
        model,
    )
}

/// Whether every member that has something to say of a model answers a scan.
pub open spec fn all_answer(h: HiveV, scan: ScanV, model: Seq<char>) -> bool {
    let found = scan_result(scan.found, scan.pinned, scan.docked);
    forall|i: int|
        0 <= i < h.endpoints.len() ==> silent(#[trigger] h.endpoints[i], model) || urls(
            foreign(found, h.own_id),
        ).contains(h.endpoints[i].base_url)
}

/// The number of scans of a hive. One that all members answer counts as many as it
/// takes to drop a member that does not.
pub open spec fn scans_of(
    net: Seq<HiveV>,
    scans: Seq<ScanV>,
    model: Seq<char>,
    hive: int,
) -> nat
    decreases scans.len(),
{
    if scans.len() == 0 {
        0
    } else {
        let h = net_after_all(net, scans.drop_last())[hive];
        scans_of(net, scans.drop_last(), model, hive) + if scans.last().hive != hive {
            0nat
        } else if all_answer(h, scans.last(), model) {
            h.drop_after as nat
        } else {
            1nat
        }
    }
}

/// Whether each hive scans once with all members answering, or often enough for a
/// member that does not answer to be dropped.
pub open spec fn is_round(net: Seq<HiveV>, scans: Seq<ScanV>, model: Seq<char>) -> bool {
    forall|i: int|
        0 <= i < net.len() ==> scans_of(net, scans, model, i) >= (#[trigger] net[i]).drop_after
}

/// Whether the hives of a network are valid: no hive has two members with the same
/// base URL.
pub open spec fn is_net(net: Seq<HiveV>) -> bool {
    forall|i: int|
        0 <= i < net.len() ==> (#[trigger] net[i]).wf() && urls(net[i].endpoints).no_duplicates()
}

/// Whether all members of all hives are at least `k` hops away from a backend of a
/// model.
pub open spec fn net_distant(net: Seq<HiveV>, model: Seq<char>, k: nat) -> bool {
    forall|i: int| 0 <= i < net.len() ==> all_distant((#[trigger] net[i]).endpoints, model, k)
}

/// What is farther away is at least as far away.
proof fn lemma_distant_less(ep: EndpointV, model: Seq<char>, k: nat)
    requires
        distant(ep, model, k + 1),
    ensures
        distant(ep, model, k),
{
    if ep.paths.contains_key(model) {
        let paths = ep.paths[model];
        assert forall|i: int| 0 <= i < paths.len() implies (#[trigger] paths[i]).len() >= k by {
            assert(paths[i].len() >= k + 1);
        }
    }
}

/// The object of a model names it.
proof fn lemma_object_id(ep: EndpointV, model: Seq<char>, paths: Seq<PathV>)
    ensures
        text_of(member(model_object(ep, model, paths), "id"@)) == Some(model),
{
    reveal_strlit("id");
    reveal_strlit("object");
    reveal_strlit("created");
    reveal_strlit("owned_by");
    reveal_strlit("hivllm");
    assert("id"@.len() == 2);
    assert("object"@.len() == 6 && "created"@.len() == 7 && "owned_by"@.len() == 8
        && "hivllm"@.len() == 6);
}

/// Whether a model is listed with the paths that are advertised for it.
spec fn is_listing(h: HiveV, avoid: Seq<Seq<char>>, l: ListedV) -> bool {
    let paths = advertised(h.endpoints, l.id, avoid);
    paths.len() > 0 && exists|ep: EndpointV| l.object == #[trigger] model_object(ep, l.id, paths)
}

/// What is listed of an endpoint is listed with the advertised paths.
proof fn lemma_listed_on(
    h: HiveV,
    ep: EndpointV,
    models: Seq<Seq<char>>,
    seen: Seq<Seq<char>>,
    avoid: Seq<Seq<char>>,
)
    ensures
        forall|i: int|
            0 <= i < listed_on(h, ep, models, seen, avoid).len() ==> is_listing(
                h,
                avoid,
                #[trigger] listed_on(h, ep, models, seen, avoid)[i],
            ),
    decreases models.len(),
{
    if models.len() > 0 {
        lemma_listed_on(h, ep, models.drop_last(), seen, avoid);
        let before = listed_on(h, ep, models.drop_last(), seen, avoid);
        let all = listed_on(h, ep, models, seen, avoid);
        assert forall|i: int| 0 <= i < all.len() implies is_listing(
            h,
            avoid,
            #[trigger] all[i],
        ) by {
            if i < before.len() {
                assert(all[i] == before[i]);
            } else {
                let paths = advertised(h.endpoints, models.last(), avoid);
                assert(all[i].object == model_object(ep, models.last(), paths));
            }
        }
    }
}

/// What is listed is listed with the advertised paths.
proof fn lemma_listed(h: HiveV, endpoints: Seq<EndpointV>, avoid: Seq<Seq<char>>)
    ensures
        forall|i: int|
            0 <= i < listed(h, endpoints, avoid).len() ==> is_listing(
                h,
                avoid,
                #[trigger] listed(h, endpoints, avoid)[i],
            ),
    decreases endpoints.len(),
{
    if endpoints.len() > 0 {
        let rest = endpoints.drop_last();
        let ep = endpoints.last();
        let seen = all_models(rest);
        lemma_listed(h, rest, avoid);
        lemma_listed_on(h, ep, ep.models, seen, avoid);
        let before = listed(h, rest, avoid);
        let all = listed(h, endpoints, avoid);
        assert forall|i: int| 0 <= i < all.len() implies is_listing(
            h,
            avoid,
            #[trigger] all[i],
        ) by {
            if i < before.len() {
                assert(all[i] == before[i]);
            } else {
                assert(all[i] == listed_on(h, ep, ep.models, seen, avoid)[i - before.len()]);
            }
        }
    }
}

/// The paths that are read from a list are those that are advertised.
proof fn lemma_described(
    h: HiveV,
    s: Seq<ListedV>,
    avoid: Seq<Seq<char>>,
    hid: Seq<char>,
    model: Seq<char>,
)
    requires
        forall|i: int| 0 <= i < s.len() ==> is_listing(h, avoid, #[trigger] s[i]),
    ensures
        ({
            let paths = advertised(h.endpoints, model, avoid);
            let read = described_paths(objects(s), hid);
            &&& (exists|i: int| 0 <= i < s.len() && (#[trigger] s[i]).id == model)
                ==> read.contains_key(model)
            &&& read.contains_key(model) ==> paths.len() > 0 && read[model] == paths.map_values(
                |p: PathV| seq![hid] + p,
            )
        }),
    decreases s.len(),
{
    if s.len() > 0 {
        let rest = s.drop_last();
        let l = s.last();
        assert forall|i: int| 0 <= i < rest.len() implies is_listing(
            h,
            avoid,
            #[trigger] rest[i],
        ) by {
            assert(rest[i] == s[i]);
        }
        lemma_described(h, rest, avoid, hid, model);
        assert(objects(s).drop_last() =~= objects(rest));
        assert(objects(s).last() == l.object);
        assert(is_listing(h, avoid, s[s.len() - 1]));
        let paths = advertised(h.endpoints, l.id, avoid);
        let ep = choose|ep: EndpointV| l.object == #[trigger] model_object(ep, l.id, paths);
        lemma_object_id(ep, l.id, paths);
        law_advertised_read_back(ep, h.endpoints, l.id, avoid, hid);
        if exists|i: int| 0 <= i < s.len() && (#[trigger] s[i]).id == model {
            let i = choose|i: int| 0 <= i < s.len() && (#[trigger] s[i]).id == model;
            if i < rest.len() {
                assert(rest[i].id == model);
            }
        }
    }
}

/// The objects of a list are those of the models listed.
proof fn lemma_list_objects(h: HiveV, via: Option<Seq<char>>)
    ensures
        objects_of(list_body(h, via)) == objects(model_list(h, via)),
{
    reveal_strlit("object");
    reveal_strlit("data");
    assert("object"@.len() == 6 && "data"@.len() == 4);
}

/// The members' routes are as long as the members are far away.
proof fn lemma_routes_far(endpoints: Seq<EndpointV>, model: Seq<char>, k: nat)
    requires
        all_distant(endpoints, model, k),
    ensures
        forall|i: int, j: int|
            0 <= i < endpoints.len() && (#[trigger] endpoints[i]).models.contains(model) && 0 <= j
                < routes(endpoints[i], model).len() ==> (#[trigger] routes(
                endpoints[i],
                model,
            )[j]).len() >= k,
{
    assert forall|i: int, j: int|
        0 <= i < endpoints.len() && (#[trigger] endpoints[i]).models.contains(model) && 0 <= j
            < routes(endpoints[i], model).len() implies (#[trigger] routes(
        endpoints[i],
        model,
    )[j]).len() >= k by {
        let ep = endpoints[i];
        assert(distant(ep, model, k));
        if ep.hive_id is Some {
            assert(all_far(ep.paths[model], k));
        }
    }
}

/// A peer that hears of a model from a hive is one hop farther away than the members
/// of that hive.
pub proof fn law_peer_is_farther(
    h: HiveV,
    via: Option<Seq<char>>,
    ep: EndpointV,
    model: Seq<char>,
    k: nat,
)
    requires
        all_distant(h.endpoints, model, k),
        told_by(ep, h, via),
    ensures
        distant(ep, model, k + 1),
{
    let avoid = via_of(via).push(h.own_id);
    let hid = h.own_id;
    let raw = listed(h, h.endpoints, avoid);
    let s = model_list(h, via);
    let ids = s.map_values(|l: ListedV| l.id);
    lemma_listed(h, h.endpoints, avoid);
    law_sorted_is_permutation::<Listed>(raw);
    assert forall|i: int| 0 <= i < s.len() implies is_listing(h, avoid, #[trigger] s[i]) by {
        assert(s.contains(s[i]));
        lemma_permutation_contains(s, raw, s[i]);
        let j = choose|j: int| 0 <= j < raw.len() && raw[j] == s[i];
        assert(is_listing(h, avoid, raw[j]));
    }
    lemma_described(h, s, avoid, hid, model);
    lemma_list_objects(h, via);
    assert(ep.paths == described_paths(objects(s), hid));
    // Each model is listed once.
    lemma_distinct(ids);
    law_sorted_is_permutation::<String>(distinct(ids));
    lemma_permutation_distinct(distinct(ids), ep.models);
    lemma_permutation_contains(ep.models, distinct(ids), model);
    if ep.models.contains(model) {
        assert(ids.contains(model));
        let i = choose|i: int| 0 <= i < ids.len() && ids[i] == model;
        assert(s[i].id == model);
        assert(ep.paths.contains_key(model));
    }
    if ep.paths.contains_key(model) {
        let paths = advertised(h.endpoints, model, avoid);
        lemma_routes_far(h.endpoints, model, k);
        law_routes_grow(ep, h.endpoints, model, avoid, hid, k);
        law_advertised_read_back(ep, h.endpoints, model, avoid, hid);
        let read = ep.paths[model];
        assert(advertised_by(model_object(ep, model, paths), hid) == Some(read));
        assert forall|i: int| 0 <= i < read.len() implies (#[trigger] read[i]).len() >= k + 1 by {
            assert(k < read[i].len());
        }
        assert(k < read[0].len() <= MAX_HOPS);
    }
}

/// What is added to a list without repetitions is not repeated.
proof fn lemma_extended_distinct(have: Seq<Seq<char>>, add: Seq<Seq<char>>)
    requires
        have.no_duplicates(),
    ensures
        extended(have, add).no_duplicates(),
    decreases add.len(),
{
    if add.len() > 0 {
        lemma_extended_distinct(have, add.drop_last());
    }
}

/// Two endpoints that are far away are so as one.
proof fn lemma_joined_distant(a: EndpointV, b: EndpointV, model: Seq<char>, k: nat)
    requires
        distant(a, model, k),
        distant(b, model, k),
        k > 0,
    ensures
        distant(joined(a, b), model, k),
{
    let models = extended(a.models, b.models);
    let ep = joined(a, b);
    lemma_extended_distinct(a.models, b.models);
    lemma_extended(a.models, b.models, model);
    law_sorted_is_permutation::<String>(models);
    lemma_permutation_distinct(models, ep.models);
    lemma_permutation_contains(ep.models, models, model);
}

/// Merging endpoints that are far away gives such endpoints.
proof fn lemma_merged_distant(s: Seq<EndpointV>, model: Seq<char>, k: nat)
    requires
        all_distant(s, model, k),
        k > 0,
    ensures
        all_distant(merged(s), model, k),
        all_distant(sorted::<DiscoveredEndpoint>(merged(s)), model, k),
    decreases s.len(),
{
    let all = merged(s);
    if s.len() > 0 {
        let rest = s.drop_last();
        let ep = s.last();
        assert(distant(s[s.len() - 1], model, k));
        assert forall|i: int| 0 <= i < rest.len() implies distant(#[trigger] rest[i], model, k) by {
            assert(rest[i] == s[i]);
        }
        lemma_merged_distant(rest, model, k);
        let before = merged(rest);
        lemma_url_index(before, ep.base_url);
        if let Some(n) = url_index(before, ep.base_url) {
            assert(distant(before[n], model, k));
            lemma_joined_distant(before[n], ep, model, k);
        }
        assert forall|i: int| 0 <= i < all.len() implies distant(#[trigger] all[i], model, k) by {
            if i < before.len() {
                assert(distant(before[i], model, k));
            }
        }
    }
    lemma_sorted_distant(all, model, k);
}

/// Sorting endpoints keeps them far away.
proof fn lemma_sorted_distant(s: Seq<EndpointV>, model: Seq<char>, k: nat)
    requires
        all_distant(s, model, k),
    ensures
        all_distant(sorted::<DiscoveredEndpoint>(s), model, k),
{
    let out = sorted::<DiscoveredEndpoint>(s);
    law_sorted_is_permutation::<DiscoveredEndpoint>(s);
    assert forall|i: int| 0 <= i < out.len() implies distant(#[trigger] out[i], model, k) by {
        assert(out.contains(out[i]));
        lemma_permutation_contains(out, s, out[i]);
        let j = choose|j: int| 0 <= j < s.len() && s[j] == out[i];
        assert(distant(s[j], model, k));
    }
}

/// What is left of far paths is far.
proof fn lemma_avoiding_far(paths: Seq<PathV>, me: Seq<char>, k: nat)
    requires
        all_far(paths, k),
    ensures
        all_far(avoiding(paths, me), k),
{
    let left = avoiding(paths, me);
    assert forall|i: int| 0 <= i < left.len() implies (#[trigger] left[i]).len() >= k by {
        lemma_filter(paths, |p: PathV| !p.contains(me), left[i]);
        assert(left.contains(left[i]));
        let j = choose|j: int| 0 <= j < paths.len() && paths[j] == left[i];
        assert(paths[j].len() >= k);
    }
}

/// Dropping what leads back leaves a hive's models distinct and its paths far.
proof fn lemma_reachable_distant(
    hid: Seq<char>,
    models: Seq<Seq<char>>,
    paths: Map<Seq<char>, Seq<PathV>>,
    me: Seq<char>,
    model: Seq<char>,
    k: nat,
)
    requires
        models.no_duplicates(),
        models.contains(model) ==> paths.contains_key(model),
        paths.contains_key(model) ==> all_far(paths[model], k),
    ensures
        ({
            let (ms, ps) = reachable(hid, models, paths, me);
            &&& ms.no_duplicates()
            &&& forall|m: Seq<char>| #[trigger] ms.contains(m) ==> models.contains(m)
            &&& ms.contains(model) ==> ps.contains_key(model)
            &&& !models.contains(model) ==> ps.contains_key(model) == paths.contains_key(model)
            &&& ps.contains_key(model) ==> paths.contains_key(model) && all_far(ps[model], k)
        }),
    decreases models.len(),
{
    if models.len() > 0 {
        let rest = models.drop_last();
        let last = models.last();
        assert(models =~= rest.push(last));
        lemma_contains_push(rest, last, model);
        assert(!rest.contains(last)) by {
            if rest.contains(last) {
                let j = choose|j: int| 0 <= j < rest.len() && rest[j] == last;
                assert(models[j] == models[models.len() - 1]);
            }
        }
        lemma_reachable_distant(hid, rest, paths, me, model, k);
        let (ms, ps) = reachable(hid, rest, paths, me);
        let (ms2, ps2) = reachable(hid, models, paths, me);
        if last == model {
            lemma_avoiding_far(recorded(hid, ps, model), me, k);
        }
        assert(!ms.contains(last));
        assert forall|m: Seq<char>| #[trigger] ms2.contains(m) implies models.contains(m) by {
            lemma_contains_push(ms, last, m);
            lemma_contains_push(rest, last, m);
        }
        if ms2.contains(model) {
            lemma_contains_push(ms, last, model);
        }
    }
}

/// Dropping what leads back through a hive keeps endpoints far away.
proof fn lemma_foreign_distant(s: Seq<EndpointV>, me: Seq<char>, model: Seq<char>, k: nat)
    requires
        all_distant(s, model, k),
    ensures
        all_distant(foreign(s, me), model, k),
    decreases s.len(),
{
    if s.len() > 0 {
        let rest = s.drop_last();
        let ep = s.last();
        assert(distant(s[s.len() - 1], model, k));
        assert forall|i: int| 0 <= i < rest.len() implies distant(#[trigger] rest[i], model, k) by {
            assert(rest[i] == s[i]);
        }
        lemma_foreign_distant(rest, me, model, k);
        if let Some(hid) = ep.hive_id {
            lemma_reachable_distant(hid, ep.models, ep.paths, me, model, k);
        }
        assert(distant(cleaned(ep, me), model, k));
        let before = foreign(rest, me);
        let all = foreign(s, me);
        assert forall|i: int| 0 <= i < all.len() implies distant(#[trigger] all[i], model, k) by {
            if i < before.len() {
                assert(all[i] == before[i]);
            }
        }
    }
}

/// What is left of endpoints with distinct base URLs has distinct base URLs.
proof fn lemma_foreign_urls(s: Seq<EndpointV>, me: Seq<char>)
    requires
        base_urls(s).no_duplicates(),
    ensures
        urls(foreign(s, me)).no_duplicates(),
        forall|u: Seq<char>| #[trigger]
            urls(foreign(s, me)).contains(u) ==> base_urls(s).contains(u),
    decreases s.len(),
{
    if s.len() > 0 {
        let rest = s.drop_last();
        let ep = s.last();
        assert(base_urls(s) =~= base_urls(rest).push(ep.base_url));
        assert(base_urls(rest).no_duplicates()) by {
            assert forall|a: int, b: int|
                0 <= a < rest.len() && 0 <= b < rest.len() && a != b implies base_urls(rest)[a]
                != base_urls(rest)[b] by {
                assert(base_urls(s)[a] != base_urls(s)[b]);
            }
        }
        assert(!base_urls(rest).contains(ep.base_url)) by {
            if base_urls(rest).contains(ep.base_url) {
                let j = choose|j: int| 0 <= j < rest.len() && base_urls(rest)[j] == ep.base_url;
                assert(base_urls(s)[j] == base_urls(s)[s.len() - 1]);
            }
        }
        lemma_foreign_urls(rest, me);
        let before = urls(foreign(rest, me));
        let all = urls(foreign(s, me));
        if ep.hive_id != Some(me) {
            assert(all =~= before.push(ep.base_url));
            assert(!before.contains(ep.base_url));
        } else {
            assert(all =~= before);
        }
        assert forall|u: Seq<char>| #[trigger] all.contains(u) implies base_urls(s).contains(u) by {
            lemma_contains_push(before, ep.base_url, u);
            lemma_contains_push(base_urls(rest), ep.base_url, u);
        }
    }
}

/// What a scan that finds no backend gives is one hop farther away than the members
/// of the hives of the network.
proof fn lemma_scan_distant(net: Seq<HiveV>, scan: ScanV, model: Seq<char>, k: nat)
    requires
        net_distant(net, model, k),
        finds_hives_only(net, scan, model),
    ensures
        all_distant(scan_result(scan.found, scan.pinned, scan.docked), model, k + 1),
{
    let all = scan.all();
    assert forall|i: int| 0 <= i < all.len() implies distant(#[trigger] all[i], model, k + 1) by {
        if !silent(all[i], model) {
            let (p, via) = choose|p: int, via: Option<Seq<char>>|
                0 <= p < net.len() && #[trigger] told_by(all[i], net[p], via);
            assert(all_distant(net[p].endpoints, model, k));
            law_peer_is_farther(net[p], via, all[i], model, k);
        }
    }
    let near = scan.found + scan.pinned;
    assert forall|i: int| 0 <= i < near.len() implies distant(#[trigger] near[i], model, k + 1) by {
        assert(near[i] == all[i]);
    }
    lemma_merged_distant(near, model, k + 1);
    let local = sorted::<DiscoveredEndpoint>(merged(near));
    let both = local + scan.docked;
    assert forall|i: int| 0 <= i < both.len() implies distant(#[trigger] both[i], model, k + 1) by {
        if i < local.len() {
            assert(distant(local[i], model, k + 1));
        } else {
            assert(both[i] == all[near.len() + (i - local.len())]);
        }
    }
    lemma_merged_distant(both, model, k + 1);
}

/// Whether each member of a hive was told about anew and is one hop farther away, or
/// has not answered any of the last `t` scans.
spec fn ageing(h: HiveV, model: Seq<char>, k: nat, t: nat) -> bool {
    forall|i: int|
        0 <= i < h.endpoints.len() ==> distant(#[trigger] h.endpoints[i], model, k + 1) || (distant(
            h.endpoints[i],
            model,
            k,
        ) && (t == 0 || (h.missed_scans.contains_key(h.endpoints[i].base_url) && t
            <= h.missed_scans[h.endpoints[i].base_url] < h.drop_after)))
}

/// One more scan that finds no backend ages a hive by one.
proof fn lemma_scan_ages(net: Seq<HiveV>, scan: ScanV, model: Seq<char>, k: nat, t: nat)
    requires
        is_net(net),
        net_distant(net, model, k),
        finds_hives_only(net, scan, model),
        ageing(net[scan.hive], model, k, t),
    ensures
        ({
            let h = net[scan.hive];
            let g = net_after(net, scan)[scan.hive];
            &&& g.wf()
            &&& urls(g.endpoints).no_duplicates()
            &&& g.drop_after == h.drop_after
            &&& ageing(g, model, k, t + 1)
            &&& all_answer(h, scan, model) ==> all_distant(g.endpoints, model, k + 1)
        }),
{
    let h = net[scan.hive];
    let found = scan_result(scan.found, scan.pinned, scan.docked);
    let g = installed(h, found);
    let fresh = foreign(found, h.own_id);
    lemma_scan_distant(net, scan, model, k);
    lemma_foreign_distant(found, h.own_id, model, k + 1);
    law_merged_by_url(
        sorted::<DiscoveredEndpoint>(merged(scan.found + scan.pinned)),
        scan.docked,
        Seq::empty(),
    );
    lemma_foreign_urls(found, h.own_id);
    lemma_installed_wf(h, found);
    law_members_distinct(h, found);
    assert forall|i: int| 0 <= i < g.endpoints.len() implies distant(
        #[trigger] g.endpoints[i],
        model,
        k + 1,
    ) || (distant(g.endpoints[i], model, k) && g.missed_scans.contains_key(
        g.endpoints[i].base_url,
    ) && t + 1 <= g.missed_scans[g.endpoints[i].base_url] < g.drop_after) by {
        let ep = g.endpoints[i];
        assert(g.endpoints.contains(ep));
        lemma_no_stranger(h, found, ep);
        if fresh.contains(ep) {
            let j = choose|j: int| 0 <= j < fresh.len() && fresh[j] == ep;
            assert(distant(fresh[j], model, k + 1));
        } else {
            let j = choose|j: int| 0 <= j < h.endpoints.len() && h.endpoints[j] == ep;
            law_missing_member(h, found, j);
            assert(distant(h.endpoints[j], model, k + 1) || distant(h.endpoints[j], model, k));
        }
    }
    if all_answer(h, scan, model) {
        assert forall|i: int| 0 <= i < g.endpoints.len() implies distant(
            #[trigger] g.endpoints[i],
            model,
            k + 1,
        ) by {
            let ep = g.endpoints[i];
            assert(g.endpoints.contains(ep));
            lemma_no_stranger(h, found, ep);
            if fresh.contains(ep) {
                let j = choose|j: int| 0 <= j < fresh.len() && fresh[j] == ep;
                assert(distant(fresh[j], model, k + 1));
            } else {
                let j = choose|j: int| 0 <= j < h.endpoints.len() && h.endpoints[j] == ep;
                assert(silent(h.endpoints[j], model));
            }
        }
    }
}

/// What holds of a network while its hives scan and find no backend.
proof fn lemma_scans_age(net: Seq<HiveV>, scans: Seq<ScanV>, model: Seq<char>, k: nat)
    requires
        is_net(net),
        net_distant(net, model, k),
        find_hives_only(net, scans, model),
    ensures
        ({
            let after = net_after_all(net, scans);
            &&& after.len() == net.len()
            &&& is_net(after)
            &&& net_distant(after, model, k)
            &&& forall|i: int|
                0 <= i < net.len() ==> ageing(
                    #[trigger] after[i],
                    model,
                    k,
                    scans_of(net, scans, model, i),
                ) && after[i].drop_after == net[i].drop_after
        }),
    decreases scans.len(),
{
    let after = net_after_all(net, scans);
    if scans.len() == 0 {
        assert forall|i: int| 0 <= i < net.len() implies ageing(
            #[trigger] after[i],
            model,
            k,
            scans_of(net, scans, model, i),
        ) && after[i].drop_after == net[i].drop_after by {
            assert(all_distant(net[i].endpoints, model, k));
        }
    } else {
        let before = scans.drop_last();
        let scan = scans.last();
        let mid = net_after_all(net, before);
        lemma_scans_age(net, before, model, k);
        let t = scans_of(net, before, model, scan.hive);
        assert(ageing(mid[scan.hive], model, k, t));
        lemma_scan_ages(mid, scan, model, k, t);
        assert forall|i: int| 0 <= i < net.len() implies ageing(
            #[trigger] after[i],
            model,
            k,
            scans_of(net, scans, model, i),
        ) && after[i].drop_after == net[i].drop_after by {
            assert(ageing(mid[i], model, k, scans_of(net, before, model, i)));
            if i != scan.hive {
                assert(after[i] == mid[i]);
            }
        }
        assert forall|i: int| 0 <= i < after.len() implies (#[trigger] after[i]).wf() && urls(
            after[i].endpoints,
        ).no_duplicates() by {
            if i != scan.hive {
                assert(after[i] == mid[i]);
            }
        }
        assert forall|i: int| 0 <= i < after.len() implies all_distant(
            (#[trigger] after[i]).endpoints,
            model,
            k,
        ) by {
            assert(ageing(after[i], model, k, scans_of(net, scans, model, i)));
            let eps = after[i].endpoints;
            assert forall|j: int| 0 <= j < eps.len() implies distant(
                #[trigger] eps[j],
                model,
                k,
            ) by {
                if distant(eps[j], model, k + 1) {
                    lemma_distant_less(eps[j], model, k);
                }
            }
        }
    }
}

/// Stale routes grow by one hop a round: while the hives of a network scan and find
/// no backend of a model, none of their members comes nearer to one, and all are one
/// hop farther away once each hive has scanned with all members answering, or as
/// often as it takes to drop one that does not.
pub proof fn law_stale_routes_grow(net: Seq<HiveV>, scans: Seq<ScanV>, model: Seq<char>, k: nat)
    requires
        is_net(net),
        net_distant(net, model, k),
        find_hives_only(net, scans, model),
    ensures
        is_net(net_after_all(net, scans)),
        net_after_all(net, scans).len() == net.len(),
        net_distant(net_after_all(net, scans), model, k),
        is_round(net, scans, model) ==> net_distant(net_after_all(net, scans), model, k + 1),
{
    let after = net_after_all(net, scans);
    lemma_scans_age(net, scans, model, k);
    if is_round(net, scans, model) {
        assert forall|i: int| 0 <= i < after.len() implies all_distant(
            (#[trigger] after[i]).endpoints,
            model,
            k + 1,
        ) by {
            assert(ageing(after[i], model, k, scans_of(net, scans, model, i)));
            assert(scans_of(net, scans, model, i) >= net[i].drop_after);
            assert(net[i].wf());
        }
    }
}

/// The network after rounds of scans.
pub open spec fn net_after_rounds(net: Seq<HiveV>, rounds: Seq<Seq<ScanV>>) -> Seq<HiveV>
    decreases rounds.len(),
{
    if rounds.len() == 0 {
        net
    } else {
        net_after_all(net_after_rounds(net, rounds.drop_last()), rounds.last())
    }
}

/// Whether each of some series of scans is a round that finds no backend of a model.
pub open spec fn are_rounds(net: Seq<HiveV>, rounds: Seq<Seq<ScanV>>, model: Seq<char>) -> bool
    decreases rounds.len(),
{
    rounds.len() > 0 ==> {
        let before = net_after_rounds(net, rounds.drop_last());
        &&& are_rounds(net, rounds.drop_last(), model)
        &&& is_round(before, rounds.last(), model)
        &&& find_hives_only(before, rounds.last(), model)
    }
}

/// After `n` rounds all members are `n` hops farther away.
proof fn lemma_rounds_grow(net: Seq<HiveV>, rounds: Seq<Seq<ScanV>>, model: Seq<char>)
    requires
        is_net(net),
        net_distant(net, model, 0),
        are_rounds(net, rounds, model),
    ensures
        is_net(net_after_rounds(net, rounds)),
        net_after_rounds(net, rounds).len() == net.len(),
        net_distant(net_after_rounds(net, rounds), model, rounds.len()),
    decreases rounds.len(),
{
    if rounds.len() > 0 {
        let before = rounds.drop_last();
        lemma_rounds_grow(net, before, model);
        law_stale_routes_grow(
            net_after_rounds(net, before),
            rounds.last(),
            model,
            before.len(),
        );
    }
}

/// Hives that discover each other, in pairs, rings or any other way, cannot keep a
/// dead backend's model alive: once no scan of theirs finds a backend of it any more,
/// no member of any of them serves it after one round for the backend to go, and one
/// for each hop that a route can have.
pub proof fn law_dead_model_disappears(
    net: Seq<HiveV>,
    rounds: Seq<Seq<ScanV>>,
    model: Seq<char>,
    i: int,
    j: int,
)
    requires
        is_net(net),
        net_distant(net, model, 0),
        are_rounds(net, rounds, model),
        rounds.len() > MAX_HOPS,
        0 <= i < net.len(),
        0 <= j < net_after_rounds(net, rounds)[i].endpoints.len(),
    ensures
        !net_after_rounds(net, rounds)[i].endpoints[j].models.contains(model),
{
    let after = net_after_rounds(net, rounds);
    lemma_rounds_grow(net, rounds, model);
    assert(all_distant(after[i].endpoints, model, rounds.len()));
    assert(distant(after[i].endpoints[j], model, rounds.len()));
}

} // verus!
