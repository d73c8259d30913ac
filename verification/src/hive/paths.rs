//! Chains of hives through which a model is reached.
use crate::deep::{contains, push_new, Dup};
use crate::discovery::{DiscoveredEndpoint, EndpointV, MAX_HOPS};
use crate::hive::{Hive, MAX_ADVERTISED_PATHS};
use crate::order::{
    in_order, law_sorted_in_order, law_sorted_is_permutation, lemma_permutation_contains,
    lemma_permutation_distinct, sorted, stable_sort, Ranked,
};
use vstd::prelude::*;
use vstd::string::*;

verus! {

/// A chain of hive ids.
pub type PathV = Seq<Seq<char>>;

/// The recorded paths of a hive for a model; one opaque hop if none are.
pub open spec fn recorded(
    hid: Seq<char>,
    paths: Map<Seq<char>, Seq<PathV>>,
    model: Seq<char>,
) -> Seq<PathV> {
    if paths.contains_key(model) {
        paths[model]
    } else {
        seq![seq![hid]]
    }
}

/// The paths from this hive through `ep` to a real backend of `model`: the empty
/// one for a plain backend, the recorded ones for a hive.
pub open spec fn routes(ep: EndpointV, model: Seq<char>) -> Seq<PathV> {
    match ep.hive_id {
        None => seq![Seq::empty()],
        Some(hid) => recorded(hid, ep.paths, model),
    }
}

/// Whether no hive of `path` is in `avoid`.
pub open spec fn free_of(path: PathV, avoid: Seq<Seq<char>>) -> bool {
    forall|i: int| 0 <= i < path.len() ==> !avoid.contains(#[trigger] path[i])
}

/// The recorded paths of a hive for a model; one opaque hop if none are.
pub fn member_paths(hid: &str, ep: &DiscoveredEndpoint, model: &str) -> (r: Vec<Vec<String>>)
    ensures
        r.deep_view() == recorded(hid@, ep@.paths, model@),
{
    match ep.paths.get(&model.to_owned()) {
        Some(p) => p.dup(),
        None => {
            let r: Vec<Vec<String>> = vec![vec![hid.to_owned()]];
            proof {
                assert(r@[0].deep_view() =~= seq![hid@]);
                assert(r.deep_view() =~= seq![seq![hid@]]);
            }
            r
        },
    }
}

/// The paths from this hive through `ep` to a real backend of `model`.
pub fn routes_of(ep: &DiscoveredEndpoint, model: &str) -> (r: Vec<Vec<String>>)
    ensures
        r.deep_view() == routes(ep@, model@),
{
    match &ep.hive_id {
        None => {
            let r: Vec<Vec<String>> = vec![Vec::new()];
            proof {
                assert(r@[0].deep_view() =~= Seq::<Seq<char>>::empty());
                assert(r.deep_view() =~= seq![Seq::<Seq<char>>::empty()]);
            }
            r
        },
        Some(hid) => member_paths(hid.as_str(), ep, model),
    }
}

/// Whether no hive of `path` is in `avoid`.
pub fn loop_free(path: &Vec<String>, avoid: &Vec<String>) -> (r: bool)
    ensures
        r == free_of(path.deep_view(), avoid.deep_view()),
{
    let ghost p = path.deep_view();
    let mut i: usize = 0;
    while i < path.len()
        invariant
            i <= path@.len(),
            p == path.deep_view(),
            forall|j: int| 0 <= j < i ==> !avoid.deep_view().contains(#[trigger] p[j]),
        decreases path@.len() - i,
    {
        if contains(avoid, &path[i]) {
            proof {
                assert(avoid.deep_view().contains(p[i as int]));
            }
            return false;
        }
        i = i + 1;
    }
    true
}

impl Ranked for Vec<String> {
    open spec fn before(a: PathV, b: PathV) -> bool {
        a.len() < b.len()
    }

    fn is_before(&self, other: &Self) -> (r: bool) {
        self.len() < other.len()
    }
}

/// Whether a path may be advertised: it is short enough and avoids the given hives.
pub open spec fn advertisable(path: PathV, avoid: Seq<Seq<char>>) -> bool {
    path.len() < MAX_HOPS && free_of(path, avoid)
}

/// `out`, followed by the advertisable paths that are not there yet.
pub open spec fn add_paths(out: Seq<PathV>, paths: Seq<PathV>, avoid: Seq<Seq<char>>) -> Seq<PathV>
    decreases paths.len(),
{
    if paths.len() == 0 {
        out
    } else {
        let before = add_paths(out, paths.drop_last(), avoid);
        let p = paths.last();
        if advertisable(p, avoid) && !before.contains(p) {
            before.push(p)
        } else {
            before
        }
    }
}

/// Every advertisable route of every endpoint that serves `model`, each once.
pub open spec fn collected(endpoints: Seq<EndpointV>, model: Seq<char>, avoid: Seq<Seq<char>>) -> Seq<
    PathV,
>
    decreases endpoints.len(),
{
    if endpoints.len() == 0 {
        Seq::empty()
    } else {
        let before = collected(endpoints.drop_last(), model, avoid);
        let ep = endpoints.last();
        if ep.models.contains(model) {
            add_paths(before, routes(ep, model), avoid)
        } else {
            before
        }
    }
}

/// At most `n` items, from the front.
pub open spec fn at_most<T>(s: Seq<T>, n: nat) -> Seq<T> {
    if s.len() > n {
        s.take(n as int)
    } else {
        s
    }
}

/// The paths to advertise for `model`: the shortest first, at most
/// [`MAX_ADVERTISED_PATHS`].
pub open spec fn advertised(endpoints: Seq<EndpointV>, model: Seq<char>, avoid: Seq<Seq<char>>) -> Seq<
    PathV,
> {
    at_most(
        sorted::<Vec<String>>(collected(endpoints, model, avoid)),
        MAX_ADVERTISED_PATHS as nat,
    )
}

impl Hive {
    /// Paths to advertise for `model` to a requester: every route of every endpoint,
    /// minus those through a hive of `avoid`, shortest first, capped. Relative to
    /// this hive (it is not among the hops); an empty path is a direct backend.
    /// Without paths this hive cannot serve `model` to that requester.
    pub fn advertised_paths(endpoints: &Vec<DiscoveredEndpoint>, model: &str, avoid: &Vec<String>) -> (r:
        Vec<Vec<String>>)
        ensures
            r.deep_view() == advertised(endpoints.deep_view(), model@, avoid.deep_view()),
    {
        let ghost eps = endpoints.deep_view();
        let ghost av = avoid.deep_view();
        let name = model.to_owned();
        let mut out: Vec<Vec<String>> = Vec::new();
        let mut i: usize = 0;
        proof {
            assert(out.deep_view() =~= collected(eps.take(0), model@, av));
        }
        while i < endpoints.len()
            invariant
                i <= endpoints@.len(),
                eps == endpoints.deep_view(),
                av == avoid.deep_view(),
                name@ == model@,
                out.deep_view() == collected(eps.take(i as int), model@, av),
            decreases endpoints@.len() - i,
        {
            let ep = &endpoints[i];
            proof {
                assert(eps.take(i + 1).drop_last() =~= eps.take(i as int));
                assert(eps.take(i + 1).last() == ep@);
            }
            if contains(&ep.models, &name) {
                let ghost before = out.deep_view();
                let routes = routes_of(ep, model);
                let ghost all = routes@;
                let ghost rs = routes.deep_view();
                proof {
                    assert(rs.take(0) =~= Seq::empty());
                }
                for p in it: routes
                    invariant
                        it.seq() == all,
                        rs.len() == all.len(),
                        av == avoid.deep_view(),
                        forall|k: int| 0 <= k < all.len() ==> rs[k] == all[k].deep_view(),
                        out.deep_view() == add_paths(before, rs.take(it.index() as int), av),
                {
                    proof {
                        assert(rs.take(it.index() + 1).drop_last() =~= rs.take(it.index() as int));
                        assert(rs.take(it.index() + 1).last() == p.deep_view());
                    }
                    if p.len() < MAX_HOPS && loop_free(&p, avoid) {
                        push_new(&mut out, p);
                    }
                }
                proof {
                    assert(rs.take(rs.len() as int) =~= rs);
                }
            }
            i = i + 1;
        }
        proof {
            assert(eps.take(i as int) =~= eps);
        }
        let mut out = stable_sort(out);
        let ghost s = out.deep_view();
        if out.len() > MAX_ADVERTISED_PATHS {
            out.truncate(MAX_ADVERTISED_PATHS);
            proof {
                assert(out.deep_view() =~= s.take(MAX_ADVERTISED_PATHS as int));
            }
        }
        out
    }
}

/// Adding paths adds only such as may be advertised.
proof fn lemma_added(out: Seq<PathV>, paths: Seq<PathV>, avoid: Seq<Seq<char>>, p: PathV)
    ensures
        add_paths(out, paths, avoid).contains(p) <==> out.contains(p) || (paths.contains(p)
            && advertisable(p, avoid)),
    decreases paths.len(),
{
    if paths.len() > 0 {
        let rest = paths.drop_last();
        let before = add_paths(out, rest, avoid);
        let after = add_paths(out, paths, avoid);
        lemma_added(out, rest, avoid, p);
        assert(paths[paths.len() - 1] == paths.last());
        if before.contains(p) {
            let k = choose|k: int| 0 <= k < before.len() && before[k] == p;
            assert(after[k] == p);
        }
        if after.contains(p) {
            let k = choose|k: int| 0 <= k < after.len() && after[k] == p;
            if k < before.len() {
                assert(before[k] == p);
            }
        }
        if rest.contains(p) {
            let k = choose|k: int| 0 <= k < rest.len() && rest[k] == p;
            assert(paths[k] == p);
        }
        if paths.contains(p) {
            let k = choose|k: int| 0 <= k < paths.len() && paths[k] == p;
            if k < rest.len() {
                assert(rest[k] == p);
            } else if advertisable(p, avoid) && !before.contains(p) {
                assert(after[before.len() as int] == p);
            }
        }
    }
}

/// Everything that is collected is a route of an endpoint that serves the model,
/// and may be advertised.
proof fn lemma_collected(
    endpoints: Seq<EndpointV>,
    model: Seq<char>,
    avoid: Seq<Seq<char>>,
    p: PathV,
)
    ensures
        collected(endpoints, model, avoid).contains(p) <==> advertisable(p, avoid) && exists|i: int|
            0 <= i < endpoints.len() && (#[trigger] endpoints[i]).models.contains(model) && routes(
                endpoints[i],
                model,
            ).contains(p),
    decreases endpoints.len(),
{
    if endpoints.len() > 0 {
        let rest = endpoints.drop_last();
        let ep = endpoints.last();
        lemma_collected(rest, model, avoid, p);
        lemma_added(collected(rest, model, avoid), routes(ep, model), avoid, p);
        if collected(rest, model, avoid).contains(p) {
            let i = choose|i: int|
                0 <= i < rest.len() && (#[trigger] rest[i]).models.contains(model) && routes(
                    rest[i],
                    model,
                ).contains(p);
            assert(endpoints[i].models.contains(model));
        }
        if ep.models.contains(model) && routes(ep, model).contains(p) {
            assert(endpoints[endpoints.len() - 1].models.contains(model));
        }
        if advertisable(p, avoid) && exists|i: int|
            0 <= i < endpoints.len() && (#[trigger] endpoints[i]).models.contains(model) && routes(
                endpoints[i],
                model,
            ).contains(p) {
            let i = choose|i: int|
                0 <= i < endpoints.len() && (#[trigger] endpoints[i]).models.contains(model)
                    && routes(endpoints[i], model).contains(p);
            if i < rest.len() {
                assert(rest[i].models.contains(model));
            }
        }
    }
}

/// What is advertised leads through none of the hives to avoid, has fewer than
/// [`MAX_HOPS`] hops, and is a route of a member that serves the model. There are
/// at most [`MAX_ADVERTISED_PATHS`], the shortest first.
pub proof fn law_advertised(endpoints: Seq<EndpointV>, model: Seq<char>, avoid: Seq<Seq<char>>)
    ensures
        ({
            let out = advertised(endpoints, model, avoid);
            &&& out.len() <= MAX_ADVERTISED_PATHS
            &&& in_order::<Vec<String>>(out)
            &&& forall|k: int|
                0 <= k < out.len() ==> advertisable(#[trigger] out[k], avoid) && exists|i: int|
                    0 <= i < endpoints.len() && (#[trigger] endpoints[i]).models.contains(model)
                        && routes(endpoints[i], model).contains(out[k])
        }),
{
    let all = collected(endpoints, model, avoid);
    let s = sorted::<Vec<String>>(all);
    let out = advertised(endpoints, model, avoid);
    law_sorted_in_order::<Vec<String>>(all);
    law_sorted_is_permutation::<Vec<String>>(all);
    assert forall|i: int, j: int| 0 <= i < j < out.len() implies !<Vec<String>>::before(
        #[trigger] out[j],
        #[trigger] out[i],
    ) by {
        assert(!<Vec<String>>::before(s[j], s[i]));
    }
    assert forall|k: int| 0 <= k < out.len() implies advertisable(#[trigger] out[k], avoid)
        && exists|i: int|
        0 <= i < endpoints.len() && (#[trigger] endpoints[i]).models.contains(model) && routes(
            endpoints[i],
            model,
        ).contains(out[k]) by {
        assert(s[k] == out[k]);
        assert(s.contains(out[k]));
        lemma_permutation_contains(s, all, out[k]);
        lemma_collected(endpoints, model, avoid, out[k]);
    }
}

/// A model is advertised to a requester exactly if a member that serves it has a
/// route that is short enough and leads through none of the hives to avoid.
pub proof fn law_advertised_if_reachable(
    endpoints: Seq<EndpointV>,
    model: Seq<char>,
    avoid: Seq<Seq<char>>,
)
    ensures
        advertised(endpoints, model, avoid).len() > 0 <==> exists|i: int, p: PathV|
            0 <= i < endpoints.len() && (#[trigger] endpoints[i]).models.contains(model) && (
            #[trigger] routes(endpoints[i], model).contains(p)) && advertisable(p, avoid),
{
    let all = collected(endpoints, model, avoid);
    law_sorted_is_permutation::<Vec<String>>(all);
    if all.len() > 0 {
        let p = all[0];
        assert(all.contains(p));
        lemma_collected(endpoints, model, avoid, p);
        let i = choose|i: int|
            0 <= i < endpoints.len() && (#[trigger] endpoints[i]).models.contains(model) && routes(
                endpoints[i],
                model,
            ).contains(p);
        assert(endpoints[i].models.contains(model) && routes(endpoints[i], model).contains(p));
    }
    if exists|i: int, p: PathV|
        0 <= i < endpoints.len() && (#[trigger] endpoints[i]).models.contains(model) && (
        #[trigger] routes(endpoints[i], model).contains(p)) && advertisable(p, avoid) {
        let (i, p) = choose|i: int, p: PathV|
            0 <= i < endpoints.len() && (#[trigger] endpoints[i]).models.contains(model) && (
            #[trigger] routes(endpoints[i], model).contains(p)) && advertisable(p, avoid);
        lemma_collected(endpoints, model, avoid, p);
        assert(all.contains(p));
    }
}

/// Collecting paths collects none twice.
proof fn lemma_added_once(out: Seq<PathV>, paths: Seq<PathV>, avoid: Seq<Seq<char>>)
    requires
        out.no_duplicates(),
    ensures
        add_paths(out, paths, avoid).no_duplicates(),
    decreases paths.len(),
{
    if paths.len() > 0 {
        lemma_added_once(out, paths.drop_last(), avoid);
    }
}

/// Collecting the paths of members collects none twice.
proof fn lemma_collected_once(endpoints: Seq<EndpointV>, model: Seq<char>, avoid: Seq<Seq<char>>)
    ensures
        collected(endpoints, model, avoid).no_duplicates(),
    decreases endpoints.len(),
{
    if endpoints.len() > 0 {
        lemma_collected_once(endpoints.drop_last(), model, avoid);
        lemma_added_once(
            collected(endpoints.drop_last(), model, avoid),
            routes(endpoints.last(), model),
            avoid,
        );
    }
}

/// A path may be advertised exactly if it has fewer than [`MAX_HOPS`] hops and none of
/// them is to be avoided.
pub proof fn law_advertisable(path: PathV, avoid: Seq<Seq<char>>)
    ensures
        advertisable(path, avoid) <==> path.len() < 8 && !exists|i: int|
            0 <= i < path.len() && avoid.contains(#[trigger] path[i]),
{
}

/// A plain backend is reached without a hop; a hive by the paths that it told of, or, for
/// a model of which it told none, by itself.
pub proof fn law_routes(ep: EndpointV, model: Seq<char>, p: PathV)
    ensures
        routes(ep, model).contains(p) <==> match ep.hive_id {
            None => p.len() == 0,
            Some(hid) => if ep.paths.contains_key(model) {
                ep.paths[model].contains(p)
            } else {
                p == seq![hid]
            },
        },
{
    let rs = routes(ep, model);
    match ep.hive_id {
        None => {
            assert(rs[0] == Seq::<Seq<char>>::empty());
            assert(rs.contains(p) <==> p == Seq::<Seq<char>>::empty());
            assert(p.len() == 0 ==> p =~= Seq::empty());
        },
        Some(hid) => {
            if !ep.paths.contains_key(model) {
                assert(rs[0] == seq![hid]);
                assert(rs.contains(p) <==> p == seq![hid]);
            }
        },
    }
}

/// Every route that may be advertised is, once, as long as there is room; where there is
/// not, none that is left out is shorter than one that is told.
pub proof fn law_what_is_left_out(
    endpoints: Seq<EndpointV>,
    model: Seq<char>,
    avoid: Seq<Seq<char>>,
    i: int,
    p: PathV,
)
    requires
        0 <= i < endpoints.len(),
        endpoints[i].models.contains(model),
        routes(endpoints[i], model).contains(p),
        advertisable(p, avoid),
    ensures
        ({
            let out = advertised(endpoints, model, avoid);
            &&& out.no_duplicates()
            &&& out.contains(p) || out.len() == 8
            &&& !out.contains(p) ==> forall|k: int|
                0 <= k < out.len() ==> (#[trigger] out[k]).len() <= p.len()
        }),
{
    let all = collected(endpoints, model, avoid);
    let s = sorted::<Vec<String>>(all);
    let out = advertised(endpoints, model, avoid);
    lemma_collected(endpoints, model, avoid, p);
    lemma_collected_once(endpoints, model, avoid);
    law_sorted_is_permutation::<Vec<String>>(all);
    law_sorted_in_order::<Vec<String>>(all);
    lemma_permutation_contains(s, all, p);
    lemma_permutation_distinct(all, s);
    let n = choose|n: int| 0 <= n < s.len() && s[n] == p;
    if s.len() <= MAX_ADVERTISED_PATHS {
        assert(out == s);
    } else {
        assert(out == s.take(MAX_ADVERTISED_PATHS as int));
        if n < MAX_ADVERTISED_PATHS {
            assert(out[n] == p);
        } else {
            assert forall|k: int| 0 <= k < out.len() implies (#[trigger] out[k]).len()
                <= p.len() by {
                assert(out[k] == s[k]);
                assert(!Vec::<String>::before(s[n], s[k]));
            }
        }
    }
}

/// What is advertised comes in order of its length.
pub proof fn law_shortest_first(
    endpoints: Seq<EndpointV>,
    model: Seq<char>,
    avoid: Seq<Seq<char>>,
    i: int,
    j: int,
)
    requires
        0 <= i < j < advertised(endpoints, model, avoid).len(),
    ensures
        ({
            let out = advertised(endpoints, model, avoid);
            out[i].len() <= out[j].len()
        }),
{
    law_advertised(endpoints, model, avoid);
    let out = advertised(endpoints, model, avoid);
    assert(!Vec::<String>::before(out[j], out[i]));
}

} // verus!
