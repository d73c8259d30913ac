//! Which backends belong to the hive.
use crate::deep::{contains, lemma_contains_concat, lemma_deep_push, lemma_filter, Dup};
use crate::discovery::merge::{law_merged_models, serves_at};
use crate::discovery::{merge_endpoints, merged, DiscoveredEndpoint, EndpointV};
use crate::hive::paths::{member_paths, recorded, PathV};
use crate::hive::{can_grow, Hive, HiveV};
use crate::order::{
    in_order, law_sorted_in_order, law_sorted_is_permutation, lemma_map_permutation,
    lemma_permutation_contains, lemma_permutation_distinct, lemma_text_order, lex_before, sorted,
    stable_sort, Ranked,
};
use crate::table::filtered;
use crate::text::str_eq;
use vstd::prelude::*;
use vstd::string::*;

verus! {

/// The paths that do not lead through `me`.
pub open spec fn avoiding(paths: Seq<PathV>, me: Seq<char>) -> Seq<PathV> {
    paths.filter(|p: PathV| !p.contains(me))
}

/// The models of a hive that have a path not through `me`, and the paths left:
/// after the first models of the list, given what the endpoint had recorded.
pub open spec fn reachable(
    hid: Seq<char>,
    models: Seq<Seq<char>>,
    paths: Map<Seq<char>, Seq<PathV>>,
    me: Seq<char>,
) -> (Seq<Seq<char>>, Map<Seq<char>, Seq<PathV>>)
    decreases models.len(),
{
    if models.len() == 0 {
        (Seq::empty(), paths)
    } else {
        let (ms, ps) = reachable(hid, models.drop_last(), paths, me);
        let m = models.last();
        let left = avoiding(recorded(hid, ps, m), me);
        if left.len() == 0 {
            (ms, ps.remove(m))
        } else {
            (ms.push(m), ps.insert(m, left))
        }
    }
}

/// A member without what leads back through `me`.
pub open spec fn cleaned(ep: EndpointV, me: Seq<char>) -> EndpointV {
    match ep.hive_id {
        Some(hid) => {
            let (models, paths) = reachable(hid, ep.models, ep.paths, me);
            EndpointV { models, paths, ..ep }
        },
        None => ep,
    }
}

/// Endpoints without those that are `me`, and without what leads back through it.
pub open spec fn foreign(endpoints: Seq<EndpointV>, me: Seq<char>) -> Seq<EndpointV>
    decreases endpoints.len(),
{
    if endpoints.len() == 0 {
        endpoints
    } else {
        let before = foreign(endpoints.drop_last(), me);
        if endpoints.last().hive_id == Some(me) {
            before
        } else {
            before.push(cleaned(endpoints.last(), me))
        }
    }
}

/// The paths that do not lead through `me`.
fn paths_avoiding(paths: Vec<Vec<String>>, me: &String) -> (r: Vec<Vec<String>>)
    ensures
        r.deep_view() == avoiding(paths.deep_view(), me@),
{
    let ghost all = paths@;
    let ghost s = paths.deep_view();
    let ghost keep = |p: PathV| !p.contains(me@);
    let mut out: Vec<Vec<String>> = Vec::new();
    proof {
        reveal(Seq::filter);
        assert(out.deep_view() =~= s.take(0).filter(keep));
    }
    for p in it: paths
        invariant
            it.seq() == all,
            s.len() == all.len(),
            forall|k: int| 0 <= k < all.len() ==> s[k] == all[k].deep_view(),
            keep == (|p: PathV| !p.contains(me@)),
            out.deep_view() == s.take(it.index() as int).filter(keep),
    {
        proof {
            reveal(Seq::filter);
            assert(s.take(it.index() + 1).drop_last() =~= s.take(it.index() as int));
            assert(s.take(it.index() + 1).last() == p.deep_view());
        }
        if !contains(&p, me) {
            let ghost before = out;
            out.push(p);
            proof {
                lemma_deep_push(before, out, p);
            }
        }
    }
    proof {
        assert(s.take(s.len() as int) =~= s);
    }
    out
}

/// A member without what leads back through `me`.
fn clean_member(ep: DiscoveredEndpoint, me: &String) -> (r: DiscoveredEndpoint)
    ensures
        r@ == cleaned(ep@, me@),
{
    let ghost start = ep@;
    let hid = match &ep.hive_id {
        Some(h) => h.clone(),
        None => {
            return ep;
        },
    };
    let mut ep = ep;
    let mut models: Vec<String> = Vec::new();
    models.append(&mut ep.models);
    let ghost all = models@;
    let ghost s = models.deep_view();
    proof {
        assert(s =~= start.models);
        assert(ep.models.deep_view() =~= reachable(hid@, s.take(0), start.paths, me@).0);
    }
    for m in it: models
        invariant
            it.seq() == all,
            s.len() == all.len(),
            forall|k: int| 0 <= k < all.len() ==> s[k] == all[k]@,
            ep@ == (EndpointV {
                models: reachable(hid@, s.take(it.index() as int), start.paths, me@).0,
                paths: reachable(hid@, s.take(it.index() as int), start.paths, me@).1,
                ..start
            }),
    {
        proof {
            assert(s.take(it.index() + 1).drop_last() =~= s.take(it.index() as int));
            assert(s.take(it.index() + 1).last() == m@);
        }
        let left = paths_avoiding(member_paths(hid.as_str(), &ep, m.as_str()), me);
        if left.len() == 0 {
            ep.paths.remove(&m);
        } else {
            let ghost before = ep.models;
            ep.paths.insert(m.clone(), left);
            ep.models.push(m);
            proof {
                lemma_deep_push(before, ep.models, m);
            }
        }
    }
    proof {
        assert(s.take(s.len() as int) =~= s);
    }
    ep
}

/// The base URLs of endpoints.
pub open spec fn urls(endpoints: Seq<EndpointV>) -> Seq<Seq<char>> {
    endpoints.map_values(|e: EndpointV| e.base_url)
}

/// The models of endpoints, in order.
pub open spec fn all_models(endpoints: Seq<EndpointV>) -> Seq<Seq<char>>
    decreases endpoints.len(),
{
    if endpoints.len() == 0 {
        Seq::empty()
    } else {
        all_models(endpoints.drop_last()) + endpoints.last().models
    }
}

/// The members to keep although a scan did not find them, and the counts of
/// missed scans after it. `present` are the base URLs that the scan found.
pub open spec fn carried(
    previous: Seq<EndpointV>,
    present: Seq<Seq<char>>,
    missed: Map<Seq<char>, u32>,
    drop_after: u32,
) -> (Seq<EndpointV>, Map<Seq<char>, u32>)
    decreases previous.len(),
{
    if previous.len() == 0 {
        (Seq::empty(), missed)
    } else {
        let (kept, counts) = carried(previous.drop_last(), present, missed, drop_after);
        let ep = previous.last();
        let url = ep.base_url;
        let n: int = if counts.contains_key(url) {
            counts[url] + 1
        } else {
            1
        };
        if present.contains(url) {
            (kept, counts)
        } else if ep.source != "docker"@ && n < drop_after {
            (kept.push(ep), counts.insert(url, n as u32))
        } else {
            (kept, counts.remove(url))
        }
    }
}

/// Counting a scan keeps the counts below the largest number.
proof fn lemma_carried_bounded(
    previous: Seq<EndpointV>,
    present: Seq<Seq<char>>,
    missed: Map<Seq<char>, u32>,
    drop_after: u32,
)
    requires
        can_grow(missed),
    ensures
        can_grow(carried(previous, present, missed, drop_after).1),
    decreases previous.len(),
{
    if previous.len() > 0 {
        lemma_carried_bounded(previous.drop_last(), present, missed, drop_after);
    }
}

/// The base URLs of endpoints.
fn urls_of(endpoints: &Vec<DiscoveredEndpoint>) -> (r: Vec<String>)
    ensures
        r.deep_view() == urls(endpoints.deep_view()),
{
    let ghost s = endpoints.deep_view();
    let mut out: Vec<String> = Vec::new();
    let mut i: usize = 0;
    while i < endpoints.len()
        invariant
            i <= endpoints@.len(),
            s == endpoints.deep_view(),
            out@.len() == i,
            forall|k: int| 0 <= k < i ==> out@[k]@ == s[k].base_url,
        decreases endpoints@.len() - i,
    {
        out.push(endpoints[i].base_url.clone());
        i = i + 1;
    }
    proof {
        assert(out.deep_view() =~= urls(s));
    }
    out
}

/// The models of endpoints, in order.
pub fn models_of(endpoints: &Vec<DiscoveredEndpoint>) -> (r: Vec<String>)
    ensures
        r.deep_view() == all_models(endpoints.deep_view()),
{
    let ghost s = endpoints.deep_view();
    let mut out: Vec<String> = Vec::new();
    let mut i: usize = 0;
    proof {
        assert(out.deep_view() =~= all_models(s.take(0)));
    }
    while i < endpoints.len()
        invariant
            i <= endpoints@.len(),
            s == endpoints.deep_view(),
            out.deep_view() == all_models(s.take(i as int)),
        decreases endpoints@.len() - i,
    {
        let ghost before = out.deep_view();
        let mut more = endpoints[i].models.dup();
        let ghost added = more.deep_view();
        out.append(&mut more);
        proof {
            assert(out.deep_view() =~= before + added);
            assert(s.take(i + 1).drop_last() =~= s.take(i as int));
            assert(s.take(i + 1).last() == endpoints@[i as int]@);
        }
        i = i + 1;
    }
    proof {
        assert(s.take(i as int) =~= s);
    }
    out
}

/// What one scan found, with the endpoints of equal base URL merged.
pub open spec fn scan_result(
    found: Seq<EndpointV>,
    pinned: Seq<EndpointV>,
    docked: Seq<EndpointV>,
) -> Seq<EndpointV> {
    let local = sorted::<DiscoveredEndpoint>(merged(found + pinned));
    sorted::<DiscoveredEndpoint>(merged(local + docked))
}

/// The hive after a scan found `found`.
pub open spec fn installed(h: HiveV, found: Seq<EndpointV>) -> HiveV {
    let fresh = foreign(found, h.own_id);
    let (kept, missed) = carried(
        h.endpoints,
        urls(fresh),
        filtered(h.missed_scans, urls(fresh), false),
        h.drop_after,
    );
    let all = sorted::<DiscoveredEndpoint>(fresh + kept);
    HiveV {
        endpoints: all,
        missed_scans: missed,
        rr: filtered(h.rr, all_models(all), true),
        ..h
    }
}

impl Hive {
    /// Drops what leads back into this hive:
    /// - endpoints that are this hive, reached by another address;
    /// - paths of hive members through this hive, and models left with no other
    ///   path. Without this, hives that discover each other keep a dead backend's
    ///   model alive forever by advertising it in a cycle.
    pub fn without_self(&self, endpoints: Vec<DiscoveredEndpoint>) -> (r: Vec<DiscoveredEndpoint>)
        ensures
            r.deep_view() == foreign(endpoints.deep_view(), self@.own_id),
    {
        let ghost all = endpoints@;
        let ghost s = endpoints.deep_view();
        let mut out: Vec<DiscoveredEndpoint> = Vec::new();
        proof {
            assert(out.deep_view() =~= foreign(s.take(0), self@.own_id));
        }
        for ep in it: endpoints
            invariant
                it.seq() == all,
                s.len() == all.len(),
                forall|k: int| 0 <= k < all.len() ==> s[k] == all[k]@,
                out.deep_view() == foreign(s.take(it.index() as int), self@.own_id),
        {
            proof {
                assert(s.take(it.index() + 1).drop_last() =~= s.take(it.index() as int));
                assert(s.take(it.index() + 1).last() == ep@);
            }
            let is_self = match &ep.hive_id {
                Some(h) => str_eq(h.as_str(), self.own_id.as_str()),
                None => false,
            };
            if !is_self {
                let ghost before = out;
                let member = clean_member(ep, &self.own_id);
                out.push(member);
                proof {
                    lemma_deep_push(before, out, member);
                }
            }
        }
        proof {
            assert(s.take(s.len() as int) =~= s);
        }
        out
    }

    /// Members absent from a scan that are kept anyway, with their last known
    /// models, until they miss `drop_after` scans in a row: a busy backend that
    /// answers one probe late must not vanish until the next scan. Members that
    /// answered are always taken as they are now. Docker members leave at once:
    /// the Engine is authoritative on whether a container runs.
    fn carry_over_missing(&mut self, fresh: &Vec<DiscoveredEndpoint>) -> (r: Vec<DiscoveredEndpoint>)
        requires
            old(self)@.wf(),
        ensures
            ({
                let present = urls(fresh.deep_view());
                let (kept, missed) = carried(
                    old(self)@.endpoints,
                    present,
                    filtered(old(self)@.missed_scans, present, false),
                    old(self)@.drop_after,
                );
                &&& r.deep_view() == kept
                &&& final(self)@ == (HiveV { missed_scans: missed, ..old(self)@ })
                &&& final(self)@.wf()
            }),
    {
        let present = urls_of(fresh);
        let ghost pv = present.deep_view();
        let ghost start = filtered(old(self)@.missed_scans, pv, false);
        self.missed_scans.keep_keys(&present, false);
        let ghost s = self.endpoints.deep_view();
        let drop_after: u32 = self.drop_after;
        let mut kept: Vec<DiscoveredEndpoint> = Vec::new();
        let mut i: usize = 0;
        proof {
            assert(kept.deep_view() =~= carried(s.take(0), pv, start, drop_after).0);
        }
        while i < self.endpoints.len()
            invariant
                i <= self.endpoints@.len(),
                s == self.endpoints.deep_view(),
                s == old(self)@.endpoints,
                pv == present.deep_view(),
                drop_after == old(self)@.drop_after,
                can_grow(start),
                kept.deep_view() == carried(s.take(i as int), pv, start, drop_after).0,
                self@ == (HiveV {
                    missed_scans: carried(s.take(i as int), pv, start, drop_after).1,
                    ..old(self)@
                }),
            decreases self.endpoints@.len() - i,
        {
            let ghost prev = s.take(i as int);
            proof {
                assert(s.take(i + 1).drop_last() =~= prev);
                assert(s.take(i + 1).last() == self.endpoints@[i as int]@);
                lemma_carried_bounded(prev, pv, start, drop_after);
            }
            let url = self.endpoints[i].base_url.clone();
            if !contains(&present, &url) {
                let n: u32 = match self.missed_scans.get(&url) {
                    Some(n) => *n + 1,
                    None => 1,
                };
                if !str_eq(self.endpoints[i].source.as_str(), "docker") && n < drop_after {
                    let ghost before = kept;
                    let copy = self.endpoints[i].dup();
                    kept.push(copy);
                    proof {
                        lemma_deep_push(before, kept, copy);
                    }
                    self.missed_scans.insert(url, n);
                } else {
                    self.missed_scans.remove(&url);
                }
            }
            i = i + 1;
        }
        proof {
            assert(s.take(i as int) =~= s);
            lemma_carried_bounded(s, pv, start, drop_after);
        }
        kept
    }

    /// Installs what one scan found: local backends, operator-provided ones and
    /// containers.
    pub fn refresh(
        &mut self,
        found: Vec<DiscoveredEndpoint>,
        pinned: Vec<DiscoveredEndpoint>,
        docked: Vec<DiscoveredEndpoint>,
    )
        requires
            old(self)@.wf(),
        ensures
            final(self)@ == installed(
                old(self)@,
                scan_result(found.deep_view(), pinned.deep_view(), docked.deep_view()),
            ),
            final(self)@.wf(),
    {
        self.set_endpoints(merge_endpoints(merge_endpoints(found, pinned), docked));
    }

    /// Installs a freshly probed member list, minus anything that leads back into
    /// this hive, plus the members that are kept although they did not answer.
    pub fn set_endpoints(&mut self, endpoints: Vec<DiscoveredEndpoint>)
        requires
            old(self)@.wf(),
        ensures
            final(self)@ == installed(old(self)@, endpoints.deep_view()),
            final(self)@.wf(),
    {
        let fresh = self.without_self(endpoints);
        let ghost f = fresh.deep_view();
        let mut kept = self.carry_over_missing(&fresh);
        let ghost k = kept.deep_view();
        let mut all = fresh;
        all.append(&mut kept);
        proof {
            assert(all.deep_view() =~= f + k);
        }
        let all = stable_sort(all);
        let served = models_of(&all);
        self.rr.keep_keys(&served, true);
        self.endpoints = all;
    }
}

/// Whether nothing of a member leads back through `me`.
pub open spec fn leads_away(ep: EndpointV, me: Seq<char>) -> bool {
    &&& ep.hive_id != Some(me)
    &&& ep.hive_id is Some ==> forall|m: Seq<char>| #[trigger]
        ep.models.contains(m) ==> ep.paths.contains_key(m) && avoids(ep.paths[m], me)
}

/// Whether there are paths and none of them leads through `me`.
pub open spec fn avoids(paths: Seq<PathV>, me: Seq<char>) -> bool {
    paths.len() > 0 && forall|i: int| 0 <= i < paths.len() ==> !(#[trigger] paths[i]).contains(me)
}

/// What is left after dropping the paths through `me` avoids it, and dropping them
/// again changes nothing.
proof fn lemma_avoiding(paths: Seq<PathV>, me: Seq<char>)
    ensures
        avoiding(paths, me).len() > 0 ==> avoids(avoiding(paths, me), me),
        avoids(paths, me) ==> avoiding(paths, me) == paths,
        avoiding(paths, me).len() > 0 <==> exists|i: int|
            0 <= i < paths.len() && !(#[trigger] paths[i]).contains(me),
    decreases paths.len(),
{
    reveal(Seq::filter);
    if paths.len() > 0 {
        let rest = paths.drop_last();
        lemma_avoiding(rest, me);
        let left = avoiding(paths, me);
        assert forall|i: int| 0 <= i < left.len() implies !(#[trigger] left[i]).contains(me) by {
            if i < avoiding(rest, me).len() {
                assert(left[i] == avoiding(rest, me)[i]);
            }
        }
        if avoids(paths, me) {
            assert forall|i: int| 0 <= i < rest.len() implies !(#[trigger] rest[i]).contains(
                me,
            ) by {
                assert(rest[i] == paths[i]);
            }
            assert(!paths[paths.len() - 1].contains(me));
            if rest.len() == 0 {
                assert(avoiding(rest, me) =~= rest);
            }
            assert(left =~= paths);
        }
        if exists|i: int| 0 <= i < paths.len() && !(#[trigger] paths[i]).contains(me) {
            let i = choose|i: int| 0 <= i < paths.len() && !(#[trigger] paths[i]).contains(me);
            if i < rest.len() {
                assert(!rest[i].contains(me));
            }
        }
        if left.len() > 0 {
            if paths.last().contains(me) {
                let i = choose|i: int| 0 <= i < rest.len() && !(#[trigger] rest[i]).contains(me);
                assert(!paths[i].contains(me));
            } else {
                assert(!paths[paths.len() - 1].contains(me));
            }
        }
    }
}

/// The models that stay have paths, none of which leads through `me`.
proof fn lemma_reachable(
    hid: Seq<char>,
    models: Seq<Seq<char>>,
    paths: Map<Seq<char>, Seq<PathV>>,
    me: Seq<char>,
)
    ensures
        ({
            let (ms, ps) = reachable(hid, models, paths, me);
            forall|m: Seq<char>| #[trigger]
                ms.contains(m) ==> ps.contains_key(m) && avoids(ps[m], me)
        }),
    decreases models.len(),
{
    if models.len() > 0 {
        lemma_reachable(hid, models.drop_last(), paths, me);
        let (ms, ps) = reachable(hid, models.drop_last(), paths, me);
        let (ms2, ps2) = reachable(hid, models, paths, me);
        let x = models.last();
        let had = recorded(hid, ps, x);
        lemma_avoiding(had, me);
        assert forall|m: Seq<char>| #[trigger] ms2.contains(m) implies ps2.contains_key(m)
            && avoids(ps2[m], me) by {
            let i = choose|i: int| 0 <= i < ms2.len() && ms2[i] == m;
            if i < ms.len() {
                assert(ms[i] == m);
                assert(ms.contains(m));
            }
        }
    }
}

/// What is left of a list of endpoints leads away from `me`.
proof fn lemma_foreign_leads_away(endpoints: Seq<EndpointV>, me: Seq<char>)
    ensures
        forall|i: int|
            0 <= i < foreign(endpoints, me).len() ==> leads_away(
                #[trigger] foreign(endpoints, me)[i],
                me,
            ),
    decreases endpoints.len(),
{
    if endpoints.len() > 0 {
        lemma_foreign_leads_away(endpoints.drop_last(), me);
        let ep = endpoints.last();
        if let Some(hid) = ep.hive_id {
            lemma_reachable(hid, ep.models, ep.paths, me);
        }
        let before = foreign(endpoints.drop_last(), me);
        let left = foreign(endpoints, me);
        if ep.hive_id != Some(me) {
            assert(leads_away(cleaned(ep, me), me));
        }
        assert forall|i: int| 0 <= i < left.len() implies leads_away(#[trigger] left[i], me) by {
            if i < before.len() {
                assert(left[i] == before[i]);
            }
        }
    }
}

/// Only members that were there are kept, and none of those that were found.
proof fn lemma_carried_members(
    previous: Seq<EndpointV>,
    present: Seq<Seq<char>>,
    missed: Map<Seq<char>, u32>,
    drop_after: u32,
    ep: EndpointV,
)
    ensures
        carried(previous, present, missed, drop_after).0.contains(ep) ==> previous.contains(ep)
            && !present.contains(ep.base_url),
    decreases previous.len(),
{
    if previous.len() > 0 {
        let rest = previous.drop_last();
        lemma_carried_members(rest, present, missed, drop_after, ep);
        let before = carried(rest, present, missed, drop_after).0;
        let kept = carried(previous, present, missed, drop_after).0;
        if kept.contains(ep) {
            let i = choose|i: int| 0 <= i < kept.len() && kept[i] == ep;
            if i < before.len() {
                assert(before[i] == ep);
                assert(before.contains(ep));
                let k = choose|k: int| 0 <= k < rest.len() && rest[k] == ep;
                assert(previous[k] == ep);
            } else {
                assert(previous[previous.len() - 1] == ep);
            }
        }
    }
}

/// If nothing of the members leads back through this hive, nothing does after a
/// scan, whatever the scan found.
pub proof fn law_no_member_leads_back(h: HiveV, found: Seq<EndpointV>)
    requires
        forall|i: int|
            0 <= i < h.endpoints.len() ==> leads_away(#[trigger] h.endpoints[i], h.own_id),
    ensures
        ({
            let after = installed(h, found);
            forall|i: int|
                0 <= i < after.endpoints.len() ==> leads_away(
                    #[trigger] after.endpoints[i],
                    after.own_id,
                )
        }),
{
    let me = h.own_id;
    let fresh = foreign(found, me);
    let present = urls(fresh);
    let missed = filtered(h.missed_scans, present, false);
    let kept = carried(h.endpoints, present, missed, h.drop_after).0;
    let all = fresh + kept;
    let after = installed(h, found);
    lemma_foreign_leads_away(found, me);
    law_sorted_is_permutation::<DiscoveredEndpoint>(all);
    assert forall|i: int| 0 <= i < after.endpoints.len() implies leads_away(
        #[trigger] after.endpoints[i],
        after.own_id,
    ) by {
        let ep = after.endpoints[i];
        assert(after.endpoints.contains(ep));
        lemma_permutation_contains(after.endpoints, all, ep);
        let k = choose|k: int| 0 <= k < all.len() && all[k] == ep;
        if k < fresh.len() {
            assert(fresh[k] == ep);
        } else {
            assert(kept[k - fresh.len()] == ep);
            assert(kept.contains(ep));
            lemma_carried_members(h.endpoints, present, missed, h.drop_after, ep);
            let m = choose|m: int| 0 <= m < h.endpoints.len() && h.endpoints[m] == ep;
            assert(leads_away(h.endpoints[m], me));
        }
    }
}

/// What was recorded of a model that was not listed yet is as it was.
proof fn lemma_reachable_untouched(
    hid: Seq<char>,
    models: Seq<Seq<char>>,
    paths: Map<Seq<char>, Seq<PathV>>,
    me: Seq<char>,
    m: Seq<char>,
)
    requires
        !models.contains(m),
    ensures
        recorded(hid, reachable(hid, models, paths, me).1, m) == recorded(hid, paths, m),
        !reachable(hid, models, paths, me).0.contains(m),
    decreases models.len(),
{
    if models.len() > 0 {
        let rest = models.drop_last();
        assert(models[models.len() - 1] == models.last());
        assert(!rest.contains(m)) by {
            if rest.contains(m) {
                let k = choose|k: int| 0 <= k < rest.len() && rest[k] == m;
                assert(models[k] == m);
            }
        }
        lemma_reachable_untouched(hid, rest, paths, me, m);
        let before = reachable(hid, rest, paths, me).0;
        let ms = reachable(hid, models, paths, me).0;
        if ms.contains(m) {
            let i = choose|i: int| 0 <= i < ms.len() && ms[i] == m;
            if i < before.len() {
                assert(before[i] == m);
            }
        }
    }
}

/// A hive's model stays exactly if one of its paths does not lead through `me`.
pub proof fn law_model_needs_another_path(ep: EndpointV, me: Seq<char>, m: Seq<char>)
    requires
        ep.hive_id is Some,
        ep.models.no_duplicates(),
    ensures
        cleaned(ep, me).models.contains(m) <==> ep.models.contains(m) && exists|i: int|
            0 <= i < recorded(ep.hive_id->0, ep.paths, m).len() && !(#[trigger] recorded(
                ep.hive_id->0,
                ep.paths,
                m,
            )[i]).contains(me),
{
    lemma_model_stays(ep.hive_id->0, ep.models, ep.paths, me, m);
    lemma_avoiding(recorded(ep.hive_id->0, ep.paths, m), me);
}

/// A hive's model stays exactly if one of its paths does not lead through `me`.
proof fn lemma_model_stays(
    hid: Seq<char>,
    models: Seq<Seq<char>>,
    paths: Map<Seq<char>, Seq<PathV>>,
    me: Seq<char>,
    m: Seq<char>,
)
    requires
        models.no_duplicates(),
    ensures
        reachable(hid, models, paths, me).0.contains(m) <==> models.contains(m) && avoiding(
            recorded(hid, paths, m),
            me,
        ).len() > 0,
    decreases models.len(),
{
    if !models.contains(m) {
        lemma_reachable_untouched(hid, models, paths, me, m);
    } else {
        let rest = models.drop_last();
        let before = reachable(hid, rest, paths, me).0;
        let ms = reachable(hid, models, paths, me).0;
        if models.last() == m {
            assert(!rest.contains(m)) by {
                if rest.contains(m) {
                    let k = choose|k: int| 0 <= k < rest.len() && rest[k] == m;
                    assert(models[k] == models[models.len() - 1]);
                }
            }
            lemma_reachable_untouched(hid, rest, paths, me, m);
            if avoiding(recorded(hid, paths, m), me).len() > 0 {
                assert(ms[before.len() as int] == m);
            }
        } else {
            let k = choose|k: int| 0 <= k < models.len() && models[k] == m;
            assert(rest[k] == m);
            lemma_model_stays(hid, rest, paths, me, m);
            if before.contains(m) {
                let i = choose|i: int| 0 <= i < before.len() && before[i] == m;
                assert(ms[i] == m);
            }
            if ms.contains(m) {
                let i = choose|i: int| 0 <= i < ms.len() && ms[i] == m;
                if i < before.len() {
                    assert(before[i] == m);
                }
            }
        }
    }
}

/// A base URL that no endpoint has is neither kept nor counted.
proof fn lemma_carried_other(
    previous: Seq<EndpointV>,
    present: Seq<Seq<char>>,
    missed: Map<Seq<char>, u32>,
    drop_after: u32,
    url: Seq<char>,
)
    requires
        !urls(previous).contains(url) || present.contains(url),
    ensures
        carried(previous, present, missed, drop_after).1.contains_key(url) == missed.contains_key(
            url,
        ),
        missed.contains_key(url) ==> carried(previous, present, missed, drop_after).1[url]
            == missed[url],
    decreases previous.len(),
{
    if previous.len() > 0 {
        let rest = previous.drop_last();
        assert(urls(previous)[previous.len() - 1] == previous.last().base_url);
        assert(!urls(rest).contains(url) || present.contains(url)) by {
            if urls(rest).contains(url) {
                let k = choose|k: int| 0 <= k < urls(rest).len() && urls(rest)[k] == url;
                assert(urls(previous)[k] == url);
            }
        }
        lemma_carried_other(rest, present, missed, drop_after, url);
    }
}

/// What becomes of a member that a scan did not find.
proof fn lemma_carried_member(
    previous: Seq<EndpointV>,
    present: Seq<Seq<char>>,
    missed: Map<Seq<char>, u32>,
    drop_after: u32,
    i: int,
)
    requires
        urls(previous).no_duplicates(),
        0 <= i < previous.len(),
        !present.contains(previous[i].base_url),
        can_grow(missed),
    ensures
        ({
            let ep = previous[i];
            let url = ep.base_url;
            let (kept, counts) = carried(previous, present, missed, drop_after);
            let n: int = if missed.contains_key(url) {
                missed[url] + 1
            } else {
                1
            };
            if ep.source != "docker"@ && n < drop_after {
                kept.contains(ep) && counts.contains_key(url) && counts[url] == n
            } else {
                !kept.contains(ep) && !counts.contains_key(url)
            }
        }),
    decreases previous.len(),
{
    let rest = previous.drop_last();
    let ep = previous[i];
    let url = ep.base_url;
    let last = previous.last();
    let before = carried(rest, present, missed, drop_after).0;
    let kept = carried(previous, present, missed, drop_after).0;
    if i == previous.len() - 1 {
        assert(!urls(rest).contains(url)) by {
            if urls(rest).contains(url) {
                let k = choose|k: int| 0 <= k < urls(rest).len() && urls(rest)[k] == url;
                assert(urls(previous)[k] == urls(previous)[i]);
            }
        }
        lemma_carried_other(rest, present, missed, drop_after, url);
        lemma_carried_members(rest, present, missed, drop_after, ep);
        assert(!before.contains(ep)) by {
            if before.contains(ep) {
                let k = choose|k: int| 0 <= k < rest.len() && rest[k] == ep;
                assert(urls(rest)[k] == url);
            }
        }
        if kept.len() > before.len() {
            assert(kept[before.len() as int] == ep);
        }
    } else {
        assert(urls(rest) =~= urls(previous).drop_last());
        assert(urls(rest).no_duplicates()) by {
            assert forall|a: int, b: int|
                0 <= a < urls(rest).len() && 0 <= b < urls(rest).len() && a != b implies urls(
                rest,
            )[a] != urls(rest)[b] by {
                assert(urls(previous)[a] != urls(previous)[b]);
            }
        }
        assert(rest[i] == ep);
        lemma_carried_member(rest, present, missed, drop_after, i);
        assert(urls(previous)[i] != urls(previous)[previous.len() - 1]);
        assert(last.base_url != url);
        if before.contains(ep) {
            let k = choose|k: int| 0 <= k < before.len() && before[k] == ep;
            assert(kept[k] == ep);
        }
        if kept.contains(ep) {
            let k = choose|k: int| 0 <= k < kept.len() && kept[k] == ep;
            if k < before.len() {
                assert(before[k] == ep);
            }
        }
    }
}

/// A member that a scan did not find stays, as it was last known, until it has
/// missed `drop_after` scans in a row; one from Docker leaves at once. The scans
/// missed so far are counted.
pub proof fn law_missing_member(h: HiveV, found: Seq<EndpointV>, i: int)
    requires
        h.wf(),
        urls(h.endpoints).no_duplicates(),
        0 <= i < h.endpoints.len(),
        !urls(foreign(found, h.own_id)).contains(h.endpoints[i].base_url),
    ensures
        ({
            let ep = h.endpoints[i];
            let url = ep.base_url;
            let after = installed(h, found);
            let n: int = if h.missed_scans.contains_key(url) {
                h.missed_scans[url] + 1
            } else {
                1
            };
            if ep.source != "docker"@ && n < h.drop_after {
                after.endpoints.contains(ep) && after.missed_scans.contains_key(url)
                    && after.missed_scans[url] == n
            } else {
                !after.endpoints.contains(ep) && !after.missed_scans.contains_key(url)
            }
        }),
{
    let me = h.own_id;
    let fresh = foreign(found, me);
    let present = urls(fresh);
    let missed = filtered(h.missed_scans, present, false);
    let kept = carried(h.endpoints, present, missed, h.drop_after).0;
    let all = fresh + kept;
    let ep = h.endpoints[i];
    lemma_carried_member(h.endpoints, present, missed, h.drop_after, i);
    law_sorted_is_permutation::<DiscoveredEndpoint>(all);
    lemma_permutation_contains(installed(h, found).endpoints, all, ep);
    if kept.contains(ep) {
        let k = choose|k: int| 0 <= k < kept.len() && kept[k] == ep;
        assert(all[fresh.len() + k] == ep);
    }
    if all.contains(ep) {
        let k = choose|k: int| 0 <= k < all.len() && all[k] == ep;
        if k < fresh.len() {
            assert(present[k] == ep.base_url);
        } else {
            assert(kept[k - fresh.len()] == ep);
        }
    }
}

/// A member that answers starts counting anew.
pub proof fn law_answering_resets(h: HiveV, found: Seq<EndpointV>, url: Seq<char>)
    requires
        urls(foreign(found, h.own_id)).contains(url),
    ensures
        !installed(h, found).missed_scans.contains_key(url),
{
    let present = urls(foreign(found, h.own_id));
    let missed = filtered(h.missed_scans, present, false);
    lemma_carried_other(h.endpoints, present, missed, h.drop_after, url);
}

/// A member that answers is taken as it is now.
pub proof fn law_found_member_joins(h: HiveV, found: Seq<EndpointV>, ep: EndpointV)
    requires
        foreign(found, h.own_id).contains(ep),
    ensures
        installed(h, found).endpoints.contains(ep),
{
    let fresh = foreign(found, h.own_id);
    let present = urls(fresh);
    let missed = filtered(h.missed_scans, present, false);
    let kept = carried(h.endpoints, present, missed, h.drop_after).0;
    let all = fresh + kept;
    law_sorted_is_permutation::<DiscoveredEndpoint>(all);
    let k = choose|k: int| 0 <= k < fresh.len() && fresh[k] == ep;
    assert(all[k] == ep);
    lemma_permutation_contains(installed(h, found).endpoints, all, ep);
}

/// The base URLs of the members that are kept are distinct.
proof fn lemma_carried_distinct(
    previous: Seq<EndpointV>,
    present: Seq<Seq<char>>,
    missed: Map<Seq<char>, u32>,
    drop_after: u32,
)
    requires
        urls(previous).no_duplicates(),
    ensures
        urls(carried(previous, present, missed, drop_after).0).no_duplicates(),
    decreases previous.len(),
{
    if previous.len() > 0 {
        let rest = previous.drop_last();
        assert forall|a: int, b: int|
            0 <= a < urls(rest).len() && 0 <= b < urls(rest).len() && a != b implies urls(rest)[a]
            != urls(rest)[b] by {
            assert(urls(previous)[a] != urls(previous)[b]);
        }
        lemma_carried_distinct(rest, present, missed, drop_after);
        let before = carried(rest, present, missed, drop_after).0;
        let kept = carried(previous, present, missed, drop_after).0;
        if kept.len() > before.len() {
            assert forall|a: int, b: int|
                0 <= a < urls(kept).len() && 0 <= b < urls(kept).len() && a != b implies urls(
                kept,
            )[a] != urls(kept)[b] by {
                let last = before.len() as int;
                if a < last && b < last {
                    assert(urls(before)[a] != urls(before)[b]);
                } else {
                    let x = if a < last {
                        a
                    } else {
                        b
                    };
                    assert(before[x] == kept[x]);
                    assert(before.contains(kept[x]));
                    lemma_carried_members(rest, present, missed, drop_after, kept[x]);
                    let k = choose|k: int| 0 <= k < rest.len() && rest[k] == kept[x];
                    assert(urls(previous)[k] != urls(previous)[previous.len() - 1]);
                }
            }
        }
    }
}

/// No two members have the same base URL, if none had before and the scan gave none.
pub proof fn law_members_distinct(h: HiveV, found: Seq<EndpointV>)
    requires
        urls(h.endpoints).no_duplicates(),
        urls(foreign(found, h.own_id)).no_duplicates(),
    ensures
        urls(installed(h, found).endpoints).no_duplicates(),
{
    let fresh = foreign(found, h.own_id);
    let present = urls(fresh);
    let missed = filtered(h.missed_scans, present, false);
    let kept = carried(h.endpoints, present, missed, h.drop_after).0;
    let all = fresh + kept;
    lemma_carried_distinct(h.endpoints, present, missed, h.drop_after);
    assert forall|a: int, b: int|
        0 <= a < urls(all).len() && 0 <= b < urls(all).len() && a != b implies urls(all)[a]
        != urls(all)[b] by {
        let n = fresh.len() as int;
        if a < n && b < n {
            assert(urls(fresh)[a] != urls(fresh)[b]);
        } else if a >= n && b >= n {
            assert(urls(kept)[a - n] != urls(kept)[b - n]);
        } else {
            let x = if a < n {
                a
            } else {
                b
            };
            let y = if a < n {
                b
            } else {
                a
            };
            assert(kept[y - n] == all[y]);
            assert(kept.contains(all[y]));
            lemma_carried_members(h.endpoints, present, missed, h.drop_after, all[y]);
            assert(present[x] == all[x].base_url);
        }
    }
    law_sorted_is_permutation::<DiscoveredEndpoint>(all);
    lemma_map_permutation(
        all,
        installed(h, found).endpoints,
        |e: EndpointV| e.base_url,
    );
    lemma_permutation_distinct(urls(all), urls(installed(h, found).endpoints));
}

/// The members are in the order of their base URLs.
pub proof fn law_members_in_order(h: HiveV, found: Seq<EndpointV>)
    ensures
        in_order::<DiscoveredEndpoint>(installed(h, found).endpoints),
{
    lemma_text_order();
    assert forall|a: EndpointV, b: EndpointV| #[trigger] DiscoveredEndpoint::before(
        a,
        b,
    ) implies !DiscoveredEndpoint::before(b, a) by {
        assert(String::before(a.base_url, b.base_url));
    }
    assert forall|a: EndpointV, b: EndpointV, c: EndpointV| #[trigger]
        DiscoveredEndpoint::before(a, b) && #[trigger] DiscoveredEndpoint::before(
            b,
            c,
        ) implies DiscoveredEndpoint::before(a, c) by {
        assert(String::before(a.base_url, b.base_url) && String::before(b.base_url, c.base_url));
    }
    assert forall|a: EndpointV, b: EndpointV, c: EndpointV|
        !(#[trigger] DiscoveredEndpoint::before(a, b)) && !(#[trigger] DiscoveredEndpoint::before(
            b,
            c,
        )) implies !DiscoveredEndpoint::before(a, c) by {
        assert(!String::before(a.base_url, b.base_url) && !String::before(b.base_url, c.base_url));
    }
    let fresh = foreign(found, h.own_id);
    let present = urls(fresh);
    let missed = filtered(h.missed_scans, present, false);
    let kept = carried(h.endpoints, present, missed, h.drop_after).0;
    law_sorted_in_order::<DiscoveredEndpoint>(fresh + kept);
}

/// Only models that a member serves keep their round-robin counter, and these keep
/// its value.
pub proof fn law_turns_pruned(h: HiveV, found: Seq<EndpointV>, m: Seq<char>)
    ensures
        ({
            let after = installed(h, found);
            &&& after.rr.contains_key(m) <==> h.rr.contains_key(m) && all_models(
                after.endpoints,
            ).contains(m)
            &&& after.rr.contains_key(m) ==> after.rr[m] == h.rr[m]
        }),
{
}

/// The hive after scans that found the given endpoints.
pub open spec fn after_scans(h: HiveV, founds: Seq<Seq<EndpointV>>) -> HiveV
    decreases founds.len(),
{
    if founds.len() == 0 {
        h
    } else {
        installed(after_scans(h, founds.drop_last()), founds.last())
    }
}

/// Counts can still grow after a scan.
pub proof fn lemma_installed_wf(h: HiveV, found: Seq<EndpointV>)
    requires
        h.wf(),
    ensures
        installed(h, found).wf(),
{
    let present = urls(foreign(found, h.own_id));
    let missed = filtered(h.missed_scans, present, false);
    lemma_carried_bounded(h.endpoints, present, missed, h.drop_after);
}

/// Only what was found, or was there already and was not found, is there after a
/// scan.
pub proof fn lemma_no_stranger(h: HiveV, found: Seq<EndpointV>, ep: EndpointV)
    requires
        installed(h, found).endpoints.contains(ep),
    ensures
        foreign(found, h.own_id).contains(ep) || (h.endpoints.contains(ep) && !urls(
            foreign(found, h.own_id),
        ).contains(ep.base_url)),
{
    let fresh = foreign(found, h.own_id);
    let present = urls(fresh);
    let missed = filtered(h.missed_scans, present, false);
    let kept = carried(h.endpoints, present, missed, h.drop_after).0;
    let all = fresh + kept;
    law_sorted_is_permutation::<DiscoveredEndpoint>(all);
    lemma_permutation_contains(installed(h, found).endpoints, all, ep);
    let k = choose|k: int| 0 <= k < all.len() && all[k] == ep;
    if k < fresh.len() {
        assert(fresh[k] == ep);
    } else {
        assert(kept[k - fresh.len()] == ep);
        assert(kept.contains(ep));
        lemma_carried_members(h.endpoints, present, missed, h.drop_after, ep);
    }
}

/// A member that no scan finds any more stays through fewer than `drop_after` scans
/// and is gone from then on.
pub proof fn law_member_survives(h: HiveV, founds: Seq<Seq<EndpointV>>, ep: EndpointV)
    requires
        h.wf(),
        urls(h.endpoints).no_duplicates(),
        h.endpoints.contains(ep),
        ep.source != "docker"@,
        !h.missed_scans.contains_key(ep.base_url),
        forall|j: int|
            0 <= j < founds.len() ==> {
                let fresh = foreign(#[trigger] founds[j], h.own_id);
                !urls(fresh).contains(ep.base_url) && urls(fresh).no_duplicates()
            },
    ensures
        after_scans(h, founds).endpoints.contains(ep) <==> founds.len() < h.drop_after,
{
    lemma_member_survives(h, founds, ep);
}

/// What holds of the hive and the member after each scan.
proof fn lemma_member_survives(h: HiveV, founds: Seq<Seq<EndpointV>>, ep: EndpointV)
    requires
        h.wf(),
        urls(h.endpoints).no_duplicates(),
        h.endpoints.contains(ep),
        ep.source != "docker"@,
        !h.missed_scans.contains_key(ep.base_url),
        forall|j: int|
            0 <= j < founds.len() ==> {
                let fresh = foreign(#[trigger] founds[j], h.own_id);
                !urls(fresh).contains(ep.base_url) && urls(fresh).no_duplicates()
            },
    ensures
        ({
            let g = after_scans(h, founds);
            let url = ep.base_url;
            &&& g.wf() && g.own_id == h.own_id && g.drop_after == h.drop_after
            &&& urls(g.endpoints).no_duplicates()
            &&& g.endpoints.contains(ep) <==> founds.len() < h.drop_after
            &&& g.endpoints.contains(ep) ==> (g.missed_scans.contains_key(url) <==> founds.len()
                > 0) && (founds.len() > 0 ==> g.missed_scans[url] == founds.len())
        }),
    decreases founds.len(),
{
    if founds.len() > 0 {
        let before = founds.drop_last();
        let found = founds.last();
        assert(founds[founds.len() - 1] == found);
        assert forall|j: int| 0 <= j < before.len() implies {
            let fresh = foreign(#[trigger] before[j], h.own_id);
            !urls(fresh).contains(ep.base_url) && urls(fresh).no_duplicates()
        } by {
            assert(before[j] == founds[j]);
        }
        lemma_member_survives(h, before, ep);
        let p = after_scans(h, before);
        lemma_installed_wf(p, found);
        law_members_distinct(p, found);
        if p.endpoints.contains(ep) {
            let i = choose|i: int| 0 <= i < p.endpoints.len() && p.endpoints[i] == ep;
            law_missing_member(p, found, i);
        } else if installed(p, found).endpoints.contains(ep) {
            lemma_no_stranger(p, found, ep);
            let fresh = foreign(found, h.own_id);
            let k = choose|k: int| 0 <= k < fresh.len() && fresh[k] == ep;
            assert(urls(fresh)[k] == ep.base_url);
        }
    }
}

/// Members serve a model exactly if one of them does.
pub proof fn law_all_models(endpoints: Seq<EndpointV>, m: Seq<char>)
    ensures
        all_models(endpoints).contains(m) <==> exists|i: int|
            0 <= i < endpoints.len() && (#[trigger] endpoints[i]).models.contains(m),
    decreases endpoints.len(),
{
    if endpoints.len() > 0 {
        let rest = endpoints.drop_last();
        law_all_models(rest, m);
        lemma_contains_concat(all_models(rest), endpoints.last().models, m);
        if all_models(rest).contains(m) {
            let i = choose|i: int| 0 <= i < rest.len() && (#[trigger] rest[i]).models.contains(m);
            assert(endpoints[i].models.contains(m));
        }
        if endpoints.last().models.contains(m) {
            assert(endpoints[endpoints.len() - 1].models.contains(m));
        }
        if exists|i: int| 0 <= i < endpoints.len() && (#[trigger] endpoints[i]).models.contains(m) {
            let i = choose|i: int|
                0 <= i < endpoints.len() && (#[trigger] endpoints[i]).models.contains(m);
            if i < rest.len() {
                assert(rest[i].models.contains(m));
            }
        }
    }
}

/// A plain backend is a member as it is; of a hive nothing but its models and its paths
/// is changed.
pub proof fn law_cleaned(ep: EndpointV, me: Seq<char>)
    ensures
        ep.hive_id is None ==> cleaned(ep, me) == ep,
        cleaned(ep, me) == (EndpointV {
            models: cleaned(ep, me).models,
            paths: cleaned(ep, me).paths,
            ..ep
        }),
{
}

/// The paths that are left of a model.
proof fn lemma_paths_left(
    hid: Seq<char>,
    models: Seq<Seq<char>>,
    paths: Map<Seq<char>, Seq<PathV>>,
    me: Seq<char>,
    m: Seq<char>,
)
    requires
        models.no_duplicates(),
        reachable(hid, models, paths, me).0.contains(m),
    ensures
        reachable(hid, models, paths, me).1.contains_key(m),
        reachable(hid, models, paths, me).1[m] == avoiding(recorded(hid, paths, m), me),
    decreases models.len(),
{
    if !models.contains(m) {
        lemma_reachable_untouched(hid, models, paths, me, m);
    }
    let rest = models.drop_last();
    if models.last() == m {
        assert(!rest.contains(m)) by {
            if rest.contains(m) {
                let k = choose|k: int| 0 <= k < rest.len() && rest[k] == m;
                assert(models[k] == models[models.len() - 1]);
            }
        }
        lemma_reachable_untouched(hid, rest, paths, me, m);
        lemma_model_stays(hid, models, paths, me, m);
    } else {
        lemma_model_stays(hid, models, paths, me, m);
        lemma_model_stays(hid, rest, paths, me, m);
        let k = choose|k: int| 0 <= k < models.len() && models[k] == m;
        assert(rest[k] == m);
        lemma_paths_left(hid, rest, paths, me, m);
    }
}

/// The paths of a model that stays are those that the hive told of, or the one through
/// it, without those that lead through `me`.
pub proof fn law_paths_kept(ep: EndpointV, me: Seq<char>, m: Seq<char>, p: PathV)
    requires
        ep.hive_id is Some,
        ep.models.no_duplicates(),
        cleaned(ep, me).models.contains(m),
    ensures
        cleaned(ep, me).paths.contains_key(m),
        cleaned(ep, me).paths[m].contains(p) <==> !p.contains(me) && if ep.paths.contains_key(m) {
            ep.paths[m].contains(p)
        } else {
            p == seq![ep.hive_id->0]
        },
{
    let hid = ep.hive_id->0;
    let r = recorded(hid, ep.paths, m);
    lemma_paths_left(hid, ep.models, ep.paths, me, m);
    lemma_filter(r, |q: PathV| !q.contains(me), p);
    if !ep.paths.contains_key(m) {
        assert(r[0] == seq![hid]);
        assert(r.contains(p) <==> p == seq![hid]);
    }
}

/// Every endpoint that is found becomes a member, cleaned, but for this hive itself.
pub proof fn law_foreign(endpoints: Seq<EndpointV>, me: Seq<char>, x: EndpointV)
    ensures
        foreign(endpoints, me).contains(x) <==> exists|i: int|
            0 <= i < endpoints.len() && (#[trigger] endpoints[i]).hive_id != Some(me) && x
                == cleaned(endpoints[i], me),
    decreases endpoints.len(),
{
    if endpoints.len() > 0 {
        let rest = endpoints.drop_last();
        let (a, all) = (foreign(rest, me), foreign(endpoints, me));
        law_foreign(rest, me, x);
        if a.contains(x) {
            let k = choose|k: int| 0 <= k < a.len() && a[k] == x;
            assert(all[k] == x);
            let i = choose|i: int|
                0 <= i < rest.len() && (#[trigger] rest[i]).hive_id != Some(me) && x == cleaned(
                    rest[i],
                    me,
                );
            assert(endpoints[i] == rest[i]);
        }
        if all.contains(x) && !a.contains(x) {
            let k = choose|k: int| 0 <= k < all.len() && all[k] == x;
            if k < a.len() {
                assert(a[k] == x);
            }
            assert(endpoints[endpoints.len() - 1] == endpoints.last());
        }
        if exists|i: int|
            0 <= i < endpoints.len() && (#[trigger] endpoints[i]).hive_id != Some(me) && x
                == cleaned(endpoints[i], me) {
            let i = choose|i: int|
                0 <= i < endpoints.len() && (#[trigger] endpoints[i]).hive_id != Some(me) && x
                    == cleaned(endpoints[i], me);
            if i < rest.len() {
                assert(rest[i] == endpoints[i]);
            } else {
                assert(all[a.len() as int] == x);
            }
        }
    }
}

/// A member after a scan is one that the scan found or one that was there before, and
/// nothing but the members, the counts of missed scans and the turns is changed.
pub proof fn law_scan_keeps(h: HiveV, found: Seq<EndpointV>, ep: EndpointV)
    ensures
        installed(h, found).endpoints.contains(ep) ==> foreign(found, h.own_id).contains(ep)
            || h.endpoints.contains(ep),
        installed(h, found) == (HiveV {
            endpoints: installed(h, found).endpoints,
            missed_scans: installed(h, found).missed_scans,
            rr: installed(h, found).rr,
            ..h
        }),
{
    let fresh = foreign(found, h.own_id);
    let missed = filtered(h.missed_scans, urls(fresh), false);
    let kept = carried(h.endpoints, urls(fresh), missed, h.drop_after).0;
    let all = fresh + kept;
    law_sorted_is_permutation::<DiscoveredEndpoint>(all);
    lemma_permutation_contains(sorted::<DiscoveredEndpoint>(all), all, ep);
    lemma_carried_members(h.endpoints, urls(fresh), missed, h.drop_after, ep);
    if all.contains(ep) {
        let k = choose|k: int| 0 <= k < all.len() && all[k] == ep;
        if k < fresh.len() {
            assert(fresh[k] == ep);
        } else {
            assert(kept[k - fresh.len()] == ep);
        }
    }
}

/// The members are listed by base URL.
pub proof fn law_members_by_url(h: HiveV, found: Seq<EndpointV>, i: int, j: int)
    requires
        0 <= i < j < installed(h, found).endpoints.len(),
    ensures
        !lex_before(
            installed(h, found).endpoints[j].base_url,
            installed(h, found).endpoints[i].base_url,
        ),
{
    law_members_in_order(h, found);
    let all = installed(h, found).endpoints;
    assert(!DiscoveredEndpoint::before(all[j], all[i]));
}

/// A scan finds a model at a URL exactly if one of its sources does.
pub proof fn law_scan_unites(
    found: Seq<EndpointV>,
    pinned: Seq<EndpointV>,
    docked: Seq<EndpointV>,
    url: Seq<char>,
    m: Seq<char>,
)
    ensures
        serves_at(scan_result(found, pinned, docked), url, m) <==> serves_at(found, url, m)
            || serves_at(pinned, url, m) || serves_at(docked, url, m),
{
    let local = sorted::<DiscoveredEndpoint>(merged(found + pinned));
    law_merged_models(found, pinned, url, m);
    law_merged_models(local, docked, url, m);
    lemma_serves_concat(found, pinned, url, m);
    lemma_serves_concat(local, docked, url, m);
}

/// What one of two lists serves.
proof fn lemma_serves_concat(a: Seq<EndpointV>, b: Seq<EndpointV>, url: Seq<char>, m: Seq<char>)
    ensures
        serves_at(a + b, url, m) <==> serves_at(a, url, m) || serves_at(b, url, m),
{
    let s = a + b;
    if serves_at(a, url, m) {
        let i = choose|i: int|
            0 <= i < a.len() && (#[trigger] a[i]).base_url == url && a[i].models.contains(m);
        assert(s[i] == a[i]);
    }
    if serves_at(b, url, m) {
        let i = choose|i: int|
            0 <= i < b.len() && (#[trigger] b[i]).base_url == url && b[i].models.contains(m);
        assert(s[a.len() + i] == b[i]);
    }
    if serves_at(s, url, m) {
        let i = choose|i: int|
            0 <= i < s.len() && (#[trigger] s[i]).base_url == url && s[i].models.contains(m);
        if i < a.len() {
            assert(a[i] == s[i]);
        } else {
            assert(b[i - a.len()] == s[i]);
        }
    }
}

} // verus!
