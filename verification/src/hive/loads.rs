//! Loads of the members: what to ask them, and what the hive reports itself.
use crate::deep::{lemma_contains_concat, lemma_deep_push, Dup};
use crate::discovery::{key_for, EndpointV};
use crate::hive::routing::{
    law_candidates_in_order, law_ranking_is_rows, load_on, ranking, rows, Row,
};
use crate::hive::view::{noted, pruned, view_of, view_text};
use crate::hive::{Hive, HiveV};
use crate::json::{put_member, Json, JsonV};
use crate::load::{effective, reported_count, vouched, Load};
use crate::order::{lemma_permutation_contains, Ranked};
use crate::table::Table;
use crate::text::str_eq;
use vstd::prelude::*;
use vstd::string::*;

verus! {

/// A group of probes that read the load of a backend. Which probes a group has, and
/// in which order, is up to the application: a new mechanism joins a group without
/// touching what is asked of whom.
#[derive(Debug, Clone, Copy, PartialEq, Eq, Structural)]
pub enum ProbeGroup {
    /// Probes of hives, which answer for one model.
    Hive,
    /// Probes of plain servers.
    Server,
    /// Probes whose answer means something only of a server with one model.
    SingleModel,
}

/// One question to a member: the groups of probes to try in order, the model to ask
/// about and the models that the answer covers.
#[derive(Debug)]
pub struct LoadJob {
    /// Endpoint id.
    pub id: String,
    pub base_url: String,
    pub chain: Vec<ProbeGroup>,
    pub asked: String,
    pub covers: Vec<String>,
    /// API key of the backend.
    pub key: Option<String>,
}

/// What a [`LoadJob`] stands for.
pub struct LoadJobV {
    pub id: Seq<char>,
    pub base_url: Seq<char>,
    pub chain: Seq<ProbeGroup>,
    pub asked: Seq<char>,
    pub covers: Seq<Seq<char>>,
    pub key: Option<Seq<char>>,
}

impl DeepView for LoadJob {
    type V = LoadJobV;

    open spec fn deep_view(&self) -> LoadJobV {
        LoadJobV {
            id: self.id@,
            base_url: self.base_url@,
            chain: self.chain@,
            asked: self.asked@,
            covers: self.covers.deep_view(),
            key: self.key.deep_view(),
        }
    }
}

/// The question to a hive about one of its models.
pub open spec fn hive_job(h: HiveV, ep: EndpointV, model: Seq<char>) -> LoadJobV {
    LoadJobV {
        id: ep.id,
        base_url: ep.base_url,
        chain: seq![ProbeGroup::Hive],
        asked: model,
        covers: seq![model],
        key: key_for(h.credentials, ep.base_url),
    }
}

/// The question to a plain server about all its models. Bare vLLM `/load` cannot
/// be attributed to one model of many.
pub open spec fn server_job(h: HiveV, ep: EndpointV) -> LoadJobV {
    LoadJobV {
        id: ep.id,
        base_url: ep.base_url,
        chain: if ep.models.len() == 1 {
            seq![ProbeGroup::Server, ProbeGroup::SingleModel]
        } else {
            seq![ProbeGroup::Server]
        },
        asked: ep.models[0],
        covers: ep.models,
        key: key_for(h.credentials, ep.base_url),
    }
}

/// The questions to one endpoint.
pub open spec fn endpoint_jobs(h: HiveV, ep: EndpointV) -> Seq<LoadJobV> {
    if ep.hive_id is Some {
        ep.models.map_values(|m: Seq<char>| hive_job(h, ep, m))
    } else if ep.models.len() > 0 {
        seq![server_job(h, ep)]
    } else {
        Seq::empty()
    }
}

/// The questions to endpoints.
pub open spec fn jobs(h: HiveV, endpoints: Seq<EndpointV>) -> Seq<LoadJobV>
    decreases endpoints.len(),
{
    if endpoints.len() == 0 {
        Seq::empty()
    } else {
        jobs(h, endpoints.drop_last()) + endpoint_jobs(h, endpoints.last())
    }
}

/// The loads of an endpoint with those of the covered models set.
pub open spec fn covering(
    loads: Map<(Seq<char>, Seq<char>), Load>,
    id: Seq<char>,
    covers: Seq<Seq<char>>,
    load: Load,
) -> Map<(Seq<char>, Seq<char>), Load>
    decreases covers.len(),
{
    if covers.len() == 0 {
        loads
    } else {
        covering(loads, id, covers.drop_last(), load).insert((id, covers.last()), load)
    }
}

/// The loads that answers give: endpoint id, covered models, load.
pub open spec fn gathered(answers: Seq<(Seq<char>, Seq<Seq<char>>, Load)>) -> Map<
    (Seq<char>, Seq<char>),
    Load,
>
    decreases answers.len(),
{
    if answers.len() == 0 {
        Map::empty()
    } else {
        let a = answers.last();
        covering(gathered(answers.drop_last()), a.0, a.1, a.2)
    }
}

/// The hive with the loads that answers give.
pub open spec fn told(h: HiveV, answers: Seq<(Seq<char>, Seq<Seq<char>>, Load)>) -> HiveV {
    HiveV { loads: gathered(answers), ..h }
}

/// Whether `a` is the smaller load, or as small and vouched for.
pub open spec fn lighter(a: (u64, bool), b: (u64, bool)) -> bool {
    a.0 < b.0 || (a.0 == b.0 && a.1 && !b.1)
}

/// The smallest load of a list, vouched for if one as small is.
pub open spec fn lightest(loads: Seq<(u64, bool)>) -> (u64, bool)
    decreases loads.len(),
{
    if loads.len() == 0 {
        (0, false)
    } else if loads.len() == 1 || lighter(loads.last(), lightest(loads.drop_last())) {
        loads.last()
    } else {
        lightest(loads.drop_last())
    }
}

/// The loads of the models of an endpoint that are asked about.
pub open spec fn model_loads(
    h: HiveV,
    ep: EndpointV,
    models: Seq<Seq<char>>,
    wanted: Option<Seq<char>>,
) -> Seq<(u64, bool)>
    decreases models.len(),
{
    if models.len() == 0 {
        Seq::empty()
    } else {
        let before = model_loads(h, ep, models.drop_last(), wanted);
        if wanted is None || wanted == Some(models.last()) {
            before.push(load_on(h, ep, models.last()))
        } else {
            before
        }
    }
}

/// The loads of all models, or of one, on all endpoints.
pub open spec fn member_loads(h: HiveV, endpoints: Seq<EndpointV>, wanted: Option<Seq<char>>) -> Seq<
    (u64, bool),
>
    decreases endpoints.len(),
{
    if endpoints.len() == 0 {
        Seq::empty()
    } else {
        member_loads(h, endpoints.drop_last(), wanted) + model_loads(
            h,
            endpoints.last(),
            endpoints.last().models,
            wanted,
        )
    }
}

/// The load that the next request would face.
pub open spec fn aggregate(h: HiveV, wanted: Option<Seq<char>>) -> (u64, bool) {
    lightest(member_loads(h, h.endpoints, wanted))
}

/// What [`Hive::aggregate_load`] is answered with over HTTP.
pub open spec fn load_report(n: u64, exact: bool) -> JsonV {
    JsonV::Object(
        Map::empty().insert("server_load"@, JsonV::Unsigned(n)).insert(
            "hivllm"@,
            JsonV::Object(Map::empty().insert("exact"@, JsonV::Bool(exact))),
        ),
    )
}

/// An answer to a [`LoadJob`]: endpoint id, covered models, load.
#[derive(Debug)]
pub struct LoadAnswer {
    pub id: String,
    pub covers: Vec<String>,
    pub load: Load,
}

impl DeepView for LoadAnswer {
    type V = (Seq<char>, Seq<Seq<char>>, Load);

    open spec fn deep_view(&self) -> (Seq<char>, Seq<Seq<char>>, Load) {
        (self.id@, self.covers.deep_view(), self.load)
    }
}

impl Hive {
    /// The API key of a backend.
    pub fn key_of(&self, base_url: &str) -> (r: Option<String>)
        ensures
            r.deep_view() == key_for(self@.credentials, base_url@),
    {
        match self.credentials.for_url(base_url) {
            Some(k) => Some(k.to_owned()),
            None => None,
        }
    }

    /// The questions to ask the members about their loads: one to each plain
    /// server, one for each model to each hive (only its per-model aggregate
    /// means anything).
    pub fn load_jobs(&self) -> (r: Vec<LoadJob>)
        ensures
            r.deep_view() == jobs(self@, self@.endpoints),
    {
        let ghost h = self@;
        let ghost eps = self.endpoints.deep_view();
        let mut out: Vec<LoadJob> = Vec::new();
        let mut i: usize = 0;
        proof {
            assert(out.deep_view() =~= jobs(h, eps.take(0)));
        }
        while i < self.endpoints.len()
            invariant
                i <= self.endpoints@.len(),
                h == self@,
                eps == self.endpoints.deep_view(),
                out.deep_view() == jobs(h, eps.take(i as int)),
            decreases self.endpoints@.len() - i,
        {
            let ep = &self.endpoints[i];
            let ghost start = out.deep_view();
            proof {
                assert(eps.take(i + 1).drop_last() =~= eps.take(i as int));
                assert(eps.take(i + 1).last() == ep@);
            }
            if ep.hive_id.is_some() {
                let ghost asked = endpoint_jobs(h, ep@);
                let mut j: usize = 0;
                proof {
                    assert(start + asked.take(0) =~= start);
                }
                while j < ep.models.len()
                    invariant
                        j <= ep.models@.len(),
                        h == self@,
                        ep@.hive_id is Some,
                        asked == endpoint_jobs(h, ep@),
                        out.deep_view() == start + asked.take(j as int),
                    decreases ep.models@.len() - j,
                {
                    let ghost before = out;
                    let job = LoadJob {
                        id: ep.id.clone(),
                        base_url: ep.base_url.clone(),
                        chain: vec![ProbeGroup::Hive],
                        asked: ep.models[j].clone(),
                        covers: vec![ep.models[j].clone()],
                        key: self.key_of(ep.base_url.as_str()),
                    };
                    out.push(job);
                    proof {
                        let m = ep.models@[j as int]@;
                        assert(job.chain@ =~= seq![ProbeGroup::Hive]);
                        assert(job.covers.deep_view() =~= seq![m]);
                        assert(job.deep_view() == hive_job(h, ep@, m));
                        lemma_deep_push(before, out, job);
                        assert((start + asked.take(j as int)).push(asked[j as int]) =~= start
                            + asked.take(j + 1));
                    }
                    j = j + 1;
                }
                proof {
                    assert(asked.take(j as int) =~= asked);
                }
            } else if ep.models.len() > 0 {
                let ghost before = out;
                let chain: Vec<ProbeGroup> = if ep.models.len() == 1 {
                    vec![ProbeGroup::Server, ProbeGroup::SingleModel]
                } else {
                    vec![ProbeGroup::Server]
                };
                let job = LoadJob {
                    id: ep.id.clone(),
                    base_url: ep.base_url.clone(),
                    chain,
                    asked: ep.models[0].clone(),
                    covers: ep.models.dup(),
                    key: self.key_of(ep.base_url.as_str()),
                };
                out.push(job);
                proof {
                    assert(job.chain@ =~= server_job(h, ep@).chain);
                    assert(job.deep_view() == server_job(h, ep@));
                    lemma_deep_push(before, out, job);
                    assert(start.push(job.deep_view()) =~= start + seq![job.deep_view()]);
                }
            } else {
                proof {
                    assert(start + Seq::<LoadJobV>::empty() =~= start);
                }
            }
            i = i + 1;
        }
        proof {
            assert(eps.take(i as int) =~= eps);
        }
        out
    }

    /// Replaces the loads by those that the members answered with. Gives the
    /// view of the hive if it changed.
    pub fn refresh_load(&mut self, answers: Vec<LoadAnswer>, now: u64) -> (r: Option<String>)
        ensures
            ({
                let h = HiveV { loads: gathered(answers.deep_view()), ..old(self)@ };
                let text = view_text(view_of(h, now));
                if text == h.last_view {
                    r is None && final(self)@ == pruned(h, now)
                } else {
                    r.deep_view() == Some(text) && final(self)@ == (HiveV {
                        last_view: text,
                        ..pruned(h, now)
                    })
                }
            }),
            (r.deep_view(), final(self)@) == noted(
                told(old(self)@, answers.deep_view()),
                now,
            ),
    {
        let ghost all = answers@;
        let ghost s = answers.deep_view();
        let mut loads: Table<(String, String), Load> = Table::new();
        proof {
            assert(s.take(0) =~= Seq::empty());
        }
        for a in it: answers
            invariant
                it.seq() == all,
                s.len() == all.len(),
                forall|k: int| 0 <= k < all.len() ==> s[k] == all[k].deep_view(),
                loads@ == gathered(s.take(it.index() as int)),
        {
            let ghost start = loads@;
            let ghost cs = a.covers.deep_view();
            proof {
                assert(s.take(it.index() + 1).drop_last() =~= s.take(it.index() as int));
                assert(s.take(it.index() + 1).last() == a.deep_view());
                assert(cs.take(0) =~= Seq::empty());
            }
            let mut j: usize = 0;
            while j < a.covers.len()
                invariant
                    j <= a.covers@.len(),
                    cs == a.covers.deep_view(),
                    loads@ == covering(start, a.id@, cs.take(j as int), a.load),
                decreases a.covers@.len() - j,
            {
                proof {
                    assert(cs.take(j + 1).drop_last() =~= cs.take(j as int));
                    assert(cs.take(j + 1).last() == a.covers@[j as int]@);
                }
                loads.insert((a.id.clone(), a.covers[j].clone()), a.load);
                j = j + 1;
            }
            proof {
                assert(cs.take(j as int) =~= cs);
            }
        }
        proof {
            assert(s.take(s.len() as int) =~= s);
        }
        self.loads = loads;
        self.log_view(now)
    }

    /// Aggregate load of the whole hive (`None`) or of one model, and whether it
    /// is vouched for: the smallest effective load over the members, which the
    /// next request would face. It is vouched for if that member's number is, so
    /// approximations never pass for exact numbers across hives. Without members
    /// it is zero, not vouched for.
    pub fn aggregate_load(&self, model: Option<&str>) -> (r: (u64, bool))
        ensures
            r == aggregate(
                self@,
                match model {
                    Some(m) => Some(m@),
                    None => None,
                },
            ),
    {
        let ghost h = self@;
        let ghost wanted: Option<Seq<char>> = match model {
            Some(m) => Some(m@),
            None => None,
        };
        let ghost eps = self.endpoints.deep_view();
        let mut best: Option<(u64, bool)> = None;
        let mut i: usize = 0;
        let ghost mut seen = Seq::<(u64, bool)>::empty();
        while i < self.endpoints.len()
            invariant
                i <= self.endpoints@.len(),
                h == self@,
                eps == self.endpoints.deep_view(),
                wanted == (match model {
                    Some(m) => Some(m@),
                    None => None,
                }),
                seen == member_loads(h, eps.take(i as int), wanted),
                match best {
                    Some(b) => seen.len() > 0 && b == lightest(seen),
                    None => seen.len() == 0,
                },
            decreases self.endpoints@.len() - i,
        {
            let ep = &self.endpoints[i];
            let ghost start = seen;
            let ghost ms = ep.models.deep_view();
            let mut j: usize = 0;
            proof {
                assert(start + model_loads(h, ep@, ms.take(0), wanted) =~= start);
            }
            while j < ep.models.len()
                invariant
                    j <= ep.models@.len(),
                    h == self@,
                    ms == ep.models.deep_view(),
                    wanted == (match model {
                        Some(m) => Some(m@),
                        None => None,
                    }),
                    seen == start + model_loads(h, ep@, ms.take(j as int), wanted),
                    match best {
                        Some(b) => seen.len() > 0 && b == lightest(seen),
                        None => seen.len() == 0,
                    },
                decreases ep.models@.len() - j,
            {
                proof {
                    assert(ms.take(j + 1).drop_last() =~= ms.take(j as int));
                    assert(ms.take(j + 1).last() == ep.models@[j as int]@);
                }
                let asked = match model {
                    Some(m) => str_eq(ep.models[j].as_str(), m),
                    None => true,
                };
                if asked {
                    let x = self.endpoint_load(ep, &ep.models[j]);
                    let better = match best {
                        Some(b) => x.0 < b.0 || (x.0 == b.0 && x.1 && !b.1),
                        None => true,
                    };
                    if better {
                        best = Some(x);
                    }
                    proof {
                        let before = model_loads(h, ep@, ms.take(j as int), wanted);
                        assert(start + before.push(x) =~= seen.push(x));
                        assert(seen.push(x).drop_last() =~= seen);
                        seen = seen.push(x);
                    }
                }
                j = j + 1;
            }
            proof {
                assert(ms.take(j as int) =~= ms);
                assert(eps.take(i + 1).drop_last() =~= eps.take(i as int));
                assert(eps.take(i + 1).last() == ep@);
            }
            i = i + 1;
        }
        proof {
            assert(eps.take(i as int) =~= eps);
        }
        match best {
            Some(b) => b,
            None => (0, false),
        }
    }

    /// The body of the answer to `GET /load`, so that upstream hives route on
    /// real numbers.
    pub fn server_load(&self, model: Option<&str>) -> (r: Json)
        ensures
            ({
                let (n, exact) = aggregate(
                    self@,
                    match model {
                        Some(m) => Some(m@),
                        None => None,
                    },
                );
                r@ == load_report(n, exact)
            }),
            r@ == load_reply(
                self@,
                match model {
                    Some(m) => Some(m@),
                    None => None,
                },
            ),
    {
        let (n, exact) = self.aggregate_load(model);
        let mut mark: Vec<(String, Json)> = Vec::new();
        put_member(&mut mark, "exact".to_owned(), Json::Bool(exact));
        let mut body: Vec<(String, Json)> = Vec::new();
        put_member(&mut body, "server_load".to_owned(), Json::Unsigned(n));
        put_member(&mut body, "hivllm".to_owned(), Json::Object(mark));
        Json::Object(body)
    }
}

/// The answer to a question for the load of the hive.
pub open spec fn load_reply(h: HiveV, wanted: Option<Seq<char>>) -> JsonV {
    load_report(aggregate(h, wanted).0, aggregate(h, wanted).1)
}

/// The lightest of loads is one of them, and none is lighter.
pub proof fn law_lightest(loads: Seq<(u64, bool)>)
    requires
        loads.len() > 0,
    ensures
        loads.contains(lightest(loads)),
        forall|i: int| 0 <= i < loads.len() ==> !lighter(#[trigger] loads[i], lightest(loads)),
    decreases loads.len(),
{
    let rest = loads.drop_last();
    assert(loads[loads.len() - 1] == loads.last());
    if loads.len() > 1 {
        law_lightest(rest);
        let k = choose|k: int| 0 <= k < rest.len() && rest[k] == lightest(rest);
        assert(loads[k] == lightest(rest));
        assert forall|i: int| 0 <= i < loads.len() implies !lighter(
            #[trigger] loads[i],
            lightest(loads),
        ) by {
            if i < rest.len() {
                assert(rest[i] == loads[i]);
            }
        }
    }
}

/// The load that the hive reports is that of a member, and no member has a smaller
/// one; it is vouched for only if that member vouches for it, so approximations
/// never pass for exact numbers. A hive without members reports zero, not vouched
/// for.
pub proof fn law_aggregate(h: HiveV, wanted: Option<Seq<char>>)
    ensures
        ({
            let loads = member_loads(h, h.endpoints, wanted);
            let a = aggregate(h, wanted);
            if loads.len() == 0 {
                a == (0u64, false)
            } else {
                loads.contains(a) && forall|i: int|
                    0 <= i < loads.len() ==> a.0 <= (#[trigger] loads[i]).0
            }
        }),
{
    let loads = member_loads(h, h.endpoints, wanted);
    if loads.len() > 0 {
        law_lightest(loads);
        assert forall|i: int| 0 <= i < loads.len() implies aggregate(h, wanted).0 <= (
        #[trigger] loads[i]).0 by {
            assert(!lighter(loads[i], lightest(loads)));
        }
    }
}

/// A load that is vouched for is one that the server reported, and not below what
/// the hive has in flight there.
pub proof fn law_exact_is_reported(server: Load, flying: u64)
    ensures
        effective(server, flying).0 >= flying,
        effective(server, flying).1 ==> (server == Load::Known(effective(server, flying).0)
            || server == Load::Measured(effective(server, flying).0)),
{
}

/// A hive that reads another hive's report gets its number exactly if it is
/// vouched for, and nothing otherwise.
pub proof fn law_report_read_back(n: u64, exact: bool)
    ensures
        reported_count(load_report(n, exact)) == Some(n),
        vouched(load_report(n, exact)) == exact,
{
    reveal_strlit("server_load");
    reveal_strlit("hivllm");
    assert("server_load"@.len() != "hivllm"@.len());
}

/// The loads of a list of models are those of the model that is asked about.
proof fn lemma_model_loads(
    h: HiveV,
    ep: EndpointV,
    models: Seq<Seq<char>>,
    model: Seq<char>,
    x: (u64, bool),
)
    ensures
        model_loads(h, ep, models, Some(model)).contains(x) <==> models.contains(model) && x
            == load_on(h, ep, model),
    decreases models.len(),
{
    if models.len() > 0 {
        let rest = models.drop_last();
        let before = model_loads(h, ep, rest, Some(model));
        let all = model_loads(h, ep, models, Some(model));
        lemma_model_loads(h, ep, rest, model, x);
        assert(models[models.len() - 1] == models.last());
        if rest.contains(model) {
            let k = choose|k: int| 0 <= k < rest.len() && rest[k] == model;
            assert(models[k] == model);
        }
        if models.contains(model) && models.last() != model {
            let k = choose|k: int| 0 <= k < models.len() && models[k] == model;
            assert(rest[k] == model);
        }
        if before.contains(x) {
            let k = choose|k: int| 0 <= k < before.len() && before[k] == x;
            assert(all[k] == x);
        }
        if all.contains(x) {
            let k = choose|k: int| 0 <= k < all.len() && all[k] == x;
            if k < before.len() {
                assert(before[k] == x);
            }
        }
        if models.last() == model {
            assert(all[before.len() as int] == load_on(h, ep, model));
        }
    }
}

/// The loads of a model are those of the endpoints that serve it, and so are the
/// rows that they are ranked by.
proof fn lemma_member_loads(
    h: HiveV,
    endpoints: Seq<EndpointV>,
    model: Seq<char>,
    now: u64,
    n: u64,
)
    ensures
        (exists|i: int|
            0 <= i < member_loads(h, endpoints, Some(model)).len() && (#[trigger] member_loads(
                h,
                endpoints,
                Some(model),
            )[i]).0 == n) <==> (exists|i: int|
            0 <= i < rows(h, endpoints, model, now).len() && (#[trigger] rows(
                h,
                endpoints,
                model,
                now,
            )[i]).load == n),
    decreases endpoints.len(),
{
    if endpoints.len() > 0 {
        let rest = endpoints.drop_last();
        let ep = endpoints.last();
        lemma_member_loads(h, rest, model, now, n);
        let own = model_loads(h, ep, ep.models, Some(model));
        let x = load_on(h, ep, model);
        lemma_model_loads(h, ep, ep.models, model, x);
        let (a, b) = (
            member_loads(h, rest, Some(model)),
            member_loads(h, endpoints, Some(model)),
        );
        let (r, q) = (rows(h, rest, model, now), rows(h, endpoints, model, now));
        assert(b == a + own);
        if exists|i: int| 0 <= i < b.len() && (#[trigger] b[i]).0 == n {
            let i = choose|i: int| 0 <= i < b.len() && (#[trigger] b[i]).0 == n;
            if i < a.len() {
                assert(a[i].0 == n);
                let k = choose|k: int| 0 <= k < r.len() && (#[trigger] r[k]).load == n;
                assert(q[k].load == n);
            } else {
                let y = own[i - a.len()];
                assert(own.contains(y));
                lemma_model_loads(h, ep, ep.models, model, y);
                assert(q[r.len() as int].load == n);
            }
        }
        if exists|i: int| 0 <= i < q.len() && (#[trigger] q[i]).load == n {
            let i = choose|i: int| 0 <= i < q.len() && (#[trigger] q[i]).load == n;
            if i < r.len() {
                assert(r[i].load == n);
                let k = choose|k: int| 0 <= k < a.len() && (#[trigger] a[k]).0 == n;
                assert(b[k].0 == n);
            } else {
                assert(own.contains(x));
                let k = choose|k: int| 0 <= k < own.len() && own[k] == x;
                assert(b[a.len() + k].0 == n);
            }
        }
    }
}

/// The load that the hive reports for a model is that of the backend which the
/// next request for it goes to, unless backends cool down.
pub proof fn law_aggregate_is_next_load(h: HiveV, model: Seq<char>, now: u64)
    requires
        ranking(h, model, now).len() > 0,
        forall|i: int|
            0 <= i < ranking(h, model, now).len() ==> !(#[trigger] ranking(
                h,
                model,
                now,
            )[i]).cooling,
    ensures
        aggregate(h, Some(model)).0 == ranking(h, model, now)[0].load,
{
    let ranked = ranking(h, model, now);
    let r = rows(h, h.endpoints, model, now);
    let loads = member_loads(h, h.endpoints, Some(model));
    let first = ranked[0];
    law_candidates_in_order(h, model, now);
    law_ranking_is_rows(h, model, now);
    // The first row is one of the rows, so its load is one of the loads.
    assert(ranked.contains(first));
    lemma_permutation_contains(ranked, r, first);
    let k = choose|k: int| 0 <= k < r.len() && r[k] == first;
    assert(r[k].load == first.load);
    lemma_member_loads(h, h.endpoints, model, now, first.load);
    let i = choose|i: int| 0 <= i < loads.len() && (#[trigger] loads[i]).0 == first.load;
    law_lightest(loads);
    let least = lightest(loads);
    assert(!lighter(loads[i], least));
    assert(least.0 <= first.load);
    // The lightest load is that of a row, and none ranks before the first.
    let j = choose|j: int| 0 <= j < loads.len() && loads[j] == least;
    assert(loads[j].0 == least.0);
    lemma_member_loads(h, h.endpoints, model, now, least.0);
    let m = choose|m: int| 0 <= m < r.len() && (#[trigger] r[m]).load == least.0;
    assert(r.contains(r[m]));
    lemma_permutation_contains(ranked, r, r[m]);
    let t = choose|t: int| 0 <= t < ranked.len() && ranked[t] == r[m];
    if t > 0 {
        assert(!Row::before(ranked[t], ranked[0]));
        assert(!ranked[t].cooling);
    }
}

/// Whether a question is one to an endpoint: it covers none but the models that the
/// endpoint serves, and is asked in the way that fits it. Only a hive answers for one
/// model; a load without a model means something only of a server with one.
pub open spec fn asks(j: LoadJobV, h: HiveV, ep: EndpointV) -> bool {
    &&& j.id == ep.id && j.base_url == ep.base_url
    &&& j.key == key_for(h.credentials, ep.base_url)
    &&& j.covers.contains(j.asked)
    &&& forall|m: Seq<char>| #[trigger] j.covers.contains(m) ==> ep.models.contains(m)
    &&& if ep.hive_id is Some {
        j.chain == seq![ProbeGroup::Hive] && j.covers == seq![j.asked]
    } else {
        j.chain[0] == ProbeGroup::Server && !j.chain.contains(ProbeGroup::Hive) && (
        j.chain.contains(ProbeGroup::SingleModel) <==> ep.models.len() == 1)
    }
}

/// Every question is one to an endpoint.
pub proof fn law_questions(h: HiveV, endpoints: Seq<EndpointV>, k: int) -> (i: int)
    requires
        0 <= k < jobs(h, endpoints).len(),
    ensures
        0 <= i < endpoints.len(),
        asks(jobs(h, endpoints)[k], h, endpoints[i]),
    decreases endpoints.len(),
{
    let rest = endpoints.drop_last();
    let ep = endpoints.last();
    let before = jobs(h, rest);
    if k < before.len() {
        law_questions(h, rest, k)
    } else {
        let own = endpoint_jobs(h, ep);
        let n = k - before.len();
        let j = own[n];
        assert(jobs(h, endpoints)[k] == j);
        if ep.hive_id is Some {
            assert(j == hive_job(h, ep, ep.models[n]));
            assert(j.covers[0] == j.asked);
            assert(ep.models.contains(ep.models[n]));
        } else {
            assert(j == server_job(h, ep));
            assert(j.chain[0] == ProbeGroup::Server);
            assert(ep.models.contains(ep.models[0]));
            if ep.models.len() == 1 {
                assert(j.chain[1] == ProbeGroup::SingleModel);
            }
        }
        endpoints.len() - 1
    }
}

/// Every model of every endpoint is asked about.
pub proof fn law_every_model_asked(
    h: HiveV,
    endpoints: Seq<EndpointV>,
    i: int,
    model: Seq<char>,
) -> (k: int)
    requires
        0 <= i < endpoints.len(),
        endpoints[i].models.contains(model),
    ensures
        0 <= k < jobs(h, endpoints).len(),
        asks(jobs(h, endpoints)[k], h, endpoints[i]),
        jobs(h, endpoints)[k].covers.contains(model),
    decreases endpoints.len(),
{
    let rest = endpoints.drop_last();
    let ep = endpoints.last();
    let before = jobs(h, rest);
    if i < rest.len() {
        let k = law_every_model_asked(h, rest, i, model);
        assert(jobs(h, endpoints)[k] == before[k]);
        k
    } else {
        let own = endpoint_jobs(h, ep);
        let n = choose|n: int| 0 <= n < ep.models.len() && ep.models[n] == model;
        if ep.hive_id is Some {
            let j = own[n];
            assert(j == hive_job(h, ep, model));
            assert(j.covers[0] == model);
            assert(jobs(h, endpoints)[before.len() + n] == j);
            before.len() + n
        } else {
            let j = own[0];
            assert(j == server_job(h, ep));
            assert(j.chain[0] == ProbeGroup::Server);
            assert(ep.models.contains(ep.models[0]));
            if ep.models.len() == 1 {
                assert(j.chain[1] == ProbeGroup::SingleModel);
            }
            assert(jobs(h, endpoints)[before.len() as int] == j);
            before.len() as int
        }
    }
}

/// An answer sets the load of each model that it covers.
proof fn lemma_covering(
    loads: Map<(Seq<char>, Seq<char>), Load>,
    id: Seq<char>,
    covers: Seq<Seq<char>>,
    load: Load,
    key: (Seq<char>, Seq<char>),
)
    ensures
        ({
            let m = covering(loads, id, covers, load);
            if key.0 == id && covers.contains(key.1) {
                m.contains_key(key) && m[key] == load
            } else {
                (m.contains_key(key) <==> loads.contains_key(key)) && (loads.contains_key(key)
                    ==> m[key] == loads[key])
            }
        }),
    decreases covers.len(),
{
    if covers.len() > 0 {
        let rest = covers.drop_last();
        lemma_covering(loads, id, rest, load, key);
        if rest.contains(key.1) {
            let k = choose|k: int| 0 <= k < rest.len() && rest[k] == key.1;
            assert(covers[k] == key.1);
        }
        if covers.contains(key.1) && !rest.contains(key.1) {
            let k = choose|k: int| 0 <= k < covers.len() && covers[k] == key.1;
            if k < rest.len() {
                assert(rest[k] == key.1);
            }
        }
        assert(covers[covers.len() - 1] == covers.last());
    }
}

/// The load of a model on an endpoint is that of the last answer of the endpoint which
/// covers it; without one it has none.
pub proof fn law_gathered(
    answers: Seq<(Seq<char>, Seq<Seq<char>>, Load)>,
    last: (Seq<char>, Seq<Seq<char>>, Load),
    id: Seq<char>,
    model: Seq<char>,
)
    ensures
        gathered(Seq::empty()) == Map::<(Seq<char>, Seq<char>), Load>::empty(),
        ({
            let (m, g) = (gathered(answers), gathered(answers.push(last)));
            if last.0 == id && last.1.contains(model) {
                g.contains_key((id, model)) && g[(id, model)] == last.2
            } else {
                (g.contains_key((id, model)) <==> m.contains_key((id, model))) && (m.contains_key(
                    (id, model),
                ) ==> g[(id, model)] == m[(id, model)])
            }
        }),
{
    assert(answers.push(last).drop_last() =~= answers);
    lemma_covering(gathered(answers), last.0, last.1, last.2, (id, model));
}

/// The loads of the models of one endpoint.
proof fn lemma_loads_of_models(
    h: HiveV,
    ep: EndpointV,
    models: Seq<Seq<char>>,
    wanted: Option<Seq<char>>,
    x: (u64, bool),
)
    ensures
        model_loads(h, ep, models, wanted).contains(x) <==> exists|k: int|
            0 <= k < models.len() && (wanted is None || wanted == Some(#[trigger] models[k])) && x
                == load_on(h, ep, models[k]),
    decreases models.len(),
{
    if models.len() > 0 {
        let rest = models.drop_last();
        let before = model_loads(h, ep, rest, wanted);
        let all = model_loads(h, ep, models, wanted);
        lemma_loads_of_models(h, ep, rest, wanted, x);
        if before.contains(x) {
            let k = choose|k: int| 0 <= k < before.len() && before[k] == x;
            assert(all[k] == x);
            let n = choose|k: int|
                0 <= k < rest.len() && (wanted is None || wanted == Some(#[trigger] rest[k])) && x
                    == load_on(h, ep, rest[k]);
            assert(models[n] == rest[n]);
        }
        if all.contains(x) && !before.contains(x) {
            let k = choose|k: int| 0 <= k < all.len() && all[k] == x;
            if k < before.len() {
                assert(before[k] == x);
            }
            assert(models[models.len() - 1] == models.last());
        }
        if exists|k: int|
            0 <= k < models.len() && (wanted is None || wanted == Some(#[trigger] models[k])) && x
                == load_on(h, ep, models[k]) {
            let k = choose|k: int|
                0 <= k < models.len() && (wanted is None || wanted == Some(#[trigger] models[k]))
                    && x == load_on(h, ep, models[k]);
            if k < rest.len() {
                assert(rest[k] == models[k]);
            } else {
                assert(all[before.len() as int] == x);
            }
        }
    }
}

/// Whether a load is that of a model, or of the model that is wanted, on an endpoint.
pub open spec fn bears(h: HiveV, ep: EndpointV, wanted: Option<Seq<char>>, x: (u64, bool)) -> bool {
    exists|k: int|
        0 <= k < ep.models.len() && (wanted is None || wanted == Some(#[trigger] ep.models[k])) && x
            == load_on(h, ep, ep.models[k])
}

/// The loads that the hive weighs are those of the wanted model, or of all, on the
/// endpoints that serve it, as they are routed on.
pub proof fn law_member_loads(
    h: HiveV,
    endpoints: Seq<EndpointV>,
    wanted: Option<Seq<char>>,
    x: (u64, bool),
)
    ensures
        member_loads(h, endpoints, wanted).contains(x) <==> exists|i: int|
            0 <= i < endpoints.len() && bears(h, #[trigger] endpoints[i], wanted, x),
    decreases endpoints.len(),
{
    if endpoints.len() > 0 {
        let rest = endpoints.drop_last();
        let ep = endpoints.last();
        let (a, own) = (member_loads(h, rest, wanted), model_loads(h, ep, ep.models, wanted));
        law_member_loads(h, rest, wanted, x);
        lemma_loads_of_models(h, ep, ep.models, wanted, x);
        assert(own.contains(x) <==> bears(h, ep, wanted, x));
        lemma_contains_concat(a, own, x);
        if a.contains(x) {
            let i = choose|i: int| 0 <= i < rest.len() && bears(h, #[trigger] rest[i], wanted, x);
            assert(bears(h, endpoints[i], wanted, x));
        }
        if own.contains(x) {
            assert(bears(h, endpoints[endpoints.len() - 1], wanted, x));
        }
        if exists|i: int| 0 <= i < endpoints.len() && bears(h, #[trigger] endpoints[i], wanted, x) {
            let i = choose|i: int|
                0 <= i < endpoints.len() && bears(h, #[trigger] endpoints[i], wanted, x);
            if i < rest.len() {
                assert(rest[i] == endpoints[i]);
            }
        }
    }
}

/// Of loads the smallest is reported, as one that is vouched for if any as small is.
pub proof fn law_lightest_of(loads: Seq<(u64, bool)>, i: int)
    requires
        0 <= i < loads.len(),
    ensures
        lightest(loads).0 <= loads[i].0,
        loads[i].0 == lightest(loads).0 && loads[i].1 ==> lightest(loads).1,
        loads.contains(lightest(loads)),
{
    law_lightest(loads);
    assert(!lighter(loads[i], lightest(loads)));
}

/// Answers replace all loads and nothing else: what no answer covers is not known any
/// more.
pub proof fn law_told(
    h: HiveV,
    answers: Seq<(Seq<char>, Seq<Seq<char>>, Load)>,
    id: Seq<char>,
    model: Seq<char>,
)
    ensures
        told(h, answers) == (HiveV { loads: told(h, answers).loads, ..h }),
        told(h, answers).loads.contains_key((id, model)) <==> exists|i: int|
            0 <= i < answers.len() && (#[trigger] answers[i]).0 == id && answers[i].1.contains(
                model,
            ),
    decreases answers.len(),
{
    if answers.len() > 0 {
        let rest = answers.drop_last();
        let last = answers.last();
        law_told(h, rest, id, model);
        law_gathered(rest, last, id, model);
        assert(rest.push(last) =~= answers);
        if gathered(rest).contains_key((id, model)) {
            let i = choose|i: int|
                0 <= i < rest.len() && (#[trigger] rest[i]).0 == id && rest[i].1.contains(model);
            assert(answers[i] == rest[i]);
        }
        if last.0 == id && last.1.contains(model) {
            assert(answers[answers.len() - 1] == last);
        }
        if exists|i: int|
            0 <= i < answers.len() && (#[trigger] answers[i]).0 == id && answers[i].1.contains(
                model,
            ) {
            let i = choose|i: int|
                0 <= i < answers.len() && (#[trigger] answers[i]).0 == id && answers[i].1.contains(
                    model,
                );
            if i < rest.len() {
                assert(rest[i] == answers[i]);
            }
        }
    }
}

/// Whoever asks for the load of a hive reads the smallest load of its members, vouched
/// for exactly if the hive can vouch for it.
pub proof fn law_load_reply(h: HiveV, wanted: Option<Seq<char>>)
    ensures
        reported_count(load_reply(h, wanted)) == Some(aggregate(h, wanted).0),
        vouched(load_reply(h, wanted)) == aggregate(h, wanted).1,
{
    law_report_read_back(aggregate(h, wanted).0, aggregate(h, wanted).1);
}

/// A hive is asked once for each of its models, a plain server once if it serves any.
pub proof fn law_how_often_asked(h: HiveV, endpoints: Seq<EndpointV>, ep: EndpointV)
    ensures
        jobs(h, endpoints.push(ep)).len() == jobs(h, endpoints).len() + if ep.hive_id is Some {
            ep.models.len()
        } else if ep.models.len() > 0 {
            1
        } else {
            0
        },
        jobs(h, endpoints).is_prefix_of(jobs(h, endpoints.push(ep))),
{
    let all = jobs(h, endpoints.push(ep));
    assert(endpoints.push(ep).drop_last() =~= endpoints);
    assert(jobs(h, endpoints) =~= all.subrange(0, jobs(h, endpoints).len() as int));
}

} // verus!
