//! Merging endpoints that were found in several ways.
use crate::deep::{contains, lemma_contains_push, push_new};
use crate::discovery::{DiscoveredEndpoint, EndpointV};
use crate::order::{
    law_sorted_in_order, law_sorted_is_permutation, lemma_map_permutation,
    lemma_permutation_contains, lemma_permutation_distinct, lemma_text_order, lex_before, sorted,
    stable_sort, Ranked,
};
use crate::text::str_eq;
use vstd::prelude::*;
use vstd::string::*;

verus! {

/// `have`, followed by the items of `add` that are not there yet.
pub open spec fn extended(have: Seq<Seq<char>>, add: Seq<Seq<char>>) -> Seq<Seq<char>>
    decreases add.len(),
{
    if add.len() == 0 {
        have
    } else {
        let before = extended(have, add.drop_last());
        if before.contains(add.last()) {
            before
        } else {
            before.push(add.last())
        }
    }
}

/// One endpoint out of two with the same base URL: the models of both, and what
/// else `a` says. An operator-provided entry marks the result as such; what `a`
/// does not know of a hive, `b` tells.
pub open spec fn joined(a: EndpointV, b: EndpointV) -> EndpointV {
    EndpointV {
        id: a.id,
        name: a.name,
        base_url: a.base_url,
        models: sorted::<String>(extended(a.models, b.models)),
        source: if b.source == "static"@ {
            "static"@
        } else {
            a.source
        },
        hive_id: if a.hive_id is None {
            b.hive_id
        } else {
            a.hive_id
        },
        paths: b.paths.union_prefer_right(a.paths),
        model_meta: b.model_meta.union_prefer_right(a.model_meta),
    }
}

/// The index of the endpoint with the given base URL.
pub open spec fn url_index(s: Seq<EndpointV>, url: Seq<char>) -> Option<int>
    decreases s.len(),
{
    if s.len() == 0 {
        None
    } else if s.last().base_url == url {
        Some(s.len() - 1)
    } else {
        url_index(s.drop_last(), url)
    }
}

/// The endpoints of `s` with those of equal base URL joined, in the order in
/// which their base URLs first occur.
pub open spec fn merged(s: Seq<EndpointV>) -> Seq<EndpointV>
    decreases s.len(),
{
    if s.len() == 0 {
        s
    } else {
        let before = merged(s.drop_last());
        match url_index(before, s.last().base_url) {
            Some(i) => before.update(i, joined(before[i], s.last())),
            None => before.push(s.last()),
        }
    }
}

/// One endpoint out of two with the same base URL.
fn join_endpoints(a: DiscoveredEndpoint, b: DiscoveredEndpoint) -> (r: DiscoveredEndpoint)
    ensures
        r@ == joined(a@, b@),
{
    let mut models: Vec<String> = a.models;
    let ghost have = models.deep_view();
    let ghost add = b.models.deep_view();
    let mut i: usize = 0;
    proof {
        assert(add.take(0) =~= Seq::empty());
    }
    while i < b.models.len()
        invariant
            i <= b.models@.len(),
            add == b.models.deep_view(),
            models.deep_view() == extended(have, add.take(i as int)),
        decreases b.models@.len() - i,
    {
        proof {
            assert(add.take(i + 1).drop_last() =~= add.take(i as int));
            assert(add.take(i + 1).last() == b.models@[i as int]@);
        }
        push_new(&mut models, b.models[i].clone());
        i = i + 1;
    }
    proof {
        assert(add.take(i as int) =~= add);
    }
    let models = stable_sort(models);
    let source = if str_eq(b.source.as_str(), "static") {
        "static".to_owned()
    } else {
        a.source
    };
    let hive_id = match a.hive_id {
        None => b.hive_id,
        Some(h) => Some(h),
    };
    let mut paths = a.paths;
    paths.absorb(b.paths);
    let mut model_meta = a.model_meta;
    model_meta.absorb(b.model_meta);
    DiscoveredEndpoint { id: a.id, name: a.name, base_url: a.base_url, models, source, hive_id, paths, model_meta }
}

/// The index of the endpoint with the given base URL.
fn index_of_url(v: &Vec<DiscoveredEndpoint>, url: &str) -> (r: Option<usize>)
    ensures
        match r {
            Some(i) => i < v@.len() && url_index(v.deep_view(), url@) == Some(i as int),
            None => url_index(v.deep_view(), url@) is None,
        },
{
    let ghost s = v.deep_view();
    let mut n: usize = v.len();
    proof {
        assert(s.take(n as int) =~= s);
    }
    while n > 0
        invariant
            n <= v@.len(),
            s == v.deep_view(),
            url_index(s, url@) == url_index(s.take(n as int), url@),
        decreases n,
    {
        proof {
            assert(s.take(n as int).last() == v@[n - 1]@);
            assert(s.take(n as int).drop_last() =~= s.take(n - 1));
        }
        if str_eq(v[n - 1].base_url.as_str(), url) {
            return Some(n - 1);
        }
        n = n - 1;
    }
    None
}

/// Merges discovered and operator-provided endpoints, one for each base URL,
/// with unioned model lists, in the order of their base URLs.
pub fn merge_endpoints(
    discovered: Vec<DiscoveredEndpoint>,
    statik: Vec<DiscoveredEndpoint>,
) -> (r: Vec<DiscoveredEndpoint>)
    ensures
        r.deep_view() == sorted::<DiscoveredEndpoint>(
            merged(discovered.deep_view() + statik.deep_view()),
        ),
{
    let ghost s = discovered.deep_view() + statik.deep_view();
    let mut all = discovered;
    let mut rest = statik;
    all.append(&mut rest);
    let ghost whole = all@;
    proof {
        assert(all.deep_view() =~= s);
    }
    let mut out: Vec<DiscoveredEndpoint> = Vec::new();
    proof {
        assert(out.deep_view() =~= merged(s.take(0)));
    }
    for ep in it: all
        invariant
            it.seq() == whole,
            s.len() == whole.len(),
            forall|i: int| 0 <= i < whole.len() ==> s[i] == whole[i]@,
            out.deep_view() == merged(s.take(it.index() as int)),
    {
        let ghost before = out.deep_view();
        proof {
            assert(s.take(it.index() + 1).drop_last() =~= s.take(it.index() as int));
            assert(s.take(it.index() + 1).last() == ep@);
        }
        match index_of_url(&out, ep.base_url.as_str()) {
            Some(i) => {
                let old = out.remove(i);
                proof {
                    assert(before[i as int] == old@);
                }
                let new = join_endpoints(old, ep);
                out.insert(i, new);
                proof {
                    assert(out.deep_view() =~= before.update(i as int, new@));
                }
            },
            None => {
                out.push(ep);
                proof {
                    assert(out.deep_view() =~= before.push(ep@));
                }
            },
        }
    }
    proof {
        assert(s.take(s.len() as int) =~= s);
    }
    stable_sort(out)
}

/// The base URLs of endpoints.
pub open spec fn base_urls(s: Seq<EndpointV>) -> Seq<Seq<char>> {
    s.map_values(|e: EndpointV| e.base_url)
}

/// The index of a base URL is that of an endpoint that has it.
pub proof fn lemma_url_index(s: Seq<EndpointV>, url: Seq<char>)
    ensures
        match url_index(s, url) {
            Some(i) => 0 <= i < s.len() && s[i].base_url == url,
            None => !base_urls(s).contains(url),
        },
    decreases s.len(),
{
    if s.len() > 0 && s.last().base_url != url {
        let rest = s.drop_last();
        lemma_url_index(rest, url);
        if url_index(rest, url) is None && base_urls(s).contains(url) {
            let k = choose|k: int| 0 <= k < base_urls(s).len() && base_urls(s)[k] == url;
            assert(base_urls(rest)[k] == url);
        }
    }
}

/// What is merged has the base URLs of what went in, each once.
proof fn lemma_merged_urls(s: Seq<EndpointV>)
    ensures
        base_urls(merged(s)).no_duplicates(),
        forall|u: Seq<char>| #[trigger]
            base_urls(merged(s)).contains(u) <==> base_urls(s).contains(u),
    decreases s.len(),
{
    if s.len() > 0 {
        let rest = s.drop_last();
        let before = merged(rest);
        let after = merged(s);
        let url = s.last().base_url;
        lemma_merged_urls(rest);
        lemma_url_index(before, url);
        assert(base_urls(s) =~= base_urls(rest).push(url));
        match url_index(before, url) {
            Some(i) => {
                assert(base_urls(after) =~= base_urls(before));
            },
            None => {
                assert(base_urls(after) =~= base_urls(before).push(url));
            },
        }
        assert forall|u: Seq<char>| #[trigger] base_urls(after).contains(u) <==> base_urls(
            s,
        ).contains(u) by {
            lemma_contains_push(base_urls(rest), url, u);
            lemma_contains_push(base_urls(before), url, u);
            assert(base_urls(before).contains(u) <==> base_urls(rest).contains(u));
            if url_index(before, url) is Some {
                let i = url_index(before, url)->0;
                assert(base_urls(before)[i] == url);
            }
        }
    } else {
        assert(base_urls(merged(s)) =~= base_urls(s));
    }
}

/// Merging gives one endpoint for each base URL that went in.
pub proof fn law_merged_by_url(discovered: Seq<EndpointV>, statik: Seq<EndpointV>, url: Seq<char>)
    ensures
        ({
            let out = sorted::<DiscoveredEndpoint>(merged(discovered + statik));
            &&& base_urls(out).no_duplicates()
            &&& base_urls(out).contains(url) <==> base_urls(discovered + statik).contains(url)
        }),
{
    let m = merged(discovered + statik);
    lemma_merged_urls(discovered + statik);
    law_sorted_is_permutation::<DiscoveredEndpoint>(m);
    let out = sorted::<DiscoveredEndpoint>(m);
    lemma_map_permutation(m, out, |e: EndpointV| e.base_url);
    lemma_permutation_distinct(base_urls(m), base_urls(out));
    lemma_permutation_contains(base_urls(m), base_urls(out), url);
    assert(base_urls(m).contains(url) <==> base_urls(discovered + statik).contains(url));
}

/// Extending a list adds what is missing, and nothing else.
pub proof fn lemma_extended(have: Seq<Seq<char>>, add: Seq<Seq<char>>, m: Seq<char>)
    ensures
        extended(have, add).contains(m) <==> have.contains(m) || add.contains(m),
    decreases add.len(),
{
    if add.len() > 0 {
        let rest = add.drop_last();
        let before = extended(have, rest);
        lemma_extended(have, rest, m);
        assert(add =~= rest.push(add.last()));
        lemma_contains_push(rest, add.last(), m);
        lemma_contains_push(before, add.last(), m);
    }
}

/// Whether an endpoint of `s` with the given base URL has the model.
pub open spec fn serves_at(s: Seq<EndpointV>, url: Seq<char>, m: Seq<char>) -> bool {
    exists|i: int|
        0 <= i < s.len() && (#[trigger] s[i]).base_url == url && s[i].models.contains(m)
}

/// What is merged serves what went in.
proof fn lemma_merged_models(s: Seq<EndpointV>, url: Seq<char>, m: Seq<char>)
    ensures
        serves_at(merged(s), url, m) <==> serves_at(s, url, m),
    decreases s.len(),
{
    if s.len() > 0 {
        let rest = s.drop_last();
        let ep = s.last();
        let before = merged(rest);
        let after = merged(s);
        lemma_merged_models(rest, url, m);
        lemma_url_index(before, ep.base_url);
        assert(s[s.len() - 1] == ep);
        // What was served before, or by the last one, is what `s` serves.
        assert(serves_at(s, url, m) <==> serves_at(rest, url, m) || (ep.base_url == url
            && ep.models.contains(m))) by {
            if serves_at(rest, url, m) {
                let k = choose|k: int|
                    0 <= k < rest.len() && (#[trigger] rest[k]).base_url == url
                        && rest[k].models.contains(m);
                assert(s[k].base_url == url);
            }
            if serves_at(s, url, m) {
                let k = choose|k: int|
                    0 <= k < s.len() && (#[trigger] s[k]).base_url == url && s[k].models.contains(
                        m,
                    );
                if k < rest.len() {
                    assert(rest[k].base_url == url);
                }
            }
        }
        match url_index(before, ep.base_url) {
            Some(i) => {
                let j = joined(before[i], ep);
                let union = extended(before[i].models, ep.models);
                law_sorted_is_permutation::<String>(union);
                lemma_permutation_contains(j.models, union, m);
                lemma_extended(before[i].models, ep.models, m);
                assert(after[i] == j);
                if serves_at(before, url, m) {
                    let k = choose|k: int|
                        0 <= k < before.len() && (#[trigger] before[k]).base_url == url
                            && before[k].models.contains(m);
                    assert(after[k].base_url == url && after[k].models.contains(m));
                }
                if ep.base_url == url && ep.models.contains(m) {
                    assert(after[i].base_url == url && after[i].models.contains(m));
                }
                if serves_at(after, url, m) {
                    let k = choose|k: int|
                        0 <= k < after.len() && (#[trigger] after[k]).base_url == url
                            && after[k].models.contains(m);
                    if k != i {
                        assert(before[k].base_url == url);
                    } else if before[i].models.contains(m) {
                        assert(before[i].base_url == url);
                    }
                }
            },
            None => {
                assert(after == before.push(ep));
                if serves_at(before, url, m) {
                    let k = choose|k: int|
                        0 <= k < before.len() && (#[trigger] before[k]).base_url == url
                            && before[k].models.contains(m);
                    assert(after[k].base_url == url);
                }
                if ep.base_url == url && ep.models.contains(m) {
                    assert(after[before.len() as int].base_url == url);
                }
                if serves_at(after, url, m) {
                    let k = choose|k: int|
                        0 <= k < after.len() && (#[trigger] after[k]).base_url == url
                            && after[k].models.contains(m);
                    if k < before.len() {
                        assert(before[k].base_url == url);
                    }
                }
            },
        }
    }
}

/// Merging unions the models of each base URL: none is lost, none is added.
pub proof fn law_merged_models(
    discovered: Seq<EndpointV>,
    statik: Seq<EndpointV>,
    url: Seq<char>,
    m: Seq<char>,
)
    ensures
        serves_at(sorted::<DiscoveredEndpoint>(merged(discovered + statik)), url, m)
            <==> serves_at(discovered + statik, url, m),
{
    let all = merged(discovered + statik);
    let out = sorted::<DiscoveredEndpoint>(all);
    lemma_merged_models(discovered + statik, url, m);
    law_sorted_is_permutation::<DiscoveredEndpoint>(all);
    if serves_at(out, url, m) {
        let k = choose|k: int|
            0 <= k < out.len() && (#[trigger] out[k]).base_url == url && out[k].models.contains(m);
        assert(out.contains(out[k]));
        lemma_permutation_contains(out, all, out[k]);
        let i = choose|i: int| 0 <= i < all.len() && all[i] == out[k];
        assert(all[i].base_url == url);
    }
    if serves_at(all, url, m) {
        let k = choose|k: int|
            0 <= k < all.len() && (#[trigger] all[k]).base_url == url && all[k].models.contains(m);
        assert(all.contains(all[k]));
        lemma_permutation_contains(out, all, all[k]);
        let i = choose|i: int| 0 <= i < out.len() && out[i] == all[k];
        assert(out[i].base_url == url);
    }
}

/// Whether an endpoint of `s` with the given base URL was provided by the operator.
pub open spec fn static_at(s: Seq<EndpointV>, url: Seq<char>) -> bool {
    exists|i: int| 0 <= i < s.len() && (#[trigger] s[i]).base_url == url && s[i].source == "static"@
}

/// What is merged is marked as operator-provided where what went in was.
proof fn lemma_merged_static(s: Seq<EndpointV>, url: Seq<char>)
    ensures
        static_at(merged(s), url) <==> static_at(s, url),
    decreases s.len(),
{
    if s.len() > 0 {
        let rest = s.drop_last();
        let ep = s.last();
        let before = merged(rest);
        let after = merged(s);
        lemma_merged_static(rest, url);
        lemma_url_index(before, ep.base_url);
        assert(s[s.len() - 1] == ep);
        assert(static_at(s, url) <==> static_at(rest, url) || (ep.base_url == url && ep.source
            == "static"@)) by {
            if static_at(rest, url) {
                let k = choose|k: int|
                    0 <= k < rest.len() && (#[trigger] rest[k]).base_url == url && rest[k].source
                        == "static"@;
                assert(s[k].base_url == url);
            }
            if static_at(s, url) {
                let k = choose|k: int|
                    0 <= k < s.len() && (#[trigger] s[k]).base_url == url && s[k].source
                        == "static"@;
                if k < rest.len() {
                    assert(rest[k].base_url == url);
                }
            }
        }
        let at: int = match url_index(before, ep.base_url) {
            Some(i) => i,
            None => before.len() as int,
        };
        if static_at(before, url) {
            let k = choose|k: int|
                0 <= k < before.len() && (#[trigger] before[k]).base_url == url
                    && before[k].source == "static"@;
            assert(after[k].base_url == url && after[k].source == "static"@);
        }
        if ep.base_url == url && ep.source == "static"@ {
            assert(after[at].base_url == url && after[at].source == "static"@);
        }
        if static_at(after, url) {
            let k = choose|k: int|
                0 <= k < after.len() && (#[trigger] after[k]).base_url == url && after[k].source
                    == "static"@;
            if k < before.len() {
                assert(before[k].base_url == url);
            }
        }
    }
}

/// Operator intent wins the label: a merged endpoint is marked as operator-provided
/// exactly if one of those that went into it was.
pub proof fn law_static_label_wins(
    discovered: Seq<EndpointV>,
    statik: Seq<EndpointV>,
    url: Seq<char>,
)
    ensures
        static_at(sorted::<DiscoveredEndpoint>(merged(discovered + statik)), url) <==> static_at(
            discovered + statik,
            url,
        ),
{
    let all = merged(discovered + statik);
    let out = sorted::<DiscoveredEndpoint>(all);
    lemma_merged_static(discovered + statik, url);
    law_sorted_is_permutation::<DiscoveredEndpoint>(all);
    if static_at(out, url) {
        let k = choose|k: int|
            0 <= k < out.len() && (#[trigger] out[k]).base_url == url && out[k].source
                == "static"@;
        assert(out.contains(out[k]));
        lemma_permutation_contains(out, all, out[k]);
        let i = choose|i: int| 0 <= i < all.len() && all[i] == out[k];
        assert(all[i].base_url == url);
    }
    if static_at(all, url) {
        let k = choose|k: int|
            0 <= k < all.len() && (#[trigger] all[k]).base_url == url && all[k].source
                == "static"@;
        assert(all.contains(all[k]));
        lemma_permutation_contains(out, all, all[k]);
        let i = choose|i: int| 0 <= i < out.len() && out[i] == all[k];
        assert(out[i].base_url == url);
    }
}

/// Two endpoints with the same base URL become one: what the first says of itself stays,
/// what it does not know of a hive, of paths or of models, the second tells.
pub proof fn law_joined(a: EndpointV, b: EndpointV, m: Seq<char>)
    ensures
        ({
            let j = joined(a, b);
            &&& j.id == a.id && j.name == a.name && j.base_url == a.base_url
            &&& j.models.contains(m) <==> a.models.contains(m) || b.models.contains(m)
            &&& a.hive_id is Some ==> j.hive_id == a.hive_id
            &&& a.hive_id is None ==> j.hive_id == b.hive_id
            &&& j.paths.contains_key(m) <==> a.paths.contains_key(m) || b.paths.contains_key(m)
            &&& a.paths.contains_key(m) ==> j.paths[m] == a.paths[m]
            &&& !a.paths.contains_key(m) && b.paths.contains_key(m) ==> j.paths[m] == b.paths[m]
            &&& j.model_meta.contains_key(m) <==> a.model_meta.contains_key(m)
                || b.model_meta.contains_key(m)
            &&& a.model_meta.contains_key(m) ==> j.model_meta[m] == a.model_meta[m]
            &&& !a.model_meta.contains_key(m) && b.model_meta.contains_key(m) ==> j.model_meta[m]
                == b.model_meta[m]
            &&& j.source == a.source || (j.source == "static"@ && b.source == "static"@)
        }),
{
    let all = extended(a.models, b.models);
    lemma_extended(a.models, b.models, m);
    law_sorted_is_permutation::<String>(all);
    lemma_permutation_contains(sorted::<String>(all), all, m);
}

/// The first endpoint with a base URL gives the merged one its id and its name; what it
/// knows of a hive and of paths is not overruled.
pub proof fn law_first_endpoint_names(s: Seq<EndpointV>, i: int, m: Seq<char>) -> (k: int)
    requires
        0 <= i < s.len(),
        forall|j: int| 0 <= j < i ==> (#[trigger] s[j]).base_url != s[i].base_url,
    ensures
        0 <= k < merged(s).len(),
        ({
            let (e, a) = (merged(s)[k], s[i]);
            &&& e.base_url == a.base_url && e.id == a.id && e.name == a.name
            &&& a.hive_id is Some ==> e.hive_id == a.hive_id
            &&& a.paths.contains_key(m) ==> e.paths.contains_key(m) && e.paths[m] == a.paths[m]
            &&& a.model_meta.contains_key(m) ==> e.model_meta.contains_key(m) && e.model_meta[m]
                == a.model_meta[m]
        }),
    decreases s.len(),
{
    let rest = s.drop_last();
    let before = merged(rest);
    let last = s.last();
    lemma_url_index(before, last.base_url);
    lemma_merged_urls(rest);
    if i < rest.len() {
        assert forall|j: int| 0 <= j < i implies (#[trigger] rest[j]).base_url
            != rest[i].base_url by {
            assert(rest[j] == s[j]);
        }
        let k = law_first_endpoint_names(rest, i, m);
        k
    } else {
        assert(!base_urls(rest).contains(last.base_url)) by {
            if base_urls(rest).contains(last.base_url) {
                let j = choose|j: int|
                    0 <= j < base_urls(rest).len() && base_urls(rest)[j] == last.base_url;
                assert(s[j].base_url == last.base_url);
            }
        }
        if let Some(n) = url_index(before, last.base_url) {
            assert(base_urls(before)[n] == last.base_url);
            assert(base_urls(before).contains(last.base_url));
        }
        before.len() as int
    }
}

/// An endpoint whose base URL no other has is taken as it is.
pub proof fn law_lone_endpoint(s: Seq<EndpointV>, i: int)
    requires
        0 <= i < s.len(),
        forall|j: int| 0 <= j < s.len() && j != i ==> (#[trigger] s[j]).base_url != s[i].base_url,
    ensures
        merged(s).contains(s[i]),
    decreases s.len(),
{
    let rest = s.drop_last();
    let before = merged(rest);
    let last = s.last();
    lemma_url_index(before, last.base_url);
    lemma_merged_urls(rest);
    if i < rest.len() {
        assert forall|j: int| 0 <= j < rest.len() && j != i implies (#[trigger] rest[j]).base_url
            != rest[i].base_url by {
            assert(rest[j] == s[j]);
        }
        law_lone_endpoint(rest, i);
        let k = choose|k: int| 0 <= k < before.len() && before[k] == s[i];
        assert(s[s.len() - 1] == last);
        assert(merged(s)[k] == s[i]);
    } else {
        if let Some(n) = url_index(before, last.base_url) {
            assert(base_urls(before)[n] == last.base_url);
            assert(base_urls(before).contains(last.base_url));
            let j = choose|j: int|
                0 <= j < base_urls(rest).len() && base_urls(rest)[j] == last.base_url;
            assert(s[j].base_url == last.base_url);
        }
        assert(merged(s)[before.len() as int] == s[i]);
    }
}

/// The models of a merged endpoint are in order, each once if each was once in both.
pub proof fn law_joined_models(a: EndpointV, b: EndpointV)
    ensures
        ({
            let ms = joined(a, b).models;
            &&& forall|i: int, j: int|
                0 <= i < j < ms.len() ==> !lex_before(#[trigger] ms[j], #[trigger] ms[i])
            &&& a.models.no_duplicates() ==> ms.no_duplicates()
        }),
{
    let all = extended(a.models, b.models);
    let ms = sorted::<String>(all);
    lemma_text_order();
    law_sorted_in_order::<String>(all);
    law_sorted_is_permutation::<String>(all);
    assert forall|i: int, j: int| 0 <= i < j < ms.len() implies !lex_before(
        #[trigger] ms[j],
        #[trigger] ms[i],
    ) by {
        assert(!String::before(ms[j], ms[i]));
    }
    if a.models.no_duplicates() {
        lemma_extended_once(a.models, b.models);
        lemma_permutation_distinct(all, ms);
    }
}

/// Items are added once.
proof fn lemma_extended_once(have: Seq<Seq<char>>, add: Seq<Seq<char>>)
    requires
        have.no_duplicates(),
    ensures
        extended(have, add).no_duplicates(),
    decreases add.len(),
{
    if add.len() > 0 {
        lemma_extended_once(have, add.drop_last());
    }
}

} // verus!
