//! What probes of `/v1/models` found.
use crate::deep::{distinct, keep_distinct, lemma_deep_push, lemma_distinct};
use crate::discovery::MAX_HOPS;
use crate::json::{item_views, items_of, member, text_of, Json, JsonV};
use crate::order::{
    law_sorted_in_order, law_sorted_is_permutation, lemma_permutation_contains,
    lemma_permutation_distinct, lemma_text_order, lex_before, sorted, stable_sort, Ranked,
};
use crate::table::Table;
use vstd::prelude::*;
use vstd::string::*;

verus! {

/// What a successful probe of `/v1/models` found.
#[derive(Debug, Clone)]
pub struct Probed {
    pub models: Vec<String>,
    /// Instance id when the backend is a hive.
    pub hive_id: Option<String>,
    pub paths: Table<String, Vec<Vec<String>>>,
    pub model_meta: Table<String, Json>,
}

/// What a [`Probed`] stands for.
pub struct ProbedV {
    pub models: Seq<Seq<char>>,
    pub hive_id: Option<Seq<char>>,
    pub paths: Map<Seq<char>, Seq<Seq<Seq<char>>>>,
    pub model_meta: Map<Seq<char>, JsonV>,
}

impl View for Probed {
    type V = ProbedV;

    open spec fn view(&self) -> ProbedV {
        ProbedV {
            models: self.models.deep_view(),
            hive_id: self.hive_id.deep_view(),
            paths: self.paths@,
            model_meta: self.model_meta@,
        }
    }
}

impl DeepView for Probed {
    type V = ProbedV;

    open spec fn deep_view(&self) -> ProbedV {
        self@
    }
}

/// The texts of a JSON array that holds nothing else.
pub open spec fn all_texts(items: Seq<JsonV>) -> Option<Seq<Seq<char>>>
    decreases items.len(),
{
    if items.len() == 0 {
        Some(Seq::empty())
    } else {
        match (all_texts(items.drop_last()), items.last()) {
            (Some(before), JsonV::Text(t)) => Some(before.push(t)),
            _ => None,
        }
    }
}

/// The paths that a JSON array of arrays of texts gives, each with `hid` in front;
/// those with too many hops are left out.
pub open spec fn all_paths(items: Seq<JsonV>, hid: Seq<char>) -> Option<Seq<Seq<Seq<char>>>>
    decreases items.len(),
{
    if items.len() == 0 {
        Some(Seq::empty())
    } else {
        match (all_paths(items.drop_last(), hid), items_of(Some(items.last()))) {
            (Some(before), Some(hops)) => match all_texts(hops) {
                Some(path) => if path.len() < MAX_HOPS {
                    Some(before.push(seq![hid] + path))
                } else {
                    Some(before)
                },
                None => None,
            },
            _ => None,
        }
    }
}

/// The paths that the object of a model advertises.
pub open spec fn advertised_by(object: JsonV, hid: Seq<char>) -> Option<Seq<Seq<Seq<char>>>> {
    match member(object, "hivllm"@) {
        Some(mark) => match items_of(member(mark, "paths"@)) {
            Some(items) => all_paths(items, hid),
            None => None,
        },
        None => None,
    }
}

/// The objects of the models that a list describes; a later one wins.
pub open spec fn described(objects: Seq<JsonV>) -> Map<Seq<char>, JsonV>
    decreases objects.len(),
{
    if objects.len() == 0 {
        Map::empty()
    } else {
        let before = described(objects.drop_last());
        match text_of(member(objects.last(), "id"@)) {
            Some(id) => before.insert(id, objects.last()),
            None => before,
        }
    }
}

/// The paths of the models that a list describes; a later one wins.
pub open spec fn described_paths(objects: Seq<JsonV>, hid: Seq<char>) -> Map<
    Seq<char>,
    Seq<Seq<Seq<char>>>,
>
    decreases objects.len(),
{
    if objects.len() == 0 {
        Map::empty()
    } else {
        let before = described_paths(objects.drop_last(), hid);
        match (
            text_of(member(objects.last(), "id"@)),
            advertised_by(objects.last(), hid),
        ) {
            (Some(id), Some(paths)) => before.insert(id, paths),
            _ => before,
        }
    }
}

/// The objects of a model list.
pub open spec fn objects_of(body: JsonV) -> Seq<JsonV> {
    match items_of(member(body, "data"@)) {
        Some(a) => a,
        None => Seq::empty(),
    }
}

/// What a probe found: the ids that were listed, in order, each once, and what
/// the body says of them.
pub open spec fn probe_result(
    ids: Seq<Seq<char>>,
    body: JsonV,
    hive_id: Option<Seq<char>>,
) -> ProbedV {
    ProbedV {
        models: sorted::<String>(distinct(ids)),
        hive_id,
        paths: match hive_id {
            Some(hid) => described_paths(objects_of(body), hid),
            None => Map::empty(),
        },
        model_meta: described(objects_of(body)),
    }
}

/// The texts of a JSON array that holds nothing else.
fn read_texts(items: &Vec<Json>) -> (r: Option<Vec<String>>)
    ensures
        r.deep_view() == all_texts(items.deep_view()),
{
    let ghost s = items.deep_view();
    let mut out: Vec<String> = Vec::new();
    let mut good: bool = true;
    let mut i: usize = 0;
    proof {
        assert(out.deep_view() =~= Seq::empty());
    }
    while i < items.len()
        invariant
            i <= items@.len(),
            s == items.deep_view(),
            good ==> all_texts(s.take(i as int)) == Some(out.deep_view()),
            !good ==> all_texts(s.take(i as int)) is None,
        decreases items@.len() - i,
    {
        proof {
            assert(s.take(i + 1).drop_last() =~= s.take(i as int));
            assert(s.take(i + 1).last() == items@[i as int]@);
        }
        match &items[i] {
            Json::Text(t) => {
                if good {
                    let ghost before = out;
                    let t = t.clone();
                    out.push(t);
                    proof {
                        lemma_deep_push(before, out, t);
                    }
                }
            },
            _ => {
                good = false;
            },
        }
        i = i + 1;
    }
    proof {
        assert(s.take(i as int) =~= s);
    }
    if good {
        Some(out)
    } else {
        None
    }
}

/// The paths that a JSON array of arrays of texts gives.
fn read_paths(items: &Vec<Json>, hid: &String) -> (r: Option<Vec<Vec<String>>>)
    ensures
        r.deep_view() == all_paths(items.deep_view(), hid@),
{
    let ghost s = items.deep_view();
    let mut out: Vec<Vec<String>> = Vec::new();
    let mut good: bool = true;
    let mut i: usize = 0;
    proof {
        assert(out.deep_view() =~= Seq::empty());
    }
    while i < items.len()
        invariant
            i <= items@.len(),
            s == items.deep_view(),
            good ==> all_paths(s.take(i as int), hid@) == Some(out.deep_view()),
            !good ==> all_paths(s.take(i as int), hid@) is None,
        decreases items@.len() - i,
    {
        proof {
            assert(s.take(i + 1).drop_last() =~= s.take(i as int));
            assert(s.take(i + 1).last() == items@[i as int]@);
        }
        let hops = match &items[i] {
            Json::Array(a) => {
                proof {
                    item_views(*a);
                }
                read_texts(a)
            },
            _ => None,
        };
        match hops {
            Some(hops) => {
                if good && hops.len() < MAX_HOPS {
                    let ghost tail = hops.deep_view();
                    let ghost before = out;
                    let mut hops = hops;
                    let mut path: Vec<String> = vec![hid.clone()];
                    path.append(&mut hops);
                    out.push(path);
                    proof {
                        assert(path.deep_view() =~= seq![hid@] + tail);
                        lemma_deep_push(before, out, path);
                    }
                }
            },
            None => {
                good = false;
            },
        }
        i = i + 1;
    }
    proof {
        assert(s.take(i as int) =~= s);
    }
    if good {
        Some(out)
    } else {
        None
    }
}

/// The paths that the object of a model advertises.
fn read_advertised(object: &Json, hid: &String) -> (r: Option<Vec<Vec<String>>>)
    ensures
        r.deep_view() == advertised_by(object@, hid@),
{
    match object.get("hivllm") {
        Some(mark) => match mark.get("paths") {
            Some(Json::Array(items)) => {
                proof {
                    item_views(*items);
                }
                read_paths(items, hid)
            },
            _ => None,
        },
        None => None,
    }
}

impl Probed {
    /// What a probe of `/v1/models` found: `ids` are the ids that were listed,
    /// `body` is the whole answer, `hive_id` the instance id of a hive.
    pub fn new(ids: Vec<String>, body: &Json, hive_id: Option<String>) -> (r: Self)
        ensures
            r@ == probe_result(ids.deep_view(), body@, hive_id.deep_view()),
    {
        let models = stable_sort(keep_distinct(ids));
        let mut paths: Table<String, Vec<Vec<String>>> = Table::new();
        let mut model_meta: Table<String, Json> = Table::new();
        if let Some(Json::Array(objects)) = body.get("data") {
            let ghost s = objects.deep_view();
            let mut i: usize = 0;
            proof {
                item_views(*objects);
                assert(s.take(0) =~= Seq::empty());
            }
            while i < objects.len()
                invariant
                    i <= objects@.len(),
                    s == objects.deep_view(),
                    model_meta@ == described(s.take(i as int)),
                    paths@ == (match hive_id.deep_view() {
                        Some(hid) => described_paths(s.take(i as int), hid),
                        None => Map::empty(),
                    }),
                decreases objects@.len() - i,
            {
                let object = &objects[i];
                proof {
                    assert(s.take(i + 1).drop_last() =~= s.take(i as int));
                    assert(s.take(i + 1).last() == object@);
                }
                if let Some(Json::Text(id)) = object.get("id") {
                    if let Some(hid) = &hive_id {
                        if let Some(p) = read_advertised(object, hid) {
                            paths.insert(id.clone(), p);
                        }
                    }
                    model_meta.insert(id.clone(), object.copy());
                }
                i = i + 1;
            }
            proof {
                assert(s.take(i as int) =~= s);
            }
        }
        Probed { models, hive_id, paths, model_meta }
    }
}

/// The paths that a peer's model list gives lead through the peer first, and have
/// at most [`MAX_HOPS`] hops.
pub proof fn law_recorded_paths(items: Seq<JsonV>, hid: Seq<char>)
    ensures
        all_paths(items, hid) matches Some(paths) ==> forall|i: int|
            0 <= i < paths.len() ==> 0 < (#[trigger] paths[i]).len() <= MAX_HOPS && paths[i][0]
                == hid,
    decreases items.len(),
{
    if items.len() > 0 {
        law_recorded_paths(items.drop_last(), hid);
    }
}

/// A probe finds the models that were listed, each once and in order; it is of a hive
/// exactly if an id came with it, and only a hive tells of paths.
pub proof fn law_probe_result(
    ids: Seq<Seq<char>>,
    body: JsonV,
    hive_id: Option<Seq<char>>,
    m: Seq<char>,
)
    ensures
        ({
            let p = probe_result(ids, body, hive_id);
            &&& p.models.contains(m) <==> ids.contains(m)
            &&& p.models.no_duplicates()
            &&& forall|i: int, j: int|
                0 <= i < j < p.models.len() ==> !lex_before(
                    #[trigger] p.models[j],
                    #[trigger] p.models[i],
                )
            &&& p.hive_id == hive_id
            &&& hive_id is None ==> !p.paths.contains_key(m)
        }),
{
    let d = distinct(ids);
    lemma_distinct(ids);
    law_sorted_is_permutation::<String>(d);
    lemma_text_order();
    law_sorted_in_order::<String>(d);
    let s = sorted::<String>(d);
    lemma_permutation_contains(s, d, m);
    lemma_permutation_distinct(d, s);
    assert forall|i: int, j: int| 0 <= i < j < s.len() implies !lex_before(
        #[trigger] s[j],
        #[trigger] s[i],
    ) by {
        assert(!String::before(s[j], s[i]));
    }
}

/// What a list says of a model is what the last object with its id says, and objects
/// without an id say nothing.
pub proof fn law_described(objects: Seq<JsonV>, last: JsonV, hid: Seq<char>, id: Seq<char>)
    ensures
        ({
            let (a, b) = (described(objects), described(objects.push(last)));
            if member(last, "id"@) == Some(JsonV::Text(id)) {
                b.contains_key(id) && b[id] == last
            } else {
                (b.contains_key(id) <==> a.contains_key(id)) && (a.contains_key(id) ==> b[id]
                    == a[id])
            }
        }),
        ({
            let (a, b) = (
                described_paths(objects, hid),
                described_paths(objects.push(last), hid),
            );
            if member(last, "id"@) == Some(JsonV::Text(id)) && advertised_by(last, hid) is Some {
                b.contains_key(id) && Some(b[id]) == advertised_by(last, hid)
            } else {
                (b.contains_key(id) <==> a.contains_key(id)) && (a.contains_key(id) ==> b[id]
                    == a[id])
            }
        }),
{
    assert(objects.push(last).drop_last() =~= objects);
}

/// Texts are read from an array of texts and from no other, in order.
pub proof fn law_all_texts(items: Seq<JsonV>)
    ensures
        all_texts(items) is Some <==> forall|i: int|
            0 <= i < items.len() ==> #[trigger] items[i] is Text,
        all_texts(items) matches Some(ts) ==> ts.len() == items.len() && forall|i: int|
            0 <= i < ts.len() ==> items[i] == JsonV::Text(#[trigger] ts[i]),
    decreases items.len(),
{
    if items.len() > 0 {
        let rest = items.drop_last();
        law_all_texts(rest);
        assert(items[items.len() - 1] == items.last());
        assert forall|i: int| 0 <= i < rest.len() implies rest[i] == #[trigger] items[i] by {}
        if forall|i: int| 0 <= i < items.len() ==> #[trigger] items[i] is Text {
            assert forall|i: int| 0 <= i < rest.len() implies #[trigger] rest[i] is Text by {
                assert(items[i] is Text);
            }
        }
    }
}

/// A path that a hive tells of is recorded with the hive in front of it, unless it is too
/// long; one that is no list of texts spoils the whole list.
pub proof fn law_path_recorded(items: Seq<JsonV>, hops: Seq<JsonV>, hid: Seq<char>)
    ensures
        all_paths(Seq::empty(), hid) == Some(Seq::<Seq<Seq<char>>>::empty()),
        ({
            let (a, b) = (all_paths(items, hid), all_paths(items.push(JsonV::Array(hops)), hid));
            match (a, all_texts(hops)) {
                (Some(before), Some(path)) => if path.len() < 8 {
                    b == Some(before.push(seq![hid] + path))
                } else {
                    b == Some(before)
                },
                _ => b is None,
            }
        }),
{
    assert(items.push(JsonV::Array(hops)).drop_last() =~= items);
}

/// Paths are read from the mark of a hive, and a list of models from its data.
pub proof fn law_where_paths_are(
    o: Map<Seq<char>, JsonV>,
    mark: Map<Seq<char>, JsonV>,
    items: Seq<JsonV>,
    hid: Seq<char>,
)
    ensures
        advertised_by(
            JsonV::Object(
                o.insert(
                    "hivllm"@,
                    JsonV::Object(mark.insert("paths"@, JsonV::Array(items))),
                ),
            ),
            hid,
        ) == all_paths(items, hid),
        !o.contains_key("hivllm"@) ==> advertised_by(JsonV::Object(o), hid) is None,
        objects_of(JsonV::Object(o.insert("data"@, JsonV::Array(items)))) == items,
        !o.contains_key("data"@) ==> objects_of(JsonV::Object(o)).len() == 0,
{
}

} // verus!
