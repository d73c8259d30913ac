//! JSON values.
//!
//! [`Json`] is the library's own value; its view [`JsonV`] is the value it
//! stands for: text as sequences of characters, objects as maps.
use crate::deep::Dup;
use crate::text::str_eq;
use vstd::prelude::*;

verus! {

/// A JSON number as `serde_json` holds it.
#[verifier::external_type_specification]
#[verifier::external_body]
pub struct ExNumber(serde_json::Number);

/// A JSON value as `serde_json` holds it.
#[verifier::external_type_specification]
#[verifier::external_body]
pub struct ExValue(serde_json::Value);

/// A JSON value.
#[derive(Debug, PartialEq)]
pub enum Json {
    Null,
    Bool(bool),
    /// An unsigned integer of 64 bits.
    Unsigned(u64),
    /// A number, as a rule one that is no unsigned integer of 64 bits.
    Other(serde_json::Number),
    Text(String),
    Array(Vec<Json>),
    /// Members of an object. Where a key occurs twice the last one counts.
    Object(Vec<(String, Json)>),
}

/// What a JSON value stands for. A number that is an unsigned integer of 64 bits
/// is always `Unsigned`.
pub enum JsonV {
    Null,
    Bool(bool),
    Unsigned(u64),
    Other(serde_json::Number),
    Text(Seq<char>),
    Array(Seq<JsonV>),
    Object(Map<Seq<char>, JsonV>),
}

/// The unsigned integer of 64 bits that a number is, as
/// `serde_json::Number::as_u64` tells.
pub uninterp spec fn unsigned_number(n: serde_json::Number) -> Option<u64>;

/// Calls `serde_json::Number::as_u64`, whose result depends on the number alone.
#[verifier::external_body]
fn number_unsigned(n: &serde_json::Number) -> (r: Option<u64>)
    ensures
        r == unsigned_number(*n),
{
    n.as_u64()
}

/// What a number stands for.
pub open spec fn number_json(n: serde_json::Number) -> JsonV {
    match unsigned_number(n) {
        Some(u) => JsonV::Unsigned(u),
        None => JsonV::Other(n),
    }
}

/// What a JSON value stands for.
pub open spec fn json_view(j: Json) -> JsonV
    decreases j,
{
    match j {
        Json::Null => JsonV::Null,
        Json::Bool(b) => JsonV::Bool(b),
        Json::Unsigned(n) => JsonV::Unsigned(n),
        Json::Other(n) => number_json(n),
        Json::Text(s) => JsonV::Text(s@),
        Json::Array(a) => JsonV::Array(
            Seq::new(a@.len(), |i: int| if 0 <= i < a@.len() { json_view(a@[i]) } else { JsonV::Null }),
        ),
        Json::Object(o) => JsonV::Object(members_view(o@)),
    }
}

/// What the members of an object stand for: the last value of each key.
pub open spec fn members_view(o: Seq<(String, Json)>) -> Map<Seq<char>, JsonV>
    decreases o,
{
    if o.len() == 0 {
        Map::empty()
    } else {
        members_view(o.drop_last()).insert(o.last().0@, json_view(o.last().1))
    }
}

impl View for Json {
    type V = JsonV;

    open spec fn view(&self) -> JsonV {
        json_view(*self)
    }
}

impl DeepView for Json {
    type V = JsonV;

    open spec fn deep_view(&self) -> JsonV {
        json_view(*self)
    }
}

/// What a `serde_json` value stands for.
pub uninterp spec fn value_json(v: serde_json::Value) -> JsonV;

/// The outermost layer of a `serde_json` value.
enum Node {
    Null,
    Bool(bool),
    Unsigned(u64),
    Number(serde_json::Number),
    Text(String),
    Array(Vec<serde_json::Value>),
    Object(Vec<(String, serde_json::Value)>),
}

/// What the members of a taken apart object stand for.
spec fn entries_json(o: Seq<(String, serde_json::Value)>) -> Map<Seq<char>, JsonV>
    decreases o.len(),
{
    if o.len() == 0 {
        Map::empty()
    } else {
        entries_json(o.drop_last()).insert(o.last().0@, value_json(o.last().1))
    }
}

/// What the outermost layer of a value stands for.
spec fn node_json(n: Node) -> JsonV {
    match n {
        Node::Null => JsonV::Null,
        Node::Bool(b) => JsonV::Bool(b),
        Node::Unsigned(n) => JsonV::Unsigned(n),
        Node::Number(n) => number_json(n),
        Node::Text(s) => JsonV::Text(s@),
        Node::Array(a) => JsonV::Array(a@.map_values(|v: serde_json::Value| value_json(v))),
        Node::Object(o) => JsonV::Object(entries_json(o@)),
    }
}

/// Tells the variants of `serde_json::Value` apart and hands out their fields.
/// The keys of a `serde_json::Map` are distinct.
#[verifier::external_body]
fn take_apart(v: serde_json::Value) -> (r: Node)
    ensures
        node_json(r) == value_json(v),
        r matches Node::Object(o) ==> forall|i: int, j: int|
            0 <= i < j < o@.len() ==> o@[i].0@ != o@[j].0@,
{
    match v {
        serde_json::Value::Null => Node::Null,
        serde_json::Value::Bool(b) => Node::Bool(b),
        serde_json::Value::Number(n) => Node::Number(n),
        serde_json::Value::String(s) => Node::Text(s),
        serde_json::Value::Array(a) => Node::Array(a),
        serde_json::Value::Object(o) => Node::Object(o.into_iter().collect()),
    }
}

/// Builds the variant of `serde_json::Value` that holds the given fields. A number
/// made from an unsigned integer is that integer. An object is built by `serde_json::Map::insert`, which replaces the value under a
/// key that is there already.
#[verifier::external_body]
fn put_together(n: Node) -> (r: serde_json::Value)
    ensures
        value_json(r) == node_json(n),
{
    match n {
        Node::Null => serde_json::Value::Null,
        Node::Bool(b) => serde_json::Value::Bool(b),
        Node::Unsigned(u) => serde_json::Value::from(u),
        Node::Number(x) => serde_json::Value::Number(x),
        Node::Text(s) => serde_json::Value::String(s),
        Node::Array(a) => serde_json::Value::Array(a),
        Node::Object(o) => {
            let mut map = serde_json::Map::new();
            for (k, v) in o {
                map.insert(k, v);
            }
            serde_json::Value::Object(map)
        },
    }
}

/// The value that a JSON text holds, as `serde_json::from_slice` reads it;
/// nothing where it fails.
pub uninterp spec fn json_parsed(text: Seq<u8>) -> Option<JsonV>;

/// The JSON text that `serde_json::to_vec` writes for a value.
pub uninterp spec fn json_text(v: JsonV) -> Seq<u8>;

/// Calls `serde_json::from_slice` for a `Value`; its result depends on the
/// bytes alone.
#[verifier::external_body]
fn parse_value(text: &[u8]) -> (r: Option<serde_json::Value>)
    ensures
        match r {
            Some(v) => json_parsed(text@) == Some(value_json(v)),
            None => json_parsed(text@) is None,
        },
{
    serde_json::from_slice(text).ok()
}

/// Whether a value is free of numbers that are no unsigned integers of 64 bits and
/// of the key by which `serde_json` knows raw values, and nests its arrays and
/// objects at most `depth` deep.
pub open spec fn is_plain(v: JsonV, depth: nat) -> bool
    decreases depth,
{
    match v {
        JsonV::Other(_) => false,
        JsonV::Array(a) => depth > 0 && forall|i: int|
            0 <= i < a.len() ==> is_plain(#[trigger] a[i], (depth - 1) as nat),
        JsonV::Object(o) => depth > 0 && !o.contains_key("$serde_json::private::RawValue"@)
            && forall|k: Seq<char>| #[trigger]
            o.contains_key(k) ==> is_plain(o[k], (depth - 1) as nat),
        _ => true,
    }
}

/// Calls `serde_json::to_vec` on a `Value`, which cannot fail: every key is
/// text and the writer is a vector. Its result depends on the value alone. Of a
/// value with none but unsigned integers, without the key of a raw value, and with
/// no more than 127 arrays and objects inside each other, which is how deep
/// `serde_json::from_slice` reads, that function gives the value back. Of other
/// numbers that is not stated, and an object that starts with the key of a raw
/// value is read as what stands under it.
#[verifier::external_body]
fn write_value(v: &serde_json::Value) -> (r: Vec<u8>)
    ensures
        r@ == json_text(value_json(*v)),
        is_plain(value_json(*v), 127) ==> json_parsed(r@) == Some(value_json(*v)),
{
    serde_json::to_vec(v).unwrap_or_default()
}

/// A clone of a `serde_json::Number` is the same number.
pub assume_specification[ <serde_json::Number as Clone>::clone ](
    n: &serde_json::Number,
) -> (r: serde_json::Number)
    ensures
        r == *n,
;

/// The member of `v` under `key`; nothing if `v` is no object or has none.
pub open spec fn member(v: JsonV, key: Seq<char>) -> Option<JsonV> {
    match v {
        JsonV::Object(m) if m.contains_key(key) => Some(m[key]),
        _ => None,
    }
}

/// An array stands for what its items stand for.
pub proof fn item_views(a: Vec<Json>)
    ensures
        json_view(Json::Array(a)) == JsonV::Array(a.deep_view()),
{
    assert(json_view(Json::Array(a))->Array_0 =~= a.deep_view());
}

/// The text of a JSON string.
pub open spec fn text_of(v: Option<JsonV>) -> Option<Seq<char>> {
    match v {
        Some(JsonV::Text(s)) => Some(s),
        _ => None,
    }
}

/// The items of a JSON array.
pub open spec fn items_of(v: Option<JsonV>) -> Option<Seq<JsonV>> {
    match v {
        Some(JsonV::Array(a)) => Some(a),
        _ => None,
    }
}

/// The value of an unsigned integer.
pub open spec fn unsigned_of(v: Option<JsonV>) -> Option<u64> {
    match v {
        Some(JsonV::Unsigned(n)) => Some(n),
        _ => None,
    }
}

/// The member that a key leads to among the first `n` members, if none of the
/// later ones has that key.
proof fn lemma_members_prefix(o: Seq<(String, Json)>, n: int, key: Seq<char>)
    requires
        0 <= n <= o.len(),
        forall|i: int| n <= i < o.len() ==> o[i].0@ != key,
    ensures
        members_view(o).contains_key(key) == members_view(o.take(n)).contains_key(key),
        members_view(o).contains_key(key) ==> members_view(o)[key] == members_view(o.take(n))[key],
    decreases o.len() - n,
{
    if n < o.len() {
        lemma_members_prefix(o.drop_last(), n, key);
        assert(o.drop_last().take(n) =~= o.take(n));
    } else {
        assert(o.take(n) =~= o);
    }
}

/// The index of the last member under `key`; the number of members if none has it.
fn last_member(o: &Vec<(String, Json)>, key: &str) -> (r: usize)
    ensures
        r <= o@.len(),
        members_view(o@).contains_key(key@) == (r < o@.len()),
        r < o@.len() ==> {
            &&& o@[r as int].0@ == key@
            &&& members_view(o@)[key@] == o@[r as int].1@
            &&& forall|i: int| r < i < o@.len() ==> o@[i].0@ != key@
        },
{
    let mut n: usize = o.len();
    while n > 0
        invariant
            n <= o@.len(),
            forall|i: int| n <= i < o@.len() ==> o@[i].0@ != key@,
        decreases n,
    {
        if str_eq(o[n - 1].0.as_str(), key) {
            proof {
                lemma_members_prefix(o@, n as int, key@);
                assert(o@.take(n as int).last() == o@[n - 1]);
            }
            return n - 1;
        }
        n = n - 1;
    }
    proof {
        lemma_members_prefix(o@, 0, key@);
        assert(o@.take(0).len() == 0);
    }
    o.len()
}

/// Whether there is a member under `key`.
pub fn has_member(o: &Vec<(String, Json)>, key: &str) -> (r: bool)
    ensures
        r == members_view(o@).contains_key(key@),
{
    last_member(o, key) < o.len()
}

/// Replacing the value of the last member under a key.
proof fn lemma_members_update(o: Seq<(String, Json)>, i: int, e: (String, Json))
    requires
        0 <= i < o.len(),
        e.0@ == o[i].0@,
        forall|j: int| i < j < o.len() ==> o[j].0@ != e.0@,
    ensures
        members_view(o.update(i, e)) == members_view(o).insert(e.0@, e.1@),
    decreases o.len(),
{
    let u = o.update(i, e);
    if i == o.len() - 1 {
        assert(u.drop_last() =~= o.drop_last());
        assert(members_view(u) =~= members_view(o).insert(e.0@, e.1@));
    } else {
        assert(u.drop_last() =~= o.drop_last().update(i, e));
        lemma_members_update(o.drop_last(), i, e);
        assert(u.last() == o.last());
        assert(members_view(u) =~= members_view(o).insert(e.0@, e.1@));
    }
}

/// Puts a member into an object: in place of the one under the same key, or
/// behind the others.
pub fn put_member(o: &mut Vec<(String, Json)>, key: String, value: Json)
    ensures
        members_view(final(o)@) == members_view(old(o)@).insert(key@, value@),
{
    let at: usize = last_member(o, key.as_str());
    if at < o.len() {
        proof {
            lemma_members_update(o@, at as int, (key, value));
        }
        o.set(at, (key, value));
    } else {
        o.push((key, value));
        proof {
            assert(o@.drop_last() =~= old(o)@);
        }
    }
}

impl Json {
    /// An object without members.
    pub fn empty_object() -> (r: Json)
        ensures
            r@ == JsonV::Object(Map::empty()),
    {
        let o: Vec<(String, Json)> = Vec::new();
        proof {
            assert(members_view(o@) =~= Map::empty());
        }
        Json::Object(o)
    }

    /// The member under `key`, if the value is an object and has one.
    pub fn get(&self, key: &str) -> (r: Option<&Json>)
        ensures
            match r {
                Some(v) => member(self@, key@) == Some(v@),
                None => member(self@, key@) is None,
            },
            r matches Some(v) ==> (decreases_to!(*self => *v)),
    {
        match self {
            Json::Object(o) => {
                let at: usize = last_member(o, key);
                if at < o.len() {
                    Some(&o[at].1)
                } else {
                    None
                }
            },
            _ => None,
        }
    }

    /// The text of a string.
    pub fn as_str(&self) -> (r: Option<&str>)
        ensures
            match r {
                Some(s) => text_of(Some(self@)) == Some(s@),
                None => text_of(Some(self@)) is None,
            },
    {
        match self {
            Json::Text(s) => Some(s.as_str()),
            _ => None,
        }
    }

    /// The items of an array.
    pub fn as_array(&self) -> (r: Option<&Vec<Json>>)
        ensures
            match r {
                Some(a) => items_of(Some(self@)) == Some(a.deep_view()),
                None => items_of(Some(self@)) is None,
            },
    {
        match self {
            Json::Array(a) => {
                proof {
                    assert(items_of(Some(self@))->0 =~= a.deep_view());
                }
                Some(a)
            },
            _ => None,
        }
    }

    /// The value of an unsigned integer.
    pub fn as_u64(&self) -> (r: Option<u64>)
        ensures
            r == unsigned_of(Some(self@)),
    {
        match self {
            Json::Unsigned(n) => Some(*n),
            Json::Other(n) => number_unsigned(n),
            _ => None,
        }
    }

    /// The same value once more.
    pub fn copy(&self) -> (r: Json)
        ensures
            r@ == self@,
        decreases self,
    {
        match self {
            Json::Null => Json::Null,
            Json::Bool(b) => Json::Bool(*b),
            Json::Unsigned(n) => Json::Unsigned(*n),
            Json::Other(n) => Json::Other(n.clone()),
            Json::Text(s) => Json::Text(s.clone()),
            Json::Array(a) => {
                let r = copy_items(a);
                let out = Json::Array(r);
                proof {
                    assert(items_of(Some(out@))->0 =~= items_of(Some(self@))->0);
                }
                out
            },
            Json::Object(o) => Json::Object(copy_members(o)),
        }
    }
}

impl Clone for Json {
    fn clone(&self) -> (r: Self)
        ensures
            r@ == self@,
    {
        self.copy()
    }
}

impl Dup for Json {
    fn dup(&self) -> (r: Self) {
        self.copy()
    }
}

/// The same items once more.
pub fn copy_items(a: &Vec<Json>) -> (r: Vec<Json>)
    ensures
        r.deep_view() == a.deep_view(),
        r@.len() == a@.len(),
        forall|i: int| 0 <= i < a@.len() ==> r@[i]@ == a@[i]@,
    decreases a,
{
    let mut r: Vec<Json> = Vec::new();
    let mut i: usize = 0;
    while i < a.len()
        invariant
            i <= a@.len(),
            r@.len() == i,
            forall|j: int| 0 <= j < i ==> r@[j]@ == a@[j]@,
        decreases a@.len() - i,
    {
        r.push(a[i].copy());
        i = i + 1;
    }
    proof {
        assert(r.deep_view() =~= a.deep_view());
    }
    r
}

/// The same members once more.
pub fn copy_members(o: &Vec<(String, Json)>) -> (r: Vec<(String, Json)>)
    ensures
        members_view(r@) == members_view(o@),
    decreases o,
{
    let mut r: Vec<(String, Json)> = Vec::new();
    let mut i: usize = 0;
    while i < o.len()
        invariant
            i <= o@.len(),
            members_view(r@) == members_view(o@.take(i as int)),
        decreases o@.len() - i,
    {
        let ghost before = r@;
        let value = o[i].1.copy();
        r.push((o[i].0.clone(), value));
        proof {
            assert(r@.drop_last() =~= before);
            assert(o@.take(i + 1).drop_last() =~= o@.take(i as int));
        }
        i = i + 1;
    }
    proof {
        assert(o@.take(i as int) =~= o@);
    }
    r
}

/// In a taken apart object with distinct keys, each key leads to its value.
proof fn lemma_entry_present(o: Seq<(String, serde_json::Value)>, i: int)
    requires
        0 <= i < o.len(),
        forall|a: int, b: int| 0 <= a < b < o.len() ==> o[a].0@ != o[b].0@,
    ensures
        entries_json(o).contains_key(o[i].0@),
        entries_json(o)[o[i].0@] == value_json(o[i].1),
    decreases o.len(),
{
    if i < o.len() - 1 {
        assert(o.drop_last()[i] == o[i]);
        lemma_entry_present(o.drop_last(), i);
    }
}

/// A taken apart object has finitely many keys.
proof fn lemma_entries_finite(o: Seq<(String, serde_json::Value)>)
    ensures
        entries_json(o).dom().finite(),
    decreases o.len(),
{
    if o.len() > 0 {
        lemma_entries_finite(o.drop_last());
    }
}

/// The value that a `serde_json` value stands for.
fn from_value(v: serde_json::Value) -> (r: Json)
    ensures
        r@ == value_json(v),
    decreases value_json(v),
{
    let ghost whole = value_json(v);
    match take_apart(v) {
        Node::Null => Json::Null,
        Node::Bool(b) => Json::Bool(b),
        Node::Unsigned(n) => Json::Unsigned(n),
        Node::Number(n) => match number_unsigned(&n) {
            Some(u) => Json::Unsigned(u),
            None => Json::Other(n),
        },
        Node::Text(s) => Json::Text(s),
        Node::Array(a) => {
            let ghost views = a@.map_values(|v: serde_json::Value| value_json(v));
            let mut r: Vec<Json> = Vec::new();
            for x in it: a
                invariant
                    whole == JsonV::Array(views),
                    whole == value_json(v),
                    it.seq() == a@,
                    views == a@.map_values(|v: serde_json::Value| value_json(v)),
                    r@.len() == it.index(),
                    forall|j: int| 0 <= j < it.index() ==> r@[j]@ == views[j],
            {
                proof {
                    assert(value_json(x) == views[it.index() as int]);
                    assert(whole->Array_0 == views);
                    assert(decreases_to!(whole => whole->Array_0));
                    assert(decreases_to!(views => views[it.index() as int]));
                }
                r.push(from_value(x));
            }
            let out = Json::Array(r);
            proof {
                assert(items_of(Some(out@))->0 =~= views);
            }
            out
        },
        Node::Object(o) => {
            let ghost entries = o@;
            let mut r: Vec<(String, Json)> = Vec::new();
            for x in it: o
                invariant
                    whole == JsonV::Object(entries_json(entries)),
                    whole == value_json(v),
                    it.seq() == entries,
                    forall|a: int, b: int|
                        0 <= a < b < entries.len() ==> entries[a].0@ != entries[b].0@,
                    members_view(r@) == entries_json(entries.take(it.index() as int)),
            {
                let ghost before = r@;
                proof {
                    lemma_entry_present(entries, it.index() as int);
                    lemma_entries_finite(entries);
                    assert(whole->Object_0 == entries_json(entries));
                    assert(decreases_to!(whole => whole->Object_0));
                    assert(decreases_to!(entries_json(entries) => entries_json(entries)[x.0@]));
                    assert(entries.take(it.index() + 1).drop_last() =~= entries.take(
                        it.index() as int,
                    ));
                }
                let (key, value) = x;
                let value = from_value(value);
                r.push((key, value));
                proof {
                    assert(r@.drop_last() =~= before);
                }
            }
            proof {
                assert(entries.take(entries.len() as int) =~= entries);
            }
            Json::Object(r)
        },
    }
}

/// The `serde_json` value that stands for the same as `j`.
fn to_value(j: &Json) -> (r: serde_json::Value)
    ensures
        value_json(r) == j@,
    decreases j,
{
    let node = match j {
        Json::Null => Node::Null,
        Json::Bool(b) => Node::Bool(*b),
        Json::Unsigned(n) => Node::Unsigned(*n),
        Json::Other(n) => Node::Number(n.clone()),
        Json::Text(s) => Node::Text(s.clone()),
        Json::Array(a) => {
            let mut r: Vec<serde_json::Value> = Vec::new();
            let mut i: usize = 0;
            while i < a.len()
                invariant
                    i <= a@.len(),
                    *j == Json::Array(*a),
                    r@.len() == i,
                    forall|k: int| 0 <= k < i ==> value_json(r@[k]) == a@[k]@,
                decreases a@.len() - i,
            {
                proof {
                    assert(decreases_to!(*j => j->Array_0));
                    assert(decreases_to!(a@ => a@[i as int]));
                }
                r.push(to_value(&a[i]));
                i = i + 1;
            }
            proof {
                assert(r@.map_values(|v: serde_json::Value| value_json(v)) =~= items_of(
                    Some(j@),
                )->0);
            }
            Node::Array(r)
        },
        Json::Object(o) => {
            let mut r: Vec<(String, serde_json::Value)> = Vec::new();
            let mut i: usize = 0;
            while i < o.len()
                invariant
                    i <= o@.len(),
                    *j == Json::Object(*o),
                    entries_json(r@) == members_view(o@.take(i as int)),
                decreases o@.len() - i,
            {
                let ghost before = r@;
                proof {
                    assert(decreases_to!(*j => j->Object_0));
                    assert(decreases_to!(o@ => o@[i as int]));
                    assert(decreases_to!(o@[i as int] => o@[i as int].1));
                }
                let value = to_value(&o[i].1);
                r.push((o[i].0.clone(), value));
                proof {
                    assert(r@.drop_last() =~= before);
                    assert(o@.take(i + 1).drop_last() =~= o@.take(i as int));
                }
                i = i + 1;
            }
            proof {
                assert(o@.take(i as int) =~= o@);
            }
            Node::Object(r)
        },
    };
    put_together(node)
}

/// The value that a JSON text holds, if it is one.
pub fn parse(text: &[u8]) -> (r: Option<Json>)
    ensures
        match r {
            Some(v) => json_parsed(text@) == Some(v@),
            None => json_parsed(text@) is None,
        },
{
    match parse_value(text) {
        Some(v) => Some(from_value(v)),
        None => None,
    }
}

/// The JSON text of a value. A plain value is what the text reads as.
pub fn to_bytes(j: &Json) -> (r: Vec<u8>)
    ensures
        r@ == json_text(j@),
        is_plain(j@, 127) ==> json_parsed(r@) == Some(j@),
{
    write_value(&to_value(j))
}

/// A member is found under its key, and nothing under a key that an object does not
/// have; what is no object has no members.
pub proof fn law_member(o: Map<Seq<char>, JsonV>, key: Seq<char>, v: JsonV)
    ensures
        member(JsonV::Object(o.insert(key, v)), key) == Some(v),
        member(JsonV::Object(o.remove(key)), key) is None,
        !(v is Object) ==> member(v, key) is None,
{
}

/// Text, items and numbers are read from values of their kind alone.
pub proof fn law_kinds(v: JsonV)
    ensures
        text_of(Some(v)) is Some <==> v is Text,
        items_of(Some(v)) is Some <==> v is Array,
        unsigned_of(Some(v)) is Some <==> v is Unsigned,
        text_of(None) is None && items_of(None) is None && unsigned_of(None) is None,
        v matches JsonV::Text(s) ==> text_of(Some(v)) == Some(s),
        v matches JsonV::Array(a) ==> items_of(Some(v)) == Some(a),
        v matches JsonV::Unsigned(n) ==> unsigned_of(Some(v)) == Some(n),
{
}

/// Of members with the same key the last one counts, and members with other keys do
/// not matter.
pub proof fn law_last_member_counts(o: Seq<(String, Json)>, last: (String, Json), key: Seq<char>)
    ensures
        members_view(o.push(last)).contains_key(last.0@),
        members_view(o.push(last))[last.0@] == last.1@,
        key != last.0@ ==> (members_view(o.push(last)).contains_key(key) <==> members_view(
            o,
        ).contains_key(key)),
        key != last.0@ && members_view(o).contains_key(key) ==> members_view(o.push(last))[key]
            == members_view(o)[key],
        !members_view(Seq::empty()).contains_key(key),
{
    assert(o.push(last).drop_last() =~= o);
}

} // verus!
