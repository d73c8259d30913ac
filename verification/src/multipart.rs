//! Just enough `multipart/form-data` reading to route audio uploads: find the
//! `model` field and describe the form for the query log. The body itself is
//! forwarded untouched.
use crate::deep::{deep_chars, lemma_deep_push};
use crate::json::{member, members_view, put_member, Json, JsonV};
use crate::text::{
    chars_of, cut_once, eq_ignoring_case, is_space, law_ascii_space, law_same_ignoring_case,
    law_strip_frame, lemma_cut, lemma_no_cut, lemma_one_piece, lines, lossy_text, occurs_at,
    same_ignoring_case, split, split_at_class, split_lines, split_once, str_eq, string_of, strip,
    text_lossy, trim, Class,
};
use vstd::prelude::*;
use vstd::string::*;
use vstd::utf8::encode_utf8;

pub mod form;

verus! {

broadcast use deep_chars;

/// One form part: a text field, or a file (content not kept).
#[derive(Debug, Clone, PartialEq)]
pub enum Part {
    Field { name: String, value: String },
    File { name: String, filename: String, content_type: Option<String>, bytes: usize },
}

/// What a [`Part`] stands for.
pub enum PartV {
    Field { name: Seq<char>, value: Seq<char> },
    File {
        name: Seq<char>,
        filename: Seq<char>,
        content_type: Option<Seq<char>>,
        bytes: nat,
    },
}

impl DeepView for Part {
    type V = PartV;

    open spec fn deep_view(&self) -> PartV {
        match self {
            Part::Field { name, value } => PartV::Field { name: name@, value: value@ },
            Part::File { name, filename, content_type, bytes } => PartV::File {
                name: name@,
                filename: filename@,
                content_type: content_type.deep_view(),
                bytes: *bytes as nat,
            },
        }
    }
}

/// The value of a `key=value` parameter, without the quotes round it; nothing if
/// the text is no parameter or has another key.
pub open spec fn parameter(piece: Seq<char>, key: Seq<char>) -> Option<Seq<char>> {
    match split_once(strip(piece, Class::Space), '=') {
        Some((k, v)) if same_ignoring_case(strip(k, Class::Space), key) => Some(
            strip(strip(v, Class::Space), Class::Only('"')),
        ),
        _ => None,
    }
}

/// The value of the first piece that is a parameter with the given key; an empty
/// value counts if `empty` says so.
pub open spec fn first_parameter(pieces: Seq<Seq<char>>, key: Seq<char>, empty: bool) -> Option<
    Seq<char>,
>
    decreases pieces.len(),
{
    if pieces.len() == 0 {
        None
    } else {
        match parameter(pieces.first(), key) {
            Some(v) if empty || v.len() > 0 => Some(v),
            _ => first_parameter(pieces.drop_first(), key, empty),
        }
    }
}

/// The boundary that a content type gives.
pub open spec fn boundary_of(content_type: Seq<char>) -> Option<Seq<char>> {
    match split_once(content_type, ';') {
        Some((mime, params)) if same_ignoring_case(
            strip(mime, Class::Space),
            "multipart/form-data"@,
        ) => first_parameter(split(params, Class::Only(';')), "boundary"@, false),
        _ => None,
    }
}

/// The value of a `key=value` parameter.
fn read_parameter(piece: &[char], key: &[char]) -> (r: Option<String>)
    ensures
        r.deep_view() == parameter(piece@, key@),
{
    match cut_once(trim(piece, Class::Space), '=') {
        Some((k, v)) => if eq_ignoring_case(trim(k, Class::Space), key) {
            Some(string_of(trim(trim(v, Class::Space), Class::Only('"'))))
        } else {
            None
        },
        None => None,
    }
}

/// The value of the first piece that is a parameter with the given key.
fn find_parameter(pieces: &Vec<Vec<char>>, key: &[char], empty: bool) -> (r: Option<String>)
    ensures
        r.deep_view() == first_parameter(pieces.deep_view(), key@, empty),
{
    let ghost all = pieces.deep_view();
    let mut i: usize = 0;
    proof {
        assert(all.skip(0) =~= all);
    }
    while i < pieces.len()
        invariant
            i <= pieces@.len(),
            all == pieces.deep_view(),
            first_parameter(all, key@, empty) == first_parameter(all.skip(i as int), key@, empty),
        decreases pieces@.len() - i,
    {
        proof {
            assert(all.skip(i as int).drop_first() =~= all.skip(i + 1));
            assert(all.skip(i as int).first() == pieces@[i as int]@);
        }
        if let Some(v) = read_parameter(pieces[i].as_slice(), key) {
            if empty || !v.as_str().is_empty() {
                return Some(v);
            }
        }
        i = i + 1;
    }
    None
}

/// Boundary from a `multipart/form-data; boundary=...` content type.
pub fn boundary(content_type: &str) -> (r: Option<String>)
    ensures
        r.deep_view() == boundary_of(content_type@),
{
    let v = chars_of(content_type);
    let wanted = chars_of("multipart/form-data");
    let key = chars_of("boundary");
    match cut_once(v.as_slice(), ';') {
        Some((mime, params)) => if eq_ignoring_case(trim(mime, Class::Space), wanted.as_slice()) {
            let pieces = split_at_class(params, Class::Only(';'));
            find_parameter(&pieces, key.as_slice(), false)
        } else {
            None
        },
        None => None,
    }
}

/// Whether `needle` stands in `v` at index `i`.
fn stands_at(v: &[u8], needle: &[u8], i: usize) -> (r: bool)
    ensures
        r == occurs_at(v@, needle@, i as int),
{
    let n: usize = v.len();
    if i > n || needle.len() > n - i {
        return false;
    }
    let mut j: usize = 0;
    while j < needle.len()
        invariant
            j <= needle@.len(),
            n == v@.len(),
            i + needle@.len() <= v@.len(),
            v@.subrange(i as int, i + j) =~= needle@.take(j as int),
        decreases needle@.len() - j,
    {
        if v[i + j] != needle[j] {
            proof {
                assert(v@.subrange(i as int, i + needle@.len())[j as int] != needle@[j as int]);
            }
            return false;
        }
        j = j + 1;
    }
    proof {
        assert(needle@.take(j as int) =~= needle@);
    }
    true
}

/// The least index from `from` on at which `needle` stands in `haystack`; nothing
/// for an empty needle.
pub open spec fn position(haystack: Seq<u8>, needle: Seq<u8>, from: int) -> Option<int> {
    if needle.len() == 0 {
        None
    } else {
        crate::text::find(haystack, needle, from)
    }
}

/// The least index from `from` on at which `needle` stands in `haystack`.
pub fn find(haystack: &[u8], needle: &[u8], from: usize) -> (r: Option<usize>)
    ensures
        match r {
            Some(i) => position(haystack@, needle@, from as int) == Some(i as int),
            None => position(haystack@, needle@, from as int) is None,
        },
        r matches Some(i) ==> occurs_at(haystack@, needle@, i as int) && from <= i && needle@.len()
            > 0,
{
    if needle.len() == 0 || from >= haystack.len() {
        return None;
    }
    let mut i: usize = from;
    while needle.len() <= haystack.len() - i
        invariant
            from <= i <= haystack@.len(),
            needle@.len() > 0,
            position(haystack@, needle@, from as int) == position(haystack@, needle@, i as int),
        decreases haystack@.len() - i,
    {
        if stands_at(haystack, needle, i) {
            return Some(i);
        }
        i = i + 1;
    }
    None
}

/// The value of a parameter of a Content-Disposition header.
pub fn disposition_param(disposition: &str, key: &str) -> (r: Option<String>)
    ensures
        r.deep_view() == first_parameter(split(disposition@, Class::Only(';')), key@, true),
{
    let v = chars_of(disposition);
    let k = chars_of(key);
    let pieces = split_at_class(v.as_slice(), Class::Only(';'));
    find_parameter(&pieces, k.as_slice(), true)
}

/// The value of the first header line with the given name.
pub open spec fn header_value(rows: Seq<Seq<char>>, name: Seq<char>) -> Option<Seq<char>>
    decreases rows.len(),
{
    if rows.len() == 0 {
        None
    } else {
        match split_once(rows.first(), ':') {
            Some((k, v)) if same_ignoring_case(strip(k, Class::Space), name) => Some(
                strip(v, Class::Space),
            ),
            _ => header_value(rows.drop_first(), name),
        }
    }
}

/// The value of the first header line with the given name.
fn find_header(rows: &Vec<Vec<char>>, name: &str) -> (r: Option<String>)
    ensures
        r.deep_view() == header_value(rows.deep_view(), name@),
{
    let wanted = chars_of(name);
    let ghost all = rows.deep_view();
    let mut i: usize = 0;
    proof {
        assert(all.skip(0) =~= all);
    }
    while i < rows.len()
        invariant
            i <= rows@.len(),
            all == rows.deep_view(),
            wanted@ == name@,
            header_value(all, name@) == header_value(all.skip(i as int), name@),
        decreases rows@.len() - i,
    {
        proof {
            assert(all.skip(i as int).drop_first() =~= all.skip(i + 1));
            assert(all.skip(i as int).first() == rows@[i as int]@);
        }
        if let Some((k, v)) = cut_once(rows[i].as_slice(), ':') {
            if eq_ignoring_case(trim(k, Class::Space), wanted.as_slice()) {
                return Some(string_of(trim(v, Class::Space)));
            }
        }
        i = i + 1;
    }
    None
}

/// Carriage return and line feed.
pub open spec fn crlf() -> Seq<u8> {
    seq![13, 10]
}

/// What stands between two delimiters, without the line ends next to them.
pub open spec fn unframed(raw: Seq<u8>) -> Seq<u8> {
    let r = if crlf().is_prefix_of(raw) {
        raw.skip(2)
    } else {
        raw
    };
    if crlf().is_suffix_of(r) {
        r.take(r.len() - 2)
    } else {
        r
    }
}

/// The part that a piece of a body holds: header lines, an empty line, content.
/// A piece without a named content disposition holds none; one with a file name
/// is a file.
pub open spec fn part_in(raw: Seq<u8>) -> Option<PartV> {
    let r = unframed(raw);
    match position(r, crlf() + crlf(), 0) {
        Some(at) => {
            let head = lines(lossy_text(r.take(at)));
            let content = r.skip(at + 4);
            match header_value(head, "content-disposition"@) {
                Some(disp) => {
                    let params = split(disp, Class::Only(';'));
                    match (
                        first_parameter(params, "name"@, true),
                        first_parameter(params, "filename"@, true),
                    ) {
                        (Some(name), Some(filename)) => Some(
                            PartV::File {
                                name,
                                filename,
                                content_type: header_value(head, "content-type"@),
                                bytes: content.len(),
                            },
                        ),
                        (Some(name), None) => Some(
                            PartV::Field { name, value: lossy_text(content) },
                        ),
                        _ => None,
                    }
                },
                None => None,
            }
        },
        None => None,
    }
}

/// The parts of a body from the delimiter at `pos` on.
pub open spec fn parts_from(body: Seq<u8>, delim: Seq<u8>, pos: int) -> Seq<PartV>
    decreases body.len() - pos,
{
    let start = pos + delim.len();
    if pos < 0 || delim.len() == 0 || occurs_at(body, seq![45, 45], start) {
        // Two hyphens right after a delimiter close the body.
        Seq::empty()
    } else {
        match position(body, delim, start) {
            Some(next) if start <= next < body.len() => {
                let rest = parts_from(body, delim, next);
                match part_in(body.subrange(start, next)) {
                    Some(p) => seq![p] + rest,
                    None => rest,
                }
            },
            _ => Seq::empty(),
        }
    }
}

/// The delimiter that a boundary makes.
pub open spec fn delimiter(boundary: Seq<char>) -> Seq<u8> {
    encode_utf8("--"@ + boundary)
}

/// The parts of a body, in order.
pub open spec fn parts_of(body: Seq<u8>, boundary: Seq<char>) -> Seq<PartV> {
    match position(body, delimiter(boundary), 0) {
        Some(pos) => parts_from(body, delimiter(boundary), pos),
        None => Seq::empty(),
    }
}

/// What stands between two delimiters, without the line ends next to them.
fn unframe(raw: &[u8]) -> (r: &[u8])
    ensures
        r@ == unframed(raw@),
{
    let end: [u8; 2] = [13, 10];
    proof {
        assert(end@ =~= crlf());
    }
    let r = if stands_at(raw, end.as_slice(), 0) {
        vstd::slice::slice_subrange(raw, 2, raw.len())
    } else {
        raw
    };
    proof {
        assert(occurs_at(raw@, crlf(), 0) == crlf().is_prefix_of(raw@));
        assert(r@ =~= if crlf().is_prefix_of(raw@) {
            raw@.skip(2)
        } else {
            raw@
        });
    }
    if r.len() >= 2 && stands_at(r, end.as_slice(), r.len() - 2) {
        vstd::slice::slice_subrange(r, 0, r.len() - 2)
    } else {
        r
    }
}

/// The part that a piece of a body holds.
fn read_part(raw: &[u8]) -> (r: Option<Part>)
    ensures
        r.deep_view() == part_in(raw@),
{
    let r = unframe(raw);
    let gap: [u8; 4] = [13, 10, 13, 10];
    proof {
        assert(gap@ =~= crlf() + crlf());
    }
    let at: usize = match find(r, gap.as_slice(), 0) {
        Some(i) => i,
        None => {
            return None;
        },
    };
    let n: usize = r.len();
    let head_text = text_lossy(vstd::slice::slice_subrange(r, 0, at));
    let head_chars = chars_of(head_text.as_str());
    let head = split_lines(head_chars.as_slice());
    let content = vstd::slice::slice_subrange(r, at + 4, n);
    let disp = match find_header(&head, "content-disposition") {
        Some(d) => d,
        None => {
            return None;
        },
    };
    let name = match disposition_param(disp.as_str(), "name") {
        Some(name) => name,
        None => {
            return None;
        },
    };
    match disposition_param(disp.as_str(), "filename") {
        Some(filename) => Some(
            Part::File {
                name,
                filename,
                content_type: find_header(&head, "content-type"),
                bytes: content.len(),
            },
        ),
        None => Some(Part::Field { name, value: text_lossy(content) }),
    }
}

/// A delimiter is never empty.
proof fn lemma_delimiter(boundary: Seq<char>)
    ensures
        delimiter(boundary).len() > 0,
{
    reveal_strlit("--");
    let s = "--"@ + boundary;
    assert(s.len() > 0);
    if encode_utf8(s).len() == 0 {
        assert(encode_utf8(s) =~= encode_utf8(Seq::empty()));
        crate::text::lemma_utf8_injective(s, Seq::empty());
    }
}

/// Parts of a multipart body, in order. Malformed parts are skipped.
pub fn parse(body: &[u8], boundary: &str) -> (r: Vec<Part>)
    ensures
        r.deep_view() == parts_of(body@, boundary@),
{
    let mut text = "--".to_owned();
    text.append(boundary);
    let delim = text.as_str().as_bytes();
    let close: [u8; 2] = [45, 45];
    let n: usize = body.len();
    let mut parts: Vec<Part> = Vec::new();
    proof {
        lemma_delimiter(boundary@);
        assert(close@ =~= seq![45u8, 45u8]);
        assert(parts.deep_view() =~= Seq::empty());
    }
    let mut pos: usize = match find(body, delim, 0) {
        Some(p) => p,
        None => {
            return parts;
        },
    };
    let ghost whole = parts_from(body@, delim@, pos as int);
    proof {
        assert(parts.deep_view() + whole =~= whole);
    }
    loop
        invariant
            delim@ == delimiter(boundary@),
            delim@.len() > 0,
            close@ == seq![45u8, 45u8],
            n == body@.len(),
            occurs_at(body@, delim@, pos as int),
            whole == parts_of(body@, boundary@),
            parts.deep_view() + parts_from(body@, delim@, pos as int) == whole,
        ensures
            parts.deep_view() == whole,
        decreases n - pos,
    {
        let start: usize = pos + delim.len();
        let ghost before = parts.deep_view();
        if stands_at(body, close.as_slice(), start) {
            proof {
                assert(before + Seq::<PartV>::empty() =~= before);
            }
            break;
        }
        let next: usize = match find(body, delim, start) {
            Some(i) => i,
            None => {
                proof {
                    assert(before + Seq::<PartV>::empty() =~= before);
                }
                break;
            },
        };
        let raw = vstd::slice::slice_subrange(body, start, next);
        if let Some(p) = read_part(raw) {
            let ghost held = parts;
            parts.push(p);
            proof {
                lemma_deep_push(held, parts, p);
                let rest = parts_from(body@, delim@, next as int);
                assert(before.push(p.deep_view()) + rest =~= before + (seq![p.deep_view()]
                    + rest));
            }
        }
        pos = next;
    }
    parts
}

/// The value of the first text field with the given name.
pub open spec fn field_value(parts: Seq<PartV>, wanted: Seq<char>) -> Option<Seq<char>>
    decreases parts.len(),
{
    if parts.len() == 0 {
        None
    } else {
        match parts.first() {
            PartV::Field { name, value } if name == wanted => Some(value),
            _ => field_value(parts.drop_first(), wanted),
        }
    }
}

/// Value of the first text field called `wanted`.
pub fn field<'p>(parts: &'p [Part], wanted: &str) -> (r: Option<&'p str>)
    ensures
        match r {
            Some(v) => field_value(parts.deep_view(), wanted@) == Some(v@),
            None => field_value(parts.deep_view(), wanted@) is None,
        },
{
    let ghost all = parts.deep_view();
    let mut i: usize = 0;
    proof {
        assert(all.skip(0) =~= all);
    }
    while i < parts.len()
        invariant
            i <= parts@.len(),
            all == parts.deep_view(),
            field_value(all, wanted@) == field_value(all.skip(i as int), wanted@),
        decreases parts@.len() - i,
    {
        proof {
            assert(all.skip(i as int).drop_first() =~= all.skip(i + 1));
            assert(all.skip(i as int).first() == parts@[i as int].deep_view());
        }
        match &parts[i] {
            Part::Field { name, value } => {
                if str_eq(name.as_str(), wanted) {
                    return Some(value.as_str());
                }
            },
            _ => {},
        }
        i = i + 1;
    }
    None
}

/// The text fields of a form; a later field of the same name wins.
pub open spec fn form_fields(parts: Seq<PartV>) -> Map<Seq<char>, JsonV>
    decreases parts.len(),
{
    if parts.len() == 0 {
        Map::empty()
    } else {
        let before = form_fields(parts.drop_last());
        match parts.last() {
            PartV::Field { name, value } => before.insert(name, JsonV::Text(value)),
            _ => before,
        }
    }
}

/// The description of a file.
pub open spec fn file_object(
    name: Seq<char>,
    filename: Seq<char>,
    content_type: Option<Seq<char>>,
    bytes: nat,
) -> JsonV {
    JsonV::Object(
        Map::empty().insert("field"@, JsonV::Text(name)).insert(
            "filename"@,
            JsonV::Text(filename),
        ).insert(
            "content_type"@,
            match content_type {
                Some(t) => JsonV::Text(t),
                None => JsonV::Null,
            },
        ).insert("bytes"@, JsonV::Unsigned(bytes as u64)),
    )
}

/// The descriptions of the files of a form.
pub open spec fn form_files(parts: Seq<PartV>) -> Seq<JsonV>
    decreases parts.len(),
{
    if parts.len() == 0 {
        Seq::empty()
    } else {
        let before = form_files(parts.drop_last());
        match parts.last() {
            PartV::File { name, filename, content_type, bytes } => before.push(
                file_object(name, filename, content_type, bytes),
            ),
            _ => before,
        }
    }
}

/// The description of a form: its text fields as they are, its files described.
pub open spec fn description(parts: Seq<PartV>) -> JsonV {
    JsonV::Object(
        Map::empty().insert("form"@, JsonV::Object(form_fields(parts))).insert(
            "files"@,
            JsonV::Array(form_files(parts)),
        ),
    )
}

/// Query-log view of a form: text fields as they are, files described.
pub fn describe(parts: &[Part]) -> (r: Json)
    ensures
        r@ == description(parts.deep_view()),
{
    let ghost all = parts.deep_view();
    let mut form: Vec<(String, Json)> = Vec::new();
    let mut files: Vec<Json> = Vec::new();
    let mut i: usize = 0;
    proof {
        assert(files.deep_view() =~= form_files(all.take(0)));
    }
    while i < parts.len()
        invariant
            i <= parts@.len(),
            all == parts.deep_view(),
            members_view(form@) == form_fields(all.take(i as int)),
            files.deep_view() == form_files(all.take(i as int)),
        decreases parts@.len() - i,
    {
        proof {
            assert(all.take(i + 1).drop_last() =~= all.take(i as int));
            assert(all.take(i + 1).last() == parts@[i as int].deep_view());
        }
        match &parts[i] {
            Part::Field { name, value } => {
                put_member(&mut form, name.clone(), Json::Text(value.clone()));
            },
            Part::File { name, filename, content_type, bytes } => {
                let mut file: Vec<(String, Json)> = Vec::new();
                put_member(&mut file, "field".to_owned(), Json::Text(name.clone()));
                put_member(&mut file, "filename".to_owned(), Json::Text(filename.clone()));
                let kind = match content_type {
                    Some(t) => Json::Text(t.clone()),
                    None => Json::Null,
                };
                put_member(&mut file, "content_type".to_owned(), kind);
                put_member(&mut file, "bytes".to_owned(), Json::Unsigned(*bytes as u64));
                let ghost before = files;
                let object = Json::Object(file);
                files.push(object);
                proof {
                    lemma_deep_push(before, files, object);
                }
            },
        }
        i = i + 1;
    }
    proof {
        assert(all.take(i as int) =~= all);
    }
    let mut out: Vec<(String, Json)> = Vec::new();
    put_member(&mut out, "form".to_owned(), Json::Object(form));
    let list = Json::Array(files);
    proof {
        assert(crate::json::items_of(Some(list@))->0 =~= files.deep_view());
    }
    put_member(&mut out, "files".to_owned(), list);
    Json::Object(out)
}

/// A form says where its parts end: the boundary of its content type is the one that was
/// written, in quotes or not.
pub proof fn law_boundary(b: Seq<char>)
    requires
        b.len() > 0,
        forall|i: int|
            0 <= i < b.len() ==> #[trigger] b[i] != ';' && b[i] != '"' && !is_space(b[i]),
    ensures
        boundary_of("multipart/form-data; boundary="@ + b) == Some(b),
        boundary_of("multipart/form-data; boundary=\""@ + b + "\""@) == Some(b),
{
    reveal_strlit("\"");
    reveal_strlit("multipart/form-data; boundary=");
    reveal_strlit("multipart/form-data; boundary=\"");
    reveal_strlit("multipart/form-data");
    reveal_strlit("boundary");
    let none = Seq::<char>::empty();
    let q = Class::Only('"');
    let quoted = seq!['"'] + b + seq!['"'];
    lemma_boundary(b, b);
    lemma_boundary(quoted, b);
    assert("multipart/form-data; boundary="@ + b =~= form_type(b));
    assert("multipart/form-data; boundary=\""@ + b + "\""@ =~= form_type(quoted));
    law_strip_frame(none, b, none, q);
    assert(none + b + none =~= b);
    law_strip_frame(seq!['"'], b, seq!['"'], q);
}

/// The content type of a form, with the value of its boundary.
spec fn form_type(value: Seq<char>) -> Seq<char> {
    "multipart/form-data"@ + (seq![';'] + (seq![' '] + ("boundary"@ + (seq!['='] + value))))
}

/// The boundary of a content type is what is left of its value without quotes.
proof fn lemma_boundary(value: Seq<char>, b: Seq<char>)
    requires
        value.len() > 0,
        b.len() > 0,
        forall|i: int| 0 <= i < value.len() ==> #[trigger] value[i] != ';' && !is_space(value[i]),
    ensures
        strip(value, Class::Only('"')) == b ==> boundary_of(form_type(value)) == Some(b),
{
    reveal_strlit("multipart/form-data");
    reveal_strlit("boundary");
    let mime = "multipart/form-data"@;
    let key = "boundary"@;
    let none = Seq::<char>::empty();
    let body = key + (seq!['='] + value);
    let params = seq![' '] + body;
    lemma_cut(mime, ';', params);
    assert(mime.first() == 'm' && mime.last() == 'a');
    assert(key.first() == 'b' && key.last() == 'y');
    law_ascii_space('m');
    law_ascii_space('a');
    law_ascii_space('b');
    law_ascii_space('y');
    law_ascii_space(' ');
    law_strip_frame(none, mime, none, Class::Space);
    assert(none + mime + none =~= mime);
    law_same_ignoring_case(mime, mime);
    let k = Class::Only(';');
    assert forall|i: int| 0 <= i < params.len() implies !k.has(#[trigger] params[i]) by {
        if 10 <= i {
            assert(params[i] == value[i - 10]);
        }
    }
    lemma_one_piece(params, k);
    assert(body.first() == 'b' && body.last() == value[value.len() - 1]);
    law_strip_frame(seq![' '], body, none, Class::Space);
    assert(seq![' '] + body + none =~= params);
    lemma_cut(key, '=', value);
    law_strip_frame(none, key, none, Class::Space);
    assert(none + key + none =~= key);
    law_same_ignoring_case(key, key);
    assert(value.first() == value[0]);
    law_strip_frame(none, value, none, Class::Space);
    assert(none + value + none =~= value);
    if strip(value, Class::Only('"')) == b {
        assert(parameter(params, key) == Some(b));
        assert(seq![params].first() == params);
    }
}

/// A content type without parameters, or of another kind, is none of a form.
pub proof fn law_no_form(content_type: Seq<char>, mime: Seq<char>, params: Seq<char>)
    requires
        !content_type.contains(';'),
        !mime.contains(';'),
        !same_ignoring_case(strip(mime, Class::Space), "multipart/form-data"@),
    ensures
        boundary_of(content_type) is None,
        boundary_of(mime + (seq![';'] + params)) is None,
        boundary_of("application/json"@) is None,
{
    assert forall|i: int| 0 <= i < content_type.len() implies #[trigger] content_type[i]
        != ';' by {
        assert(content_type.contains(content_type[i]));
    }
    lemma_no_cut(content_type, ';');
    assert forall|i: int| 0 <= i < mime.len() implies #[trigger] mime[i] != ';' by {
        assert(mime.contains(mime[i]));
    }
    lemma_cut(mime, ';', params);
    reveal_strlit("application/json");
    lemma_no_cut("application/json"@, ';');
}

/// A field has the value that the form gives it first; files are no fields.
pub proof fn law_field_value(p: PartV, others: Seq<PartV>, wanted: Seq<char>)
    ensures
        field_value(seq![p] + others, wanted) == match p {
            PartV::Field { name, value } => if name == wanted {
                Some(value)
            } else {
                field_value(others, wanted)
            },
            PartV::File { .. } => field_value(others, wanted),
        },
        field_value(Seq::empty(), wanted) is None,
{
    assert((seq![p] + others).drop_first() =~= others);
}

/// The description of a form holds its fields and its files; a field that it gives again
/// has its last value.
pub proof fn law_description(parts: Seq<PartV>, last: PartV, key: Seq<char>)
    ensures
        member(description(parts), "form"@) == Some(JsonV::Object(form_fields(parts))),
        member(description(parts), "files"@) == Some(JsonV::Array(form_files(parts))),
        match last {
            PartV::Field { name, value } => {
                let (a, b) = (form_fields(parts), form_fields(parts.push(last)));
                &&& b.contains_key(name) && b[name] == JsonV::Text(value)
                &&& key != name ==> (b.contains_key(key) <==> a.contains_key(key))
                &&& key != name && a.contains_key(key) ==> b[key] == a[key]
                &&& form_files(parts.push(last)) == form_files(parts)
            },
            PartV::File { name, filename, content_type, bytes } => {
                &&& form_fields(parts.push(last)) == form_fields(parts)
                &&& form_files(parts.push(last)) == form_files(parts).push(
                    file_object(name, filename, content_type, bytes),
                )
            },
        },
{
    reveal_strlit("form");
    reveal_strlit("files");
    assert("form"@.len() != "files"@.len());
    assert(parts.push(last).drop_last() =~= parts);
}

/// A file is described by the field it came in, its name, its type and its size; its
/// content is not logged.
pub proof fn law_file_object(
    name: Seq<char>,
    filename: Seq<char>,
    content_type: Option<Seq<char>>,
    bytes: nat,
)
    requires
        bytes <= u64::MAX,
    ensures
        ({
            let f = file_object(name, filename, content_type, bytes);
            &&& member(f, "field"@) == Some(JsonV::Text(name))
            &&& member(f, "filename"@) == Some(JsonV::Text(filename))
            &&& content_type matches Some(t) ==> member(f, "content_type"@) == Some(JsonV::Text(t))
            &&& content_type is None ==> member(f, "content_type"@) == Some(JsonV::Null)
            &&& member(f, "bytes"@) matches Some(JsonV::Unsigned(n)) && n == bytes
        }),
{
    reveal_strlit("field");
    reveal_strlit("filename");
    reveal_strlit("content_type");
    reveal_strlit("bytes");
    assert("field"@[0] != "bytes"@[0]);
    assert("field"@.len() == 5 && "filename"@.len() == 8 && "content_type"@.len() == 12);
}

/// A parameter is its key, an equals sign and its value, which may stand in quotes; case
/// does not matter to the key. Of two with the same key the first one counts.
pub proof fn law_parameter(
    key: Seq<char>,
    wanted: Seq<char>,
    value: Seq<char>,
    rest: Seq<Seq<char>>,
)
    requires
        key.len() > 0,
        value.len() > 0,
        forall|i: int| 0 <= i < key.len() ==> #[trigger] key[i] != '=' && !is_space(key[i]),
        forall|i: int| 0 <= i < value.len() ==> #[trigger] value[i] != '"' && !is_space(value[i]),
    ensures
        ({
            let piece = key + (seq!['='] + value);
            &&& same_ignoring_case(key, wanted) ==> parameter(piece, wanted) == Some(value)
                && first_parameter(seq![piece] + rest, wanted, true) == Some(value)
            &&& !same_ignoring_case(key, wanted) ==> parameter(piece, wanted) is None
                && first_parameter(seq![piece] + rest, wanted, true) == first_parameter(
                rest,
                wanted,
                true,
            )
        }),
{
    let none = Seq::<char>::empty();
    let piece = key + (seq!['='] + value);
    assert(piece.first() == key[0] && piece.last() == value[value.len() - 1]);
    law_strip_frame(none, piece, none, Class::Space);
    assert(none + piece + none =~= piece);
    lemma_cut(key, '=', value);
    assert(key.first() == key[0] && key.last() == key[key.len() - 1]);
    assert(value.first() == value[0] && value.last() == value[value.len() - 1]);
    law_strip_frame(none, key, none, Class::Space);
    assert(none + key + none =~= key);
    law_strip_frame(none, value, none, Class::Space);
    law_strip_frame(none, value, none, Class::Only('"'));
    assert(none + value + none =~= value);
    assert((seq![piece] + rest).first() == piece);
    assert((seq![piece] + rest).drop_first() =~= rest);
}

} // verus!
