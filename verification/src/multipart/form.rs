//! Forms of text fields as bytes, and that reading one gives its fields back.
use crate::discovery::ascii_alphanumeric;
use crate::multipart::{
    crlf, delimiter, first_parameter, header_value, part_in, parts_from, parts_of, parameter,
    position, unframed, PartV,
};
use crate::text::{
    find, is_space, law_lines, law_split_round, lemma_cut, lemma_find_least, lemma_first_place,
    lemma_no_cut, lemma_one_piece, lemma_split_append, lemma_strip_nothing, lines, lossy_text, occurs_at,
    same_ignoring_case, split, split_once, strip, strip_end, strip_start, Class,
};
use vstd::prelude::*;
use vstd::string::*;
use vstd::utf8::*;

verus! {

/// The content disposition of a text field.
pub open spec fn field_disposition(name: Seq<char>) -> Seq<char> {
    "form-data; name=\""@ + name + "\""@
}

/// The header line of a text field.
pub open spec fn field_head(name: Seq<char>) -> Seq<char> {
    "Content-Disposition: "@ + field_disposition(name)
}

/// What stands behind the delimiter of a text field: its header line, an empty line
/// and its value.
pub open spec fn field_bytes(name: Seq<char>, value: Seq<char>) -> Seq<u8> {
    crlf() + (encode_utf8(field_head(name)) + (crlf() + (crlf() + (encode_utf8(value) + crlf()))))
}

/// A form of text fields: each behind a delimiter, and a closing delimiter.
pub open spec fn form_bytes(fields: Seq<(Seq<char>, Seq<char>)>, delim: Seq<u8>) -> Seq<u8>
    decreases fields.len(),
{
    if fields.len() == 0 {
        delim + (seq![45u8, 45u8] + crlf())
    } else {
        let f = fields.first();
        delim + (field_bytes(f.0, f.1) + form_bytes(fields.drop_first(), delim))
    }
}

/// The parts that text fields are read as.
pub open spec fn as_parts(fields: Seq<(Seq<char>, Seq<char>)>) -> Seq<PartV> {
    fields.map_values(|f: (Seq<char>, Seq<char>)| PartV::Field { name: f.0, value: f.1 })
}

/// Whether `pat` stands nowhere in `s`.
pub open spec fn absent<T>(s: Seq<T>, pat: Seq<T>) -> bool {
    forall|i: int| !#[trigger] occurs_at(s, pat, i)
}

/// Whether a text can be the name of a field.
pub open spec fn is_field_name(name: Seq<char>) -> bool {
    forall|i: int|
        0 <= i < name.len() ==> #[trigger] name[i] != '"' && name[i] != ';' && name[i] != '\r'
            && name[i] != '\n'
}

/// The bytes of a character: itself if it is ASCII, else none that ASCII has.
proof fn lemma_scalar_bytes(c: char)
    ensures
        c as u32 <= 0x7f ==> encode_scalar(c as u32) == seq![c as u8],
        c as u32 > 0x7f ==> forall|i: int|
            0 <= i < encode_scalar(c as u32).len() ==> #[trigger] encode_scalar(c as u32)[i] >= 128,
        encode_scalar(c as u32).len() > 0,
{
    let n = c as u32;
    char_is_scalar(c);
    assert(n <= 0x7f ==> leading_byte_width_1(n) == n as u8) by (bit_vector);
    assert(leading_byte_width_2(n) >= 128) by (bit_vector);
    assert(leading_byte_width_3(n) >= 128) by (bit_vector);
    assert(leading_byte_width_4(n) >= 128) by (bit_vector);
    assert(last_continuation_byte(n) >= 128) by (bit_vector);
    assert(second_last_continuation_byte(n) >= 128) by (bit_vector);
    assert(third_last_continuation_byte(n) >= 128) by (bit_vector);
}

/// ASCII characters with the same byte are the same.
proof fn lemma_ascii_bytes(a: char, b: char)
    requires
        a as u32 <= 0x7f,
        b as u32 <= 0x7f,
        a as u8 == b as u8,
    ensures
        a == b,
        '\0' <= a <= '\u{7f}',
{
    let n = a as u32;
    let m = b as u32;
    assert(n == m) by (bit_vector)
        requires
            n <= 0x7f,
            m <= 0x7f,
            n as u8 == m as u8,
    ;
}

/// Where the bytes of an ASCII text start the bytes of a text, it starts that text.
proof fn lemma_encoded_prefix(s: Seq<char>, d: Seq<char>)
    requires
        is_ascii_chars(d),
        encode_utf8(d).is_prefix_of(encode_utf8(s)),
    ensures
        d.is_prefix_of(s),
    decreases d.len(),
{
    if d.len() > 0 {
        let c = d[0];
        assert('\0' <= c <= '\u{7f}');
        lemma_scalar_bytes(c);
        let bs = encode_utf8(s);
        let bd = encode_utf8(d);
        assert(bd[0] == c as u8);
        assert(bs.subrange(0, bd.len() as int)[0] == bs[0]);
        if s.len() == 0 {
            assert(bs.len() == 0);
        } else {
            lemma_scalar_bytes(s[0]);
            assert(bs[0] == encode_scalar(s[0] as u32)[0]);
            assert(s[0] as u32 <= 0x7f);
            assert(s[0] as u8 == c as u8);
            lemma_ascii_bytes(s[0], c);
            let rd = d.drop_first();
            let rs = s.drop_first();
            assert forall|i: int| 0 <= i < rd.len() implies '\0' <= #[trigger] rd[i]
                <= '\u{7f}' by {
                assert(rd[i] == d[i + 1]);
            }
            assert(bd.skip(1) =~= encode_utf8(rd));
            assert(bs.skip(1) =~= encode_utf8(rs));
            assert(encode_utf8(rd).is_prefix_of(encode_utf8(rs))) by {
                let n = encode_utf8(rd).len() as int;
                assert forall|i: int| 0 <= i < n implies encode_utf8(rs)[i]
                    == #[trigger] encode_utf8(rd)[i] by {
                    assert(bs.subrange(0, bd.len() as int)[i + 1] == bd[i + 1]);
                    assert(bs.skip(1)[i] == bs[i + 1]);
                    assert(bd.skip(1)[i] == bd[i + 1]);
                }
                assert(encode_utf8(rs).subrange(0, n) =~= encode_utf8(rd));
            }
            lemma_encoded_prefix(rs, rd);
            assert forall|i: int| 0 <= i < d.len() implies s[i] == #[trigger] d[i] by {
                if i > 0 {
                    assert(rd[i - 1] == d[i]);
                    assert(rs.subrange(0, rd.len() as int)[i - 1] == rd[i - 1]);
                }
            }
            assert(s.subrange(0, d.len() as int) =~= d);
        }
    }
}

/// Where the bytes of an ASCII text stand in the bytes of a text, it stands in that
/// text.
proof fn lemma_encoded_at(s: Seq<char>, d: Seq<char>, i: int)
    requires
        is_ascii_chars(d),
        d.len() > 0,
        occurs_at(encode_utf8(s), encode_utf8(d), i),
    ensures
        !absent(s, d),
    decreases s.len(),
{
    is_ascii_chars_encode_utf8(d);
    let bs = encode_utf8(s);
    let bd = encode_utf8(d);
    assert(bs.subrange(i, i + bd.len())[0] == bs[i]);
    assert('\0' <= d[0] <= '\u{7f}');
    assert(bd[0] == d[0] as u8 && bd[0] < 128);
    assert(s.len() > 0);
    let first = encode_scalar(s[0] as u32);
    let rest = s.drop_first();
    lemma_scalar_bytes(s[0]);
    assert(bs == first + encode_utf8(rest));
    if i < first.len() {
        assert(bs[i] == first[i]);
        assert(first.len() == 1);
        assert(i == 0);
        lemma_encoded_prefix(s, d);
        assert(occurs_at(s, d, 0));
    } else {
        let j = i - first.len();
        assert(encode_utf8(rest).subrange(j, j + bd.len()) =~= bs.subrange(i, i + bd.len()));
        lemma_encoded_at(rest, d, j);
        let q = choose|q: int| occurs_at(rest, d, q);
        assert(s.subrange(q + 1, q + 1 + d.len()) =~= rest.subrange(q, q + d.len()));
        assert(occurs_at(s, d, q + 1));
    }
}

/// The bytes of an ASCII text stand nowhere in those of a text that it stands
/// nowhere in.
proof fn lemma_encoded_absent(s: Seq<char>, d: Seq<char>)
    requires
        is_ascii_chars(d),
        d.len() > 0,
        absent(s, d),
    ensures
        absent(encode_utf8(s), encode_utf8(d)),
{
    assert forall|i: int| !#[trigger] occurs_at(encode_utf8(s), encode_utf8(d), i) by {
        if occurs_at(encode_utf8(s), encode_utf8(d), i) {
            lemma_encoded_at(s, d, i);
        }
    }
}

/// A line end keeps what has none apart: it stands before the line end, or behind
/// it.
proof fn lemma_line_end_parts(x: Seq<u8>, y: Seq<u8>, d: Seq<u8>)
    requires
        d.len() > 0,
        forall|i: int| 0 <= i < d.len() ==> #[trigger] d[i] != 13 && d[i] != 10,
        absent(x, d),
    ensures
        forall|i: int| i < x.len() + 2 ==> !#[trigger] occurs_at(x + (crlf() + y), d, i),
        forall|i: int|
            i >= x.len() + 2 ==> (#[trigger] occurs_at(x + (crlf() + y), d, i) == occurs_at(
                y,
                d,
                i - x.len() - 2,
            )),
{
    let s = x + (crlf() + y);
    let n = x.len() as int;
    assert(s[n] == 13 && s[n + 1] == 10);
    assert forall|i: int| i < n + 2 implies !#[trigger] occurs_at(s, d, i) by {
        if occurs_at(s, d, i) {
            let w = s.subrange(i, i + d.len());
            if i + d.len() <= n {
                assert(x.subrange(i, i + d.len()) =~= w);
                assert(occurs_at(x, d, i));
            } else if i <= n {
                assert(w[n - i] == s[n]);
                assert(d[n - i] == 13);
            } else {
                assert(w[0] == s[n + 1]);
                assert(d[0] == 10);
            }
        }
    }
    assert forall|i: int| i >= n + 2 implies #[trigger] occurs_at(s, d, i) == occurs_at(
        y,
        d,
        i - n - 2,
    ) by {
        if i + d.len() <= s.len() {
            assert(s.subrange(i, i + d.len()) =~= y.subrange(i - n - 2, i - n - 2 + d.len()));
        }
    }
}

/// Quotes round a text without quotes are stripped.
proof fn lemma_unquote(name: Seq<char>)
    requires
        forall|i: int| 0 <= i < name.len() ==> #[trigger] name[i] != '"',
    ensures
        strip(seq!['"'] + (name + seq!['"']), Class::Only('"')) == name,
{
    let k = Class::Only('"');
    let tail = name + seq!['"'];
    let all = seq!['"'] + tail;
    assert(all.drop_first() =~= tail);
    if name.len() > 0 {
        assert(tail.first() == name[0]);
        assert(strip_start(tail, k) == tail);
        assert(strip_start(all, k) == tail);
        assert(tail.drop_last() =~= name);
        assert(strip_end(tail, k) == strip_end(name, k));
        assert(name[name.len() - 1] != '"');
    } else {
        assert(tail.drop_first() =~= name);
        assert(strip_start(tail, k) == strip_start(name, k));
        assert(strip_start(all, k) == name);
    }
}

/// The parameters of the disposition of a text field: its name, and no file name.
proof fn lemma_field_parameters(name: Seq<char>)
    requires
        is_field_name(name),
    ensures
        ({
            let pieces = split(field_disposition(name), Class::Only(';'));
            &&& first_parameter(pieces, "name"@, true) == Some(name)
            &&& first_parameter(pieces, "filename"@, true) is None
        }),
{
    reveal_strlit("form-data; name=\"");
    reveal_strlit("form-data");
    reveal_strlit("\"");
    reveal_strlit("name");
    reveal_strlit("filename");
    reveal_strlit(" ");
    let k = Class::Only(';');
    let kind = "form-data"@;
    let quoted = seq!['"'] + (name + seq!['"']);
    let body = "name"@ + (seq!['='] + quoted);
    let tail = " "@ + body;
    lemma_one_piece(kind, k);
    let cut = kind.push(';');
    assert(cut.drop_last() =~= kind);
    assert(split(cut, k) =~= seq![kind, Seq::empty()]);
    assert forall|i: int| 0 <= i < tail.len() implies !k.has(#[trigger] tail[i]) by {
        if 7 <= i < 7 + name.len() {
            assert(tail[i] == name[i - 7]);
        }
    }
    lemma_split_append(cut, tail, k);
    assert(cut + tail =~= field_disposition(name));
    assert(Seq::<char>::empty() + tail =~= tail);
    let pieces = split(field_disposition(name), k);
    assert(pieces =~= seq![kind, tail]);
    let rest = pieces.drop_first();
    assert(rest =~= seq![tail]);
    // The kind is no parameter.
    lemma_strip_nothing(kind);
    lemma_no_cut(kind, '=');
    assert(parameter(kind, "name"@) is None);
    assert(parameter(kind, "filename"@) is None);
    // The name is one.
    assert(body.first() == 'n' && body.last() == '"');
    lemma_strip_nothing(body);
    lemma_cut("name"@, '=', quoted);
    lemma_strip_nothing("name"@);
    lemma_strip_nothing(quoted);
    lemma_unquote(name);
    assert(parameter(tail, "name"@) == Some(name));
    assert(parameter(tail, "filename"@) is None) by {
        let low = |c: char| crate::text::lower(c);
        assert("name"@.map_values(low).len() != "filename"@.map_values(low).len());
    }
    assert(rest.first() == tail);
    assert(rest.drop_first() =~= Seq::empty());
    assert(first_parameter(rest.drop_first(), "filename"@, true) is None);
    assert(first_parameter(rest, "filename"@, true) is None);
    assert(first_parameter(rest, "name"@, true) == Some(name));
}

/// The header line of a text field gives its disposition.
proof fn lemma_field_header(name: Seq<char>)
    requires
        is_field_name(name),
    ensures
        lines(field_head(name)) == seq![field_head(name)],
        header_value(seq![field_head(name)], "content-disposition"@) == Some(
            field_disposition(name),
        ),
{
    reveal_strlit("Content-Disposition: ");
    reveal_strlit("Content-Disposition");
    reveal_strlit("content-disposition");
    reveal_strlit("form-data; name=\"");
    reveal_strlit("\"");
    reveal_strlit(" ");
    let head = field_head(name);
    let disp = field_disposition(name);
    let key = "Content-Disposition"@;
    let k = Class::Only('\n');
    assert forall|i: int| 0 <= i < head.len() implies !k.has(#[trigger] head[i]) by {
        if 38 <= i < 38 + name.len() {
            assert(head[i] == name[i - 38]);
        }
    }
    lemma_one_piece(head, k);
    assert(seq![head].drop_last() =~= Seq::empty());
    assert(lines(head) =~= seq![head]);
    lemma_cut(key, ':', " "@ + disp);
    assert(head =~= key + (seq![':'] + (" "@ + disp)));
    lemma_strip_nothing(key);
    assert(same_ignoring_case(key, "content-disposition"@)) by {
        let low = |c: char| crate::text::lower(c);
        assert(key.map_values(low) =~= "content-disposition"@.map_values(low));
    }
    assert(disp.first() == 'f' && disp.last() == '"');
    lemma_strip_nothing(disp);
    assert(seq![head].first() == head);
}

/// A delimiter has no line ends and stands nowhere in the header line of a field
/// whose name it does not stand in.
proof fn lemma_head_absent(name: Seq<char>, boundary: Seq<char>)
    requires
        is_field_name(name),
        absent(name, "--"@ + boundary),
        forall|i: int| 0 <= i < boundary.len() ==> ascii_alphanumeric(#[trigger] boundary[i]),
    ensures
        absent(field_head(name), "--"@ + boundary),
{
    reveal_strlit("--");
    reveal_strlit("Content-Disposition: ");
    reveal_strlit("form-data; name=\"");
    reveal_strlit("\"");
    let head = field_head(name);
    let d = "--"@ + boundary;
    assert forall|i: int| !#[trigger] occurs_at(head, d, i) by {
        if occurs_at(head, d, i) {
            let w = head.subrange(i, i + d.len());
            assert(w[0] == head[i] && w[1] == head[i + 1]);
            assert(d[0] == '-' && d[1] == '-');
            assert(i >= 38);
            let end = 38 + name.len();
            if i + d.len() <= end {
                assert(name.subrange(i - 38, i - 38 + d.len()) =~= w);
                assert(occurs_at(name, d, i - 38));
            } else {
                assert(head[end as int] == '"');
                assert(w[end - i] == d[end - i]);
                if end - i >= 2 {
                    assert(ascii_alphanumeric(boundary[end - i - 2]));
                }
            }
        }
    }
}

/// The bytes of a text without carriage returns have none.
proof fn lemma_no_return(s: Seq<char>)
    requires
        forall|i: int| 0 <= i < s.len() ==> #[trigger] s[i] != '\r',
    ensures
        forall|i: int| 0 <= i < encode_utf8(s).len() ==> #[trigger] encode_utf8(s)[i] != 13,
{
    let d = seq!['\r'];
    let bytes = encode_utf8(s);
    is_ascii_chars_encode_utf8(d);
    assert(encode_utf8(d) =~= seq![13u8]) by {
        assert(d[0] as u8 == 13);
    }
    assert(absent(s, d)) by {
        assert forall|i: int| !#[trigger] occurs_at(s, d, i) by {
            if occurs_at(s, d, i) {
                assert(s.subrange(i, i + 1)[0] == s[i]);
            }
        }
    }
    lemma_encoded_absent(s, d);
    assert forall|i: int| 0 <= i < bytes.len() implies #[trigger] bytes[i] != 13 by {
        assert(!occurs_at(bytes, encode_utf8(d), i));
        assert(bytes.subrange(i, i + 1) =~= seq![bytes[i]]);
    }
}

/// Without the line ends next to the delimiters, a text field is its header line, an
/// empty line and its value.
proof fn lemma_field_unframed(name: Seq<char>, value: Seq<char>)
    ensures
        unframed(field_bytes(name, value)) == encode_utf8(field_head(name)) + ((crlf() + crlf())
            + encode_utf8(value)),
{
    let raw = field_bytes(name, value);
    let r = encode_utf8(field_head(name)) + ((crlf() + crlf()) + encode_utf8(value));
    let end = crlf();
    let framed = r + end;
    assert(raw =~= end + framed);
    assert(raw.subrange(0, 2) =~= end);
    assert(end.is_prefix_of(raw));
    assert(raw.skip(2) =~= framed);
    assert(framed.subrange(framed.len() - 2, framed.len() as int) =~= end);
    assert(end.is_suffix_of(framed));
    assert(framed.take(framed.len() - 2) =~= r);
}

/// The header line of a text field has no carriage return.
proof fn lemma_head_return(name: Seq<char>)
    requires
        is_field_name(name),
    ensures
        forall|i: int|
            0 <= i < encode_utf8(field_head(name)).len() ==> #[trigger] encode_utf8(
                field_head(name),
            )[i] != 13,
{
    reveal_strlit("Content-Disposition: ");
    reveal_strlit("form-data; name=\"");
    reveal_strlit("\"");
    let head = field_head(name);
    assert forall|i: int| 0 <= i < head.len() implies #[trigger] head[i] != '\r' by {
        if 38 <= i < 38 + name.len() {
            assert(head[i] == name[i - 38]);
        }
    }
    lemma_no_return(head);
}

/// The empty line of a text field stands behind its header line.
proof fn lemma_field_gap(head: Seq<u8>, content: Seq<u8>)
    requires
        forall|i: int| 0 <= i < head.len() ==> #[trigger] head[i] != 13,
    ensures
        ({
            let r = head + ((crlf() + crlf()) + content);
            &&& position(r, crlf() + crlf(), 0) == Some(head.len() as int)
            &&& r.take(head.len() as int) == head
            &&& r.skip(head.len() as int + 4) == content
        }),
{
    let gap = crlf() + crlf();
    let r = head + (gap + content);
    let n = head.len() as int;
    assert(r.subrange(n, n + 4) =~= gap);
    assert forall|i: int| 0 <= i < n implies !#[trigger] occurs_at(r, gap, i) by {
        if occurs_at(r, gap, i) {
            assert(r.subrange(i, i + 4)[0] == head[i]);
        }
    }
    lemma_first_place(r, gap, 0, n);
    assert(r.take(n) =~= head);
    assert(r.skip(n + 4) =~= content);
}

/// What stands behind the delimiter of a text field is read as that field.
proof fn lemma_field_read(name: Seq<char>, value: Seq<char>)
    requires
        is_field_name(name),
    ensures
        part_in(field_bytes(name, value)) == Some(PartV::Field { name, value }),
{
    let head = encode_utf8(field_head(name));
    let content = encode_utf8(value);
    lemma_field_unframed(name, value);
    lemma_head_return(name);
    lemma_field_gap(head, content);
    encode_utf8_valid_utf8(field_head(name));
    encode_utf8_decode_utf8(field_head(name));
    encode_utf8_valid_utf8(value);
    encode_utf8_decode_utf8(value);
    assert(lossy_text(head) == field_head(name));
    assert(lossy_text(content) == value);
    lemma_field_header(name);
    lemma_field_parameters(name);
}

/// Behind a delimiter, the next one is that of the next field.
proof fn lemma_next_delimiter(name: Seq<char>, value: Seq<char>, rest: Seq<u8>, boundary: Seq<char>)
    requires
        is_field_name(name),
        absent(name, "--"@ + boundary),
        absent(value, "--"@ + boundary),
        forall|i: int| 0 <= i < boundary.len() ==> ascii_alphanumeric(#[trigger] boundary[i]),
        occurs_at(rest, delimiter(boundary), 0),
    ensures
        ({
            let s = field_bytes(name, value) + rest;
            let n = field_bytes(name, value).len() as int;
            &&& occurs_at(s, delimiter(boundary), n)
            &&& forall|i: int| i < n ==> !#[trigger] occurs_at(s, delimiter(boundary), i)
        }),
{
    let text = "--"@ + boundary;
    let d = delimiter(boundary);
    lemma_delimiter_bytes(boundary);
    lemma_head_absent(name, boundary);
    lemma_encoded_absent(field_head(name), text);
    lemma_encoded_absent(value, text);
    let empty = Seq::<u8>::empty();
    let head = encode_utf8(field_head(name));
    let content = encode_utf8(value);
    let s4 = content + (crlf() + rest);
    let s3 = empty + (crlf() + s4);
    let s2 = head + (crlf() + s3);
    let s1 = empty + (crlf() + s2);
    assert(absent(empty, d));
    lemma_line_end_parts(content, rest, d);
    lemma_line_end_parts(empty, s4, d);
    lemma_line_end_parts(head, s3, d);
    lemma_line_end_parts(empty, s2, d);
    let f = field_bytes(name, value);
    let s = f + rest;
    let n = f.len() as int;
    assert(s =~= s1);
    assert forall|i: int| i < n implies !#[trigger] occurs_at(s, d, i) by {
        if i >= 2 {
            let i2 = i - 2;
            assert(occurs_at(s1, d, i) == occurs_at(s2, d, i2));
            if i2 >= head.len() + 2 {
                let i3 = i2 - head.len() - 2;
                assert(occurs_at(s2, d, i2) == occurs_at(s3, d, i3));
                if i3 >= 2 {
                    assert(occurs_at(s3, d, i3) == occurs_at(s4, d, i3 - 2));
                    assert(!occurs_at(s4, d, i3 - 2));
                }
            }
        }
    }
    assert(s.subrange(n, n + d.len()) =~= rest.subrange(0, d.len() as int));
}

/// A delimiter is ASCII, not empty, and has no line ends.
proof fn lemma_delimiter_bytes(boundary: Seq<char>)
    requires
        forall|i: int| 0 <= i < boundary.len() ==> ascii_alphanumeric(#[trigger] boundary[i]),
    ensures
        is_ascii_chars("--"@ + boundary),
        delimiter(boundary).len() == 2 + boundary.len(),
        forall|i: int|
            0 <= i < delimiter(boundary).len() ==> #[trigger] delimiter(boundary)[i] != 13
                && delimiter(boundary)[i] != 10,
{
    reveal_strlit("--");
    let text = "--"@ + boundary;
    assert forall|i: int| 0 <= i < text.len() implies '\0' <= #[trigger] text[i] <= '\u{7f}' by {
        if i >= 2 {
            assert(ascii_alphanumeric(boundary[i - 2]));
            lemma_ascii_bytes(text[i], text[i]);
        } else {
            assert(text[i] == '-');
        }
    }
    is_ascii_chars_encode_utf8(text);
    assert forall|i: int|
        0 <= i < delimiter(boundary).len() implies #[trigger] delimiter(boundary)[i] != 13
        && delimiter(boundary)[i] != 10 by {
        assert(text[i] as u8 == delimiter(boundary)[i]);
        if i >= 2 {
            assert(ascii_alphanumeric(boundary[i - 2]));
        }
    }
}

/// A form starts with a delimiter.
proof fn lemma_form_start(fields: Seq<(Seq<char>, Seq<char>)>, delim: Seq<u8>)
    ensures
        occurs_at(form_bytes(fields, delim), delim, 0),
{
    let all = form_bytes(fields, delim);
    assert(all.subrange(0, delim.len() as int) =~= delim);
}

/// Whether text fields can be told apart in a form with a boundary.
pub open spec fn are_fields(fields: Seq<(Seq<char>, Seq<char>)>, boundary: Seq<char>) -> bool {
    forall|i: int|
        0 <= i < fields.len() ==> is_field_name((#[trigger] fields[i]).0) && absent(
            fields[i].0,
            "--"@ + boundary,
        ) && absent(fields[i].1, "--"@ + boundary)
}

/// What is found first in some bytes is found first behind others.
proof fn lemma_behind(pre: Seq<u8>, raw: Seq<u8>, rest: Seq<u8>, d: Seq<u8>)
    requires
        occurs_at(raw + rest, d, raw.len() as int),
        forall|i: int| i < raw.len() ==> !#[trigger] occurs_at(raw + rest, d, i),
    ensures
        ({
            let body = pre + (raw + rest);
            let next = (pre.len() + raw.len()) as int;
            &&& find(body, d, pre.len() as int) == Some(next)
            &&& next + d.len() <= body.len()
            &&& body.subrange(pre.len() as int, next) == raw
        }),
{
    let tail = raw + rest;
    let body = pre + tail;
    let start = pre.len() as int;
    let next = start + raw.len();
    assert forall|i: int| i >= start implies #[trigger] occurs_at(body, d, i) == occurs_at(
        tail,
        d,
        i - start,
    ) by {
        if i + d.len() <= body.len() {
            assert(body.subrange(i, i + d.len()) =~= tail.subrange(i - start, i - start + d.len()));
        }
    }
    assert forall|i: int| start <= i < next implies !#[trigger] occurs_at(body, d, i) by {
        assert(!occurs_at(tail, d, i - start));
    }
    assert(occurs_at(tail, d, next - start));
    lemma_first_place(body, d, start, next);
    assert(body.subrange(start, next) =~= raw);
}

/// The fields behind the first can be told apart as well.
proof fn lemma_other_fields(fields: Seq<(Seq<char>, Seq<char>)>, boundary: Seq<char>)
    requires
        fields.len() > 0,
        are_fields(fields, boundary),
    ensures
        are_fields(fields.drop_first(), boundary),
        as_parts(fields) == seq![PartV::Field { name: fields[0].0, value: fields[0].1 }] + as_parts(
            fields.drop_first(),
        ),
{
    let others = fields.drop_first();
    assert forall|i: int| 0 <= i < others.len() implies is_field_name((#[trigger] others[i]).0)
        && absent(others[i].0, "--"@ + boundary) && absent(others[i].1, "--"@ + boundary) by {
        assert(others[i] == fields[i + 1]);
    }
    assert(as_parts(fields) =~= seq![PartV::Field { name: fields[0].0, value: fields[0].1 }]
        + as_parts(others));
}

/// Behind other bytes, a closing delimiter ends a form.
proof fn lemma_form_end(pre: Seq<u8>, d: Seq<u8>)
    ensures
        parts_from(pre + (d + (seq![45u8, 45u8] + crlf())), d, pre.len() as int) == Seq::<
            PartV,
        >::empty(),
{
    let body = pre + (d + (seq![45u8, 45u8] + crlf()));
    let start: int = (pre.len() + d.len()) as int;
    assert(body.subrange(start, start + 2) =~= seq![45u8, 45u8]);
}

/// Behind other bytes, a form is read from the delimiter of its first field on as
/// that field, and what the delimiter of the next leads to.
proof fn lemma_form_step(
    pre: Seq<u8>,
    name: Seq<char>,
    value: Seq<char>,
    rest: Seq<u8>,
    boundary: Seq<char>,
)
    requires
        forall|i: int| 0 <= i < boundary.len() ==> ascii_alphanumeric(#[trigger] boundary[i]),
        is_field_name(name),
        absent(name, "--"@ + boundary),
        absent(value, "--"@ + boundary),
        occurs_at(rest, delimiter(boundary), 0),
    ensures
        ({
            let d = delimiter(boundary);
            let front = pre + d + field_bytes(name, value);
            parts_from(front + rest, d, pre.len() as int) == seq![PartV::Field { name, value }]
                + parts_from(front + rest, d, front.len() as int)
        }),
{
    let d = delimiter(boundary);
    let raw = field_bytes(name, value);
    let front = pre + d + raw;
    let body = front + rest;
    lemma_delimiter_bytes(boundary);
    lemma_next_delimiter(name, value, rest, boundary);
    lemma_behind(pre + d, raw, rest, d);
    assert(body =~= (pre + d) + (raw + rest));
    lemma_field_read(name, value);
    let start: int = (pre.len() + d.len()) as int;
    assert(raw[0] == 13);
    assert(body.subrange(start, start + 2)[0] == 13);
    assert(!occurs_at(body, seq![45u8, 45u8], start));
    assert(position(body, d, start) == Some(front.len() as int));
}

/// Behind other bytes, a form is read from its first delimiter on as its fields.
proof fn lemma_form_read(
    pre: Seq<u8>,
    fields: Seq<(Seq<char>, Seq<char>)>,
    boundary: Seq<char>,
)
    requires
        forall|i: int| 0 <= i < boundary.len() ==> ascii_alphanumeric(#[trigger] boundary[i]),
        are_fields(fields, boundary),
    ensures
        parts_from(
            pre + form_bytes(fields, delimiter(boundary)),
            delimiter(boundary),
            pre.len() as int,
        ) == as_parts(fields),
    decreases fields.len(),
{
    let d = delimiter(boundary);
    if fields.len() == 0 {
        lemma_form_end(pre, d);
        assert(as_parts(fields) =~= Seq::empty());
    } else {
        let f = fields[0];
        let others = fields.drop_first();
        let rest = form_bytes(others, d);
        let front = pre + d + field_bytes(f.0, f.1);
        lemma_other_fields(fields, boundary);
        lemma_form_start(others, d);
        lemma_form_step(pre, f.0, f.1, rest, boundary);
        lemma_form_read(front, others, boundary);
        assert(pre + form_bytes(fields, d) =~= front + rest);
    }
}

/// Reading a form of text fields gives its fields back, in order, with their values
/// unchanged, be they empty, of several lines or ending in a line end.
pub proof fn law_form_read_back(fields: Seq<(Seq<char>, Seq<char>)>, boundary: Seq<char>)
    requires
        boundary.len() > 0,
        forall|i: int| 0 <= i < boundary.len() ==> ascii_alphanumeric(#[trigger] boundary[i]),
        are_fields(fields, boundary),
    ensures
        parts_of(form_bytes(fields, delimiter(boundary)), boundary) == as_parts(fields),
{
    let d = delimiter(boundary);
    let body = form_bytes(fields, d);
    let empty = Seq::<u8>::empty();
    lemma_delimiter_bytes(boundary);
    lemma_form_start(fields, d);
    lemma_first_place(body, d, 0, 0);
    lemma_form_read(empty, fields, boundary);
    assert(empty + body =~= body);
}

/// The content disposition of a file.
pub open spec fn file_disposition(name: Seq<char>, filename: Seq<char>) -> Seq<char> {
    field_disposition(name) + "; filename=\""@ + filename + "\""@
}

/// The header lines of a file.
pub open spec fn file_head(name: Seq<char>, filename: Seq<char>, kind: Seq<char>) -> Seq<char> {
    "Content-Disposition: "@ + file_disposition(name, filename) + "\r\n"@ + ("Content-Type: "@
        + kind)
}

/// What stands behind the delimiter of a file: its header lines, an empty line and its
/// content.
pub open spec fn file_bytes(
    name: Seq<char>,
    filename: Seq<char>,
    kind: Seq<char>,
    content: Seq<u8>,
) -> Seq<u8> {
    crlf() + (encode_utf8(file_head(name, filename, kind)) + ((crlf() + crlf()) + content) + crlf())
}

/// The first parameter of two lists of pieces.
proof fn lemma_first_parameter(a: Seq<Seq<char>>, b: Seq<Seq<char>>, key: Seq<char>, empty: bool)
    ensures
        first_parameter(a + b, key, empty) == if first_parameter(a, key, empty) is Some {
            first_parameter(a, key, empty)
        } else {
            first_parameter(b, key, empty)
        },
    decreases a.len(),
{
    if a.len() > 0 {
        lemma_first_parameter(a.drop_first(), b, key, empty);
        assert((a + b).first() == a.first());
        assert((a + b).drop_first() =~= a.drop_first() + b);
    } else {
        assert(a + b =~= b);
    }
}

/// The parameters of the disposition of a file: its name and its file name.
proof fn lemma_file_parameters(name: Seq<char>, filename: Seq<char>)
    requires
        is_field_name(name),
        is_field_name(filename),
    ensures
        ({
            let pieces = split(file_disposition(name, filename), Class::Only(';'));
            &&& first_parameter(pieces, "name"@, true) == Some(name)
            &&& first_parameter(pieces, "filename"@, true) == Some(filename)
        }),
{
    reveal_strlit("; filename=\"");
    reveal_strlit("\"");
    reveal_strlit("name");
    reveal_strlit("filename");
    reveal_strlit(" ");
    let k = Class::Only(';');
    let quoted = seq!['"'] + (filename + seq!['"']);
    let body = "filename"@ + (seq!['='] + quoted);
    let tail = " "@ + body;
    let first = field_disposition(name);
    assert(file_disposition(name, filename) =~= first + seq![';'] + tail);
    law_split_round(first, ';', tail, k);
    assert forall|i: int| 0 <= i < tail.len() implies !k.has(#[trigger] tail[i]) by {
        if 11 <= i < 11 + filename.len() {
            assert(tail[i] == filename[i - 11]);
        }
    }
    lemma_one_piece(tail, k);
    let one = seq![tail];
    lemma_field_parameters(name);
    lemma_first_parameter(split(first, k), one, "name"@, true);
    lemma_first_parameter(split(first, k), one, "filename"@, true);
    assert(body.first() == 'f' && body.last() == '"');
    lemma_strip_nothing(body);
    lemma_cut("filename"@, '=', quoted);
    lemma_strip_nothing("filename"@);
    lemma_strip_nothing(quoted);
    lemma_unquote(filename);
    assert(parameter(tail, "filename"@) == Some(filename));
    assert(one.first() == tail);
}

/// The header lines of a file give its disposition and its type.
proof fn lemma_file_header(name: Seq<char>, filename: Seq<char>, kind: Seq<char>)
    requires
        is_field_name(name),
        is_field_name(filename),
        is_type(kind),
    ensures
        ({
            let rows = lines(file_head(name, filename, kind));
            &&& header_value(rows, "content-disposition"@) == Some(
                file_disposition(name, filename),
            )
            &&& header_value(rows, "content-type"@) == Some(kind)
        }),
{
    reveal_strlit("Content-Disposition: ");
    reveal_strlit("Content-Disposition");
    reveal_strlit("content-disposition");
    reveal_strlit("Content-Type: ");
    reveal_strlit("Content-Type");
    reveal_strlit("content-type");
    reveal_strlit("\r\n");
    reveal_strlit(" ");
    let disp = file_disposition(name, filename);
    let (one, two) = ("Content-Disposition: "@ + disp, "Content-Type: "@ + kind);
    let (a, b) = ("Content-Disposition"@, "Content-Type"@);
    lemma_disposition(name, filename);
    let cut = one.push('\r');
    assert(!cut.contains('\n')) by {
        assert forall|i: int| 0 <= i < cut.len() implies #[trigger] cut[i] != '\n' by {
            if 21 <= i < 21 + disp.len() {
                assert(cut[i] == disp[i - 21]);
            }
        }
    }
    assert(!two.contains('\n')) by {
        assert forall|i: int| 0 <= i < two.len() implies #[trigger] two[i] != '\n' by {
            if 14 <= i {
                assert(two[i] == kind[i - 14]);
            }
        }
    }
    assert(file_head(name, filename, kind) =~= cut + seq!['\n'] + two);
    law_lines(cut, two);
    law_lines(two, Seq::empty());
    assert(cut.drop_last() =~= one);
    let rows = seq![one] + seq![two];
    assert(lines(file_head(name, filename, kind)) == rows);
    assert(rows.first() == one);
    assert(rows.drop_first() =~= seq![two]);
    assert(seq![two].first() == two);
    lemma_cut(a, ':', " "@ + disp);
    assert(one =~= a + (seq![':'] + (" "@ + disp)));
    lemma_strip_nothing(a);
    lemma_strip_nothing(disp);
    let low = |c: char| crate::text::lower(c);
    assert(same_ignoring_case(a, "content-disposition"@)) by {
        assert(a.map_values(low) =~= "content-disposition"@.map_values(low));
    }
    assert(!same_ignoring_case(a, "content-type"@)) by {
        assert(a.map_values(low).len() != "content-type"@.map_values(low).len());
    }
    lemma_cut(b, ':', " "@ + kind);
    assert(two =~= b + (seq![':'] + (" "@ + kind)));
    lemma_strip_nothing(b);
    lemma_strip_nothing(kind);
    assert(same_ignoring_case(b, "content-type"@)) by {
        assert(b.map_values(low) =~= "content-type"@.map_values(low));
    }
    assert(header_value(seq![two], "content-type"@) == Some(kind));
}

/// Whether a text can be the type of a file.
pub open spec fn is_type(kind: Seq<char>) -> bool {
    &&& kind.len() > 0
    &&& !is_space(kind.first())
    &&& !is_space(kind.last())
    &&& forall|i: int| 0 <= i < kind.len() ==> #[trigger] kind[i] != '\r' && kind[i] != '\n'
}

/// The disposition of a file is one line without space at its ends.
proof fn lemma_disposition(name: Seq<char>, filename: Seq<char>)
    requires
        is_field_name(name),
        is_field_name(filename),
    ensures
        ({
            let disp = file_disposition(name, filename);
            &&& disp.len() > 0
            &&& disp.first() == 'f' && disp.last() == '"'
            &&& forall|i: int| 0 <= i < disp.len() ==> #[trigger] disp[i] != '\r' && disp[i] != '\n'
        }),
{
    reveal_strlit("form-data; name=\"");
    reveal_strlit("; filename=\"");
    reveal_strlit("\"");
    let disp = file_disposition(name, filename);
    let n = name.len() as int;
    assert forall|i: int| 0 <= i < disp.len() implies #[trigger] disp[i] != '\r' && disp[i]
        != '\n' by {
        if 17 <= i < 17 + n {
            assert(disp[i] == name[i - 17]);
        }
        if 30 + n <= i < 30 + n + filename.len() {
            assert(disp[i] == filename[i - 30 - n]);
        }
    }
}

/// The bytes of two texts are those of each.
proof fn lemma_encoded_concat(a: Seq<char>, b: Seq<char>)
    ensures
        encode_utf8(a + b) == encode_utf8(a) + encode_utf8(b),
    decreases a.len(),
{
    if a.len() > 0 {
        lemma_encoded_concat(a.drop_first(), b);
        assert((a + b).first() == a.first());
        assert((a + b).drop_first() =~= a.drop_first() + b);
        assert(encode_utf8(a + b) =~= encode_utf8(a) + encode_utf8(b));
    } else {
        assert(a + b =~= b);
        assert(encode_utf8(a) + encode_utf8(b) =~= encode_utf8(b));
    }
}

/// The empty line of a file stands behind its header lines.
proof fn lemma_file_gap(one: Seq<u8>, two: Seq<u8>, content: Seq<u8>)
    requires
        forall|i: int| 0 <= i < one.len() ==> #[trigger] one[i] != 13,
        forall|i: int| 0 <= i < two.len() ==> #[trigger] two[i] != 13,
        two.len() > 0,
    ensures
        ({
            let head = one + crlf() + two;
            let r = head + ((crlf() + crlf()) + content);
            &&& position(r, crlf() + crlf(), 0) == Some(head.len() as int)
            &&& r.take(head.len() as int) == head
            &&& r.skip(head.len() as int + 4) == content
        }),
{
    let gap = crlf() + crlf();
    let head = one + crlf() + two;
    let r = head + (gap + content);
    let n = head.len() as int;
    let m = one.len() as int;
    assert(r.subrange(n, n + 4) =~= gap);
    assert forall|i: int| 0 <= i < n implies !#[trigger] occurs_at(r, gap, i) by {
        if occurs_at(r, gap, i) {
            let s = r.subrange(i, i + 4);
            assert(s[0] == r[i] && s[2] == r[i + 2]);
            assert(gap[0] == 13 && gap[2] == 13);
            if i < m {
                assert(r[i] == one[i]);
            } else if i == m {
                assert(r[i + 2] == two[0]);
            } else if i == m + 1 {
                assert(r[i] == 10);
            } else {
                assert(r[i] == two[i - m - 2]);
            }
        }
    }
    lemma_first_place(r, gap, 0, n);
    assert(r.take(n) =~= head);
    assert(r.skip(n + 4) =~= content);
}

/// What stands behind the delimiter of a file is read as that file, with its name, its
/// file name, its type and the size of its content, whatever the content is.
pub proof fn law_file_read_back(
    name: Seq<char>,
    filename: Seq<char>,
    kind: Seq<char>,
    content: Seq<u8>,
)
    requires
        is_field_name(name),
        is_field_name(filename),
        is_type(kind),
    ensures
        part_in(file_bytes(name, filename, kind, content)) == Some(
            PartV::File { name, filename, content_type: Some(kind), bytes: content.len() },
        ),
{
    let text = file_head(name, filename, kind);
    let head = encode_utf8(text);
    let disp = file_disposition(name, filename);
    let (one, two) = ("Content-Disposition: "@ + disp, "Content-Type: "@ + kind);
    reveal_strlit("Content-Disposition: ");
    reveal_strlit("Content-Type: ");
    reveal_strlit("\r\n");
    lemma_disposition(name, filename);
    assert forall|i: int| 0 <= i < one.len() implies #[trigger] one[i] != '\r' by {
        if 21 <= i {
            assert(one[i] == disp[i - 21]);
        }
    }
    assert forall|i: int| 0 <= i < two.len() implies #[trigger] two[i] != '\r' by {
        if 14 <= i {
            assert(two[i] == kind[i - 14]);
        }
    }
    lemma_no_return(one);
    lemma_no_return(two);
    lemma_encoded_concat(one, "\r\n"@);
    lemma_encoded_concat(one + "\r\n"@, two);
    is_ascii_chars_encode_utf8("\r\n"@);
    assert("\r\n"@[0] as u8 == 13 && "\r\n"@[1] as u8 == 10);
    assert(encode_utf8("\r\n"@) =~= crlf());
    assert(text =~= one + "\r\n"@ + two);
    assert(head == encode_utf8(one) + crlf() + encode_utf8(two));
    assert(encode_utf8(two).len() > 0) by {
        lemma_scalar_bytes(two[0]);
    }
    lemma_file_gap(encode_utf8(one), encode_utf8(two), content);
    let r = head + ((crlf() + crlf()) + content);
    let raw = file_bytes(name, filename, kind, content);
    let framed = r + crlf();
    assert(raw =~= crlf() + framed);
    assert(raw.subrange(0, 2) =~= crlf());
    assert(raw.skip(2) =~= framed);
    assert(framed.subrange(framed.len() - 2, framed.len() as int) =~= crlf());
    assert(framed.take(framed.len() - 2) =~= r);
    assert(unframed(raw) == r);
    encode_utf8_valid_utf8(text);
    encode_utf8_decode_utf8(text);
    assert(lossy_text(head) == text);
    lemma_file_header(name, filename, kind);
    lemma_file_parameters(name, filename);
}

/// A form of pieces: each behind a delimiter, and a closing delimiter.
pub open spec fn pieces_bytes(raws: Seq<Seq<u8>>, delim: Seq<u8>) -> Seq<u8>
    decreases raws.len(),
{
    if raws.len() == 0 {
        delim + (seq![45u8, 45u8] + crlf())
    } else {
        delim + (raws.first() + pieces_bytes(raws.drop_first(), delim))
    }
}

/// The parts that pieces hold, in order.
pub open spec fn parts_in(raws: Seq<Seq<u8>>) -> Seq<PartV>
    decreases raws.len(),
{
    if raws.len() == 0 {
        Seq::empty()
    } else {
        match part_in(raws.first()) {
            Some(p) => seq![p] + parts_in(raws.drop_first()),
            None => parts_in(raws.drop_first()),
        }
    }
}

/// Whether a piece starts on a line of its own and ends before the next delimiter.
pub open spec fn is_piece(raw: Seq<u8>, delim: Seq<u8>) -> bool {
    crlf().is_prefix_of(raw) && forall|i: int|
        i < raw.len() ==> !#[trigger] occurs_at(raw + delim, delim, i)
}

/// Behind other bytes, pieces are read from their first delimiter on.
proof fn lemma_pieces_read(pre: Seq<u8>, raws: Seq<Seq<u8>>, d: Seq<u8>)
    requires
        d.len() > 0,
        forall|i: int| 0 <= i < raws.len() ==> is_piece(#[trigger] raws[i], d),
    ensures
        parts_from(pre + pieces_bytes(raws, d), d, pre.len() as int) == parts_in(raws),
    decreases raws.len(),
{
    if raws.len() == 0 {
        lemma_form_end(pre, d);
    } else {
        let raw = raws[0];
        let others = raws.drop_first();
        let rest = pieces_bytes(others, d);
        let front = pre + d + raw;
        let body = pre + pieces_bytes(raws, d);
        assert forall|i: int| 0 <= i < others.len() implies is_piece(#[trigger] others[i], d) by {
            assert(others[i] == raws[i + 1]);
        }
        assert(rest.take(d.len() as int) =~= d);
        let n = raw.len() as int;
        let tail = raw + rest;
        assert(tail.subrange(n, n + d.len()) =~= d);
        assert forall|i: int| i < n implies !#[trigger] occurs_at(tail, d, i) by {
            if occurs_at(tail, d, i) {
                assert((raw + d).subrange(i, i + d.len()) =~= tail.subrange(i, i + d.len()));
                assert(occurs_at(raw + d, d, i));
            }
        }
        lemma_behind(pre + d, raw, rest, d);
        assert(body =~= (pre + d) + (raw + rest));
        assert(body =~= front + rest);
        let start: int = (pre.len() + d.len()) as int;
        assert(raw.subrange(0, 2) =~= crlf());
        assert(raw[0] == raw.subrange(0, 2)[0]);
        assert(body[start] == 13);
        assert(!occurs_at(body, seq![45u8, 45u8], start)) by {
            if occurs_at(body, seq![45u8, 45u8], start) {
                assert(body.subrange(start, start + 2)[0] == body[start]);
            }
        }
        assert(position(body, d, start) == Some(front.len() as int));
        lemma_pieces_read(front, others, d);
    }
}

/// Every part of a form is read, be it a field or a file, in the order of the form; a
/// piece that holds no part is passed over.
pub proof fn law_every_part_read(raws: Seq<Seq<u8>>, boundary: Seq<char>)
    requires
        boundary.len() > 0,
        forall|i: int| 0 <= i < boundary.len() ==> ascii_alphanumeric(#[trigger] boundary[i]),
        forall|i: int| 0 <= i < raws.len() ==> is_piece(#[trigger] raws[i], delimiter(boundary)),
    ensures
        parts_of(pieces_bytes(raws, delimiter(boundary)), boundary) == parts_in(raws),
{
    let d = delimiter(boundary);
    let body = pieces_bytes(raws, d);
    let empty = Seq::<u8>::empty();
    lemma_delimiter_bytes(boundary);
    assert(body.subrange(0, d.len() as int) =~= d);
    lemma_first_place(body, d, 0, 0);
    lemma_pieces_read(empty, raws, d);
    assert(empty + body =~= body);
}

/// What stands before the first delimiter does not matter, and what no delimiter closes
/// is no part.
pub proof fn law_outside_delimiters(
    pre: Seq<u8>,
    raws: Seq<Seq<u8>>,
    raw: Seq<u8>,
    boundary: Seq<char>,
)
    requires
        boundary.len() > 0,
        forall|i: int| 0 <= i < boundary.len() ==> ascii_alphanumeric(#[trigger] boundary[i]),
        forall|i: int| 0 <= i < raws.len() ==> is_piece(#[trigger] raws[i], delimiter(boundary)),
        forall|i: int|
            i < pre.len() ==> !#[trigger] occurs_at(
                pre + delimiter(boundary),
                delimiter(boundary),
                i,
            ),
        absent(raw, delimiter(boundary)),
    ensures
        parts_of(pre + pieces_bytes(raws, delimiter(boundary)), boundary) == parts_in(raws),
        parts_of(raw, boundary).len() == 0,
{
    let d = delimiter(boundary);
    let all = pieces_bytes(raws, d);
    let body = pre + all;
    let n = pre.len() as int;
    lemma_delimiter_bytes(boundary);
    assert(all.take(d.len() as int) =~= d);
    assert(body.subrange(n, n + d.len()) =~= d);
    assert forall|i: int| 0 <= i < n implies !#[trigger] occurs_at(body, d, i) by {
        if occurs_at(body, d, i) {
            assert((pre + d).subrange(i, i + d.len()) =~= body.subrange(i, i + d.len()));
            assert(occurs_at(pre + d, d, i));
        }
    }
    lemma_first_place(body, d, 0, n);
    lemma_pieces_read(pre, raws, d);
    lemma_find_least(raw, d, 0);
    if let Some(i) = find(raw, d, 0) {
        assert(occurs_at(raw, d, i));
    }
}

} // verus!
