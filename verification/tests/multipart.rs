use hivllm::json::Json;
use hivllm::multipart::{boundary, describe, disposition_param, field, find, parse, Part};

const BODY: &[u8] = b"--XyZ\r\n\
Content-Disposition: form-data; name=\"model\"\r\n\r\n\
whisper-large\r\n\
--XyZ\r\n\
Content-Disposition: form-data; name=\"file\"; filename=\"a.wav\"\r\n\
Content-Type: audio/wav\r\n\r\n\
RIFF\x00\x01\x02--not-a-boundary\r\n\
--XyZ\r\n\
Content-Disposition: form-data; name=\"stream\"\r\n\r\n\
true\r\n\
--XyZ--\r\n";

#[test]
fn reads_boundary_fields_and_files() {
    let b = boundary("multipart/form-data; boundary=XyZ").unwrap();
    assert_eq!(boundary("multipart/form-data; boundary=\"XyZ\"").unwrap(), b);
    assert!(boundary("application/json").is_none());
    let parts = parse(BODY, &b);
    assert_eq!(field(&parts, "model"), Some("whisper-large"));
    assert_eq!(field(&parts, "stream"), Some("true"));
    assert_eq!(
        parts[1],
        Part::File {
            name: "file".into(),
            filename: "a.wav".into(),
            content_type: Some("audio/wav".into()),
            bytes: 23,
        }
    );
    let d = describe(&parts);
    assert_eq!(
        d.get("form").unwrap().get("model"),
        Some(&Json::Text("whisper-large".into()))
    );
    let files = d.get("files").unwrap().as_array().unwrap();
    assert_eq!(files[0].get("bytes"), Some(&Json::Unsigned(23)));
}

#[test]
fn garbage_yields_no_parts() {
    assert!(parse(b"no boundary here", "XyZ").is_empty());
    assert!(parse(b"--XyZ\r\nbroken", "XyZ").is_empty());
}

#[test]
fn boundaries_are_found_among_other_parameters() {
    assert_eq!(
        boundary("Multipart/Form-Data ; charset=x; BOUNDARY = \"a b\" ").as_deref(),
        Some("a b")
    );
    assert_eq!(boundary("multipart/form-data; boundary=").as_deref(), None);
    assert_eq!(boundary("multipart/form-data; boundary=; boundary=q").as_deref(), Some("q"));
    assert_eq!(boundary("multipart/form-data").as_deref(), None);
}

#[test]
fn malformed_parts_are_skipped_and_later_fields_win() {
    let body = b"--B\r\nContent-Disposition: form-data\r\n\r\nnameless\r\n\
--B\r\nno header end\r\n\
--B\r\ncontent-disposition: form-data; NAME=k\r\n\r\none\r\n\
--B\r\ncontent-disposition: form-data; name=k\r\n\r\ntwo\xff\r\n\
--B--\r\n--B\r\ncontent-disposition: form-data; name=late\r\n\r\nx\r\n--B--";
    let parts = parse(body, "B");
    assert_eq!(parts.len(), 2);
    // The first field of a name is read, the last one is described.
    assert_eq!(field(&parts, "k"), Some("one"));
    assert_eq!(field(&parts, "late"), None);
    let d = describe(&parts);
    assert_eq!(
        d.get("form").unwrap().get("k"),
        Some(&Json::Text("two\u{fffd}".into()))
    );
}

#[test]
fn needles_are_found_from_an_index_on() {
    assert_eq!(find(b"abcabc", b"bc", 0), Some(1));
    assert_eq!(find(b"abcabc", b"bc", 2), Some(4));
    assert_eq!(find(b"abcabc", b"bc", 5), None);
    assert_eq!(find(b"abcabc", b"", 0), None);
    assert_eq!(find(b"abc", b"c", 3), None);
    assert_eq!(find(b"abc", b"abcd", 0), None);
}

#[test]
fn disposition_parameters() {
    let d = "form-data; name=\"a\"; filename=\"\"";
    assert_eq!(disposition_param(d, "name").as_deref(), Some("a"));
    assert_eq!(disposition_param(d, "filename").as_deref(), Some(""));
    assert_eq!(disposition_param(d, "size"), None);
}

#[test]
fn files_without_a_type_are_described_with_null() {
    let body = b"--B\r\nContent-Disposition: form-data; name=f; filename=x\r\n\r\nab\r\n--B--";
    let d = describe(&parse(body, "B"));
    let file = &d.get("files").unwrap().as_array().unwrap()[0];
    assert_eq!(file.get("content_type"), Some(&Json::Null));
    assert_eq!(file.get("field"), Some(&Json::Text("f".into())));
    assert_eq!(file.get("filename"), Some(&Json::Text("x".into())));
    assert_eq!(file.get("bytes"), Some(&Json::Unsigned(2)));
}

#[test]
fn reading_a_form_undoes_writing_it() {
    let fields = [
        ("model", "whisper"),
        ("", ""),
        ("blank", ""),
        ("prompt", "one\r\n\r\ntwo\n\nthree -- Xy"),
        ("ends", "in a line\r\n"),
        ("a=b: \u{e9} '", "\u{2028}\"quoted\"; --X"),
    ];
    let mut body = String::new();
    for (name, value) in fields {
        body += "--XyZ\r\nContent-Disposition: form-data; name=\"";
        body += name;
        body += "\"\r\n\r\n";
        body += value;
        body += "\r\n";
    }
    body += "--XyZ--\r\n";
    let expected: Vec<Part> = fields
        .iter()
        .map(|(n, v)| Part::Field { name: n.to_string(), value: v.to_string() })
        .collect();
    assert_eq!(parse(body.as_bytes(), "XyZ"), expected);
    assert!(parse(b"--XyZ--\r\n", "XyZ").is_empty());
}
