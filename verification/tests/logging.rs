use hivllm::json::{parse, to_bytes, Json};
use hivllm::logging::archive::{
    compress_archive, is_compressed, read_archive, take_recent, ArchiveName, Rotation,
};
use hivllm::logging::stream::{feed_sse, StreamAcc};
use hivllm::logging::{extract_response, truncate_text, truncate_value, Truncate};

fn json(text: &str) -> Json {
    parse(text.as_bytes()).unwrap()
}

fn text(s: &str) -> Json {
    Json::Text(s.to_string())
}

#[test]
fn extract_keeps_content_reasoning_and_tool_calls_separate() {
    let body = json(
        r#"{
        "choices": [{
            "message": {
                "role": "assistant",
                "content": "I'll check that.",
                "reasoning": "user wants X, so I need tool Y",
                "tool_calls": [{
                    "id": "call_1", "type": "function",
                    "function": {"name": "get_weather", "arguments": "{\"city\":\"Paris\"}"}
                }]
            },
            "finish_reason": "tool_calls"
        }]
    }"#,
    );
    let r = extract_response(&body);
    assert_eq!(r.content.as_deref(), Some("I'll check that."));
    assert_eq!(r.reasoning.as_deref(), Some("user wants X, so I need tool Y"));
    assert_eq!(r.tool_calls.len(), 1);
    assert_eq!(
        r.tool_calls[0].get("function").unwrap().get("name"),
        Some(&text("get_weather"))
    );
    assert_eq!(r.finish_reason.as_deref(), Some("tool_calls"));
    assert!(r.raw.is_some());
}

#[test]
fn extract_handles_legacy_text_completions() {
    let body = json(r#"{"choices": [{"text": "hello there", "finish_reason": "length"}]}"#);
    let r = extract_response(&body);
    assert_eq!(r.content.as_deref(), Some("hello there"));
    assert!(r.reasoning.is_none());
}

#[test]
fn extract_falls_back_to_reasoning_content_and_survives_anything() {
    let r = extract_response(&json(
        r#"{"choices": [{"message": {"reasoning": 1, "reasoning_content": "hm"}}, {"text": "no"}]}"#,
    ));
    assert_eq!(r.reasoning.as_deref(), Some("hm"));
    assert_eq!(r.content, None);
    for odd in ["[]", "{}", "3", r#"{"choices": []}"#, r#"{"choices": {}}"#] {
        let r = extract_response(&json(odd));
        assert!(r.content.is_none() && r.finish_reason.is_none() && r.tool_calls.is_empty());
        assert_eq!(r.raw, Some(json(odd)));
    }
}

#[test]
fn stream_accumulator_merges_deltas() {
    let mut acc = StreamAcc::default();
    // chunk split mid-line + reasoning + split tool_calls arguments
    feed_sse(&mut acc, b"data: {\"choices\":[{\"delta\":{\"role\":\"assistant\",\"content\":\"Hi\"}}]}\n\n");
    feed_sse(&mut acc, b"data: {\"choices\":[{\"delta\":{\"reasoning\":\"think");
    feed_sse(&mut acc, b"ing\"}}]}\n");
    feed_sse(&mut acc, b"data: {\"choices\":[{\"delta\":{\"tool_calls\":[{\"index\":0,\"id\":\"c1\",\"function\":{\"name\":\"f\",\"arguments\":\"{\\\"a\\\"\"}}]}}]}\n");
    feed_sse(&mut acc, b"data: {\"choices\":[{\"delta\":{\"tool_calls\":[{\"index\":0,\"function\":{\"arguments\":\":1}\"}}]}},{\"finish_reason\":null}]}\n");
    feed_sse(&mut acc, b"data: {\"choices\":[{\"delta\":{},\"finish_reason\":\"tool_calls\"}]}\n");
    feed_sse(&mut acc, b"data: [DONE]\n");
    let s = acc.summary();
    assert_eq!(s.content, "Hi");
    assert_eq!(s.reasoning, "thinking");
    assert_eq!(s.tool_calls.len(), 1);
    assert_eq!(s.tool_calls[0].get("id"), Some(&text("c1")));
    assert_eq!(
        s.tool_calls[0].get("function").unwrap().get("arguments"),
        Some(&text("{\"a\":1}"))
    );
    assert_eq!(s.finish_reason.as_deref(), Some("tool_calls"));
    assert_eq!(s.chunks, 5);
    let r = s.into_response();
    assert_eq!(r.chunks, Some(5));
    assert!(r.raw.is_none());
}

const STREAM: &[u8] = "event: x\ndata: {\"choices\":[{\"delta\":{\"content\":\"h\u{e9}\",\"tool_calls\":[{\"index\":2,\"function\":{\"arguments\":\"b\"}},{\"id\":\"z\",\"function\":{\"arguments\":\"a\"}}]}}]}\r\n\ndata: nonsense\ndata:\ndata: {\"choices\":[{\"delta\":{\"content\":\"llo\",\"reasoning_content\":\"r\"},\"finish_reason\":\"stop\"}]}\n\ndata: [DONE]\n\nrest".as_bytes();

#[test]
fn chunk_boundaries_do_not_matter() {
    let mut whole = StreamAcc::default();
    feed_sse(&mut whole, STREAM);
    let whole = whole.summary();
    assert_eq!(whole.content, "héllo");
    assert_eq!(whole.reasoning, "r");
    assert_eq!(whole.chunks, 2);
    assert_eq!(whole.finish_reason.as_deref(), Some("stop"));
    // Tool calls come in the order of their index.
    assert_eq!(whole.tool_calls.len(), 2);
    assert_eq!(whole.tool_calls[0].get("id"), Some(&text("z")));
    assert_eq!(
        whole.tool_calls[1].get("function").unwrap().get("arguments"),
        Some(&text("b"))
    );
    for cut in 0..STREAM.len() {
        let mut acc = StreamAcc::default();
        feed_sse(&mut acc, &STREAM[..cut]);
        feed_sse(&mut acc, &STREAM[cut..]);
        let s = acc.summary();
        assert_eq!(s.content, whole.content);
        assert_eq!(s.reasoning, whole.reasoning);
        assert_eq!(s.tool_calls, whole.tool_calls);
        assert_eq!(s.finish_reason, whole.finish_reason);
        assert_eq!(s.chunks, whole.chunks);
    }
}

#[test]
fn empty_streams_log_no_text() {
    let mut acc = StreamAcc::default();
    acc.fail("boom".to_string());
    let s = acc.summary();
    assert_eq!(s.error.as_deref(), Some("boom"));
    let r = s.into_response();
    assert_eq!(r.content, None);
    assert_eq!(r.reasoning, None);
    assert_eq!(r.chunks, Some(0));
}

#[test]
fn truncate_chars_cuts_long_strings_only() {
    let mut long = String::new();
    for _ in 0..100 {
        long.push('x');
    }
    let v = json(&format!("{{\"short\": \"abc\", \"long\": \"{long}\"}}"));
    let t = truncate_value(v, Truncate::Chars, 10);
    assert_eq!(t.get("short"), Some(&text("abc")));
    assert!(t.get("long").unwrap().as_str().unwrap().starts_with("xxxxxxxxxx…"));
    let kept = truncate_value(json("{\"a\": 1}"), Truncate::Off, 10);
    assert_eq!(kept.get("a"), Some(&Json::Unsigned(1)));
}

#[test]
fn truncation_reaches_nested_strings_and_counts_characters() {
    assert_eq!(truncate_text("héllo", 5), "héllo");
    assert_eq!(truncate_text("héllo", 2), "hé…[truncated, 5 chars total]");
    assert_eq!(truncate_text("ab", 0), "…[truncated, 2 chars total]");
    let t = truncate_value(json(r#"{"a": ["abc", {"b": "xyz", "n": -1.5}], "long key": null}"#), Truncate::Chars, 2);
    let a = t.get("a").unwrap().as_array().unwrap();
    assert_eq!(a[0], text("ab…[truncated, 3 chars total]"));
    assert_eq!(a[1].get("b"), Some(&text("xy…[truncated, 3 chars total]")));
    assert_eq!(a[1].get("n"), json(r#"{"n": -1.5}"#).get("n"));
    assert_eq!(t.get("long key"), Some(&Json::Null));
}

#[test]
fn responses_are_truncated_field_by_field() {
    let r = extract_response(&json(
        r#"{"choices": [{"message": {"content": "abcdef", "reasoning": "ghijkl", "tool_calls": ["mnopqr"]}, "finish_reason": "stop it"}]}"#,
    ));
    let r = r.truncated(Truncate::Chars, 3);
    assert_eq!(r.content.as_deref(), Some("abc…[truncated, 6 chars total]"));
    assert_eq!(r.reasoning.as_deref(), Some("ghi…[truncated, 6 chars total]"));
    assert_eq!(r.tool_calls[0], text("mno…[truncated, 6 chars total]"));
    assert_eq!(r.finish_reason.as_deref(), Some("stop it"));
    let raw = r.raw.unwrap();
    let choice = &raw.get("choices").unwrap().as_array().unwrap()[0];
    assert_eq!(choice.get("finish_reason"), Some(&text("sto…[truncated, 7 chars total]")));
}

#[test]
fn archive_names_only_match_our_scheme() {
    let a = ArchiveName::new("/logs/q.jsonl");
    let tag = |name: &str| a.tag_of(name);
    assert_eq!(tag("q.20260924T101500.123Z.jsonl").as_deref(), Some("20260924T101500.123Z"));
    assert_eq!(
        tag("q.20260924T101500.123Z-1.jsonl.gz").as_deref(),
        Some("20260924T101500.123Z-1")
    );
    assert_eq!(tag("q.jsonl"), None); // the live file
    assert_eq!(tag("q.20260924T101500.123Z.jsonl.gz.tmp"), None);
    assert_eq!(tag("q.backup.jsonl"), None);
    assert_eq!(tag("other.20260924T101500.123Z.jsonl"), None);
    let bare = ArchiveName::new("queries");
    assert_eq!(
        bare.tag_of("queries.20260924T101500.123Z.gz").as_deref(),
        Some("20260924T101500.123Z")
    );
    // A compressed archive in the making is none yet, with or without an extension.
    assert_eq!(bare.tag_of("queries.20260924T101500.123Z.gz.tmp"), None);
    assert_eq!(a.dir, "/logs");
    assert_eq!(bare.dir, ".");
}

#[test]
fn archive_names_lead_back_to_their_tag() {
    let a = ArchiveName::new("/logs/q.jsonl");
    let (plain, gz) = a.fresh_names("20260924T101500.123Z", 0);
    assert_eq!(plain, "q.20260924T101500.123Z.jsonl");
    assert_eq!(gz, "q.20260924T101500.123Z.jsonl.gz");
    let (plain, gz) = a.fresh_names("20260924T101500.123Z", 12);
    assert_eq!(plain, "q.20260924T101500.123Z-12.jsonl");
    assert_eq!(a.tag_of(&plain).as_deref(), Some("20260924T101500.123Z-12"));
    assert_eq!(a.tag_of(&gz).as_deref(), Some("20260924T101500.123Z-12"));
    // File names with a leading dot have no extension.
    let hidden = ArchiveName::from_parts(None, Some(".log".to_string()));
    assert_eq!((hidden.stem.as_str(), hidden.ext.as_str()), (".log", ""));
    let dotted = ArchiveName::from_parts(Some(String::new()), Some("a.b.c".to_string()));
    assert_eq!((dotted.stem.as_str(), dotted.ext.as_str()), ("a.b", ".c"));
    assert_eq!(dotted.dir, ".");
}

#[test]
fn archives_are_listed_newest_first_and_pruned_oldest_first() {
    let a = ArchiveName::new("q.jsonl");
    let names: Vec<String> = [
        "q.2Z.jsonl.gz",
        "q.jsonl",
        "q.1Z.jsonl.gz",
        "q.3Z.jsonl.gz",
        "q.3Z.jsonl",
        "notes.txt",
    ]
    .iter()
    .map(|s| s.to_string())
    .collect();
    let list = a.list(&names);
    let tags: Vec<&str> = list.iter().map(|x| x.tag.as_str()).collect();
    assert_eq!(tags, vec!["3Z", "2Z", "1Z"]);
    // The plain file comes first.
    assert_eq!(list[0].files, vec!["q.3Z.jsonl".to_string(), "q.3Z.jsonl.gz".to_string()]);
    assert_eq!(
        a.prune(&names, 1),
        vec!["q.2Z.jsonl.gz".to_string(), "q.1Z.jsonl.gz".to_string()]
    );
    assert!(a.prune(&names, 3).is_empty());
    assert!(is_compressed("q.3Z.jsonl.gz") && !is_compressed("q.jsonl") && !is_compressed(".gz"));
}

#[test]
fn logs_roll_before_they_would_grow_too_large() {
    let r = Rotation { max_bytes: 300, keep: 2, compress: true };
    assert!(!r.must_roll(0, 1000));
    assert!(!r.must_roll(100, 200));
    assert!(r.must_roll(100, 201));
    assert!(r.must_roll(u64::MAX, usize::MAX));
    let never = Rotation { max_bytes: 0, keep: 0, compress: false };
    assert!(!never.must_roll(u64::MAX, 1));
}

/// A query log over files in memory, rolled by the library's decisions.
struct Files {
    archive: ArchiveName,
    rotation: Rotation,
    live: String,
    rolled: std::collections::BTreeMap<String, Vec<u8>>,
    clock: i64,
}

impl Files {
    fn new(rotation: Rotation) -> Self {
        Files {
            archive: ArchiveName::new("/logs/q.jsonl"),
            rotation,
            live: String::new(),
            rolled: Default::default(),
            clock: 1_790_244_900_123,
        }
    }

    fn names(&self) -> Vec<String> {
        let mut names: Vec<String> = self.rolled.keys().cloned().collect();
        names.push("q.jsonl".to_string());
        names
    }

    fn emit(&mut self, model: &str) {
        let line = format!("{{\"model\": \"{model}\", \"pad\": \"{}\"}}\n", "x".repeat(200));
        if self.rotation.must_roll(self.live.len() as u64, line.len()) {
            self.clock += 7;
            let (plain, gz) = self.archive.fresh_path(self.clock, 0).unwrap();
            if self.rotation.compress {
                self.rolled.insert(gz, compress_archive(self.live.as_bytes()));
            } else {
                self.rolled.insert(plain, self.live.clone().into_bytes());
            }
            self.live.clear();
            if self.rotation.keep > 0 {
                for old in self.archive.prune(&self.names(), self.rotation.keep) {
                    self.rolled.remove(&old);
                }
            }
        }
        self.live.push_str(&line);
    }

    fn recent(&self, limit: usize) -> Vec<Json> {
        let mut out = Vec::new();
        take_recent(&self.live, &mut out, limit);
        for rolled in self.archive.list(&self.names()) {
            let name = &rolled.files[0];
            let content = read_archive(name, self.rolled[name].clone()).unwrap();
            take_recent(&content, &mut out, limit);
        }
        out
    }
}

#[test]
fn rolls_compresses_prunes_and_reads_back_across_archives() {
    // Every entry overflows 300 bytes: one roll per entry.
    let mut files = Files::new(Rotation { max_bytes: 300, keep: 2, compress: true });
    for i in 0..6 {
        files.emit(&format!("m{i}"));
    }
    let names = files.names();
    assert_eq!(names.len(), 3, "{names:?}");
    assert_eq!(names.iter().filter(|n| n.ends_with(".jsonl.gz")).count(), 2);
    // Newest first: live file (m5), then the two kept archives.
    let recent = files.recent(10);
    let models: Vec<&str> =
        recent.iter().map(|v| v.get("model").unwrap().as_str().unwrap()).collect();
    assert_eq!(models, vec!["m5", "m4", "m3"]);
    assert_eq!(files.recent(2).len(), 2);
}

#[test]
fn rolling_without_compression_keeps_plain_archives() {
    let mut files = Files::new(Rotation { max_bytes: 300, keep: 0, compress: false });
    for i in 0..3 {
        files.emit(&format!("m{i}"));
    }
    let names = files.names();
    assert_eq!(names.len(), 3, "{names:?}");
    assert!(names.iter().all(|n| n.ends_with(".jsonl")), "{names:?}");
}

#[test]
fn archives_read_back_compressed_or_not() {
    let text = "{\"model\": \"m\u{e9}\"}\n".repeat(50);
    let packed = compress_archive(text.as_bytes());
    assert!(packed.len() < text.len());
    assert_eq!(packed[..2], [0x1f, 0x8b]);
    assert_eq!(read_archive("q.1Z.jsonl.gz", packed.clone()).as_deref(), Some(text.as_str()));
    assert_eq!(
        read_archive("q.1Z.jsonl", text.as_bytes().to_vec()).as_deref(),
        Some(text.as_str())
    );
    // A compressed file under a plain name is no text, and one that was cut is broken.
    assert_eq!(read_archive("q.1Z.jsonl", packed.clone()), None);
    assert_eq!(read_archive("q.1Z.jsonl.gz", packed[..packed.len() - 4].to_vec()), None);
    assert_eq!(read_archive("q.1Z.jsonl.gz", text.into_bytes()), None);
}

#[test]
fn archives_are_named_after_the_time() {
    let a = ArchiveName::new("/logs/q.jsonl");
    let (plain, gz) = a.fresh_path(1_790_244_900_123, 0).unwrap();
    assert_eq!(plain, "q.20260924T101500.123Z.jsonl");
    assert_eq!(gz, "q.20260924T101500.123Z.jsonl.gz");
    assert_eq!(a.fresh_path(0, 2).unwrap().0, "q.19700101T000000.000Z-2.jsonl");
    assert_eq!(a.fresh_path(i64::MAX, 0), None);
}

#[test]
fn recent_queries_reads_newest_first() {
    let log = "{\"model\": \"m0\"}\n{\"model\": \"m1\"}\r\n\nnot json\n{\"model\": \"m2\"}\n{\"mod";
    let mut out: Vec<Json> = Vec::new();
    take_recent(log, &mut out, 2);
    assert_eq!(out.len(), 2);
    assert_eq!(out[0].get("model"), Some(&text("m2")));
    assert_eq!(out[1].get("model"), Some(&text("m1")));
    take_recent(log, &mut out, 2);
    assert_eq!(out.len(), 2);
}

#[test]
fn json_survives_reading_and_writing() {
    let source = r#"{"a":[1,-2,3.5,18446744073709551615,null,true],"b":{"c":"x\"y"},"e":1e+300}"#;
    let v = json(source);
    assert_eq!(String::from_utf8(to_bytes(&v)).unwrap(), source);
    assert!(parse(b"{").is_none());
    assert!(parse(b"").is_none());
    assert!(parse(b"\"\xff\"").is_none());
    // Keys are written in order, and the last one of a name wins.
    let twice = json(r#"{"z": 1, "a": 2, "z": 3}"#);
    assert_eq!(to_bytes(&twice), br#"{"a":2,"z":3}"#.to_vec());
    let built = Json::Object(vec![
        ("k".to_string(), Json::Unsigned(1)),
        ("k".to_string(), Json::Unsigned(2)),
    ]);
    assert_eq!(built.get("k"), Some(&Json::Unsigned(2)));
    assert_eq!(to_bytes(&built), br#"{"k":2}"#.to_vec());
    assert_eq!(v.copy(), v);
}

#[test]
fn numbers_are_unsigned_where_they_can_be() {
    let five = Json::Other(serde_json::Number::from(5u64));
    assert_eq!(five.as_u64(), Some(5));
    assert_eq!(to_bytes(&five), b"5".to_vec());
    assert_eq!(Json::Unsigned(5).as_u64(), Some(5));
    assert_eq!(json("-5").as_u64(), None);
    assert_eq!(json("5.0").as_u64(), None);
    assert_eq!(json("18446744073709551615").as_u64(), Some(u64::MAX));
    assert_eq!(json("18446744073709551616").as_u64(), None);
}

#[test]
fn events_add_up() {
    let mut acc = StreamAcc::default();
    acc.add_event(&json(r#"{"choices": [{"delta": {"content": "a"}}, {"delta": {"content": "b"}}]}"#));
    acc.add_event(&json(r#"{"choices": 3}"#));
    let s = acc.summary();
    assert_eq!((s.content.as_str(), s.chunks), ("ab", 2));
}

#[test]
fn plain_values_read_back_as_deep_as_json_goes() {
    let nested = |n: usize| {
        let mut v = Json::Object(vec![("k".to_string(), Json::Unsigned(u64::MAX))]);
        for _ in 1..n {
            v = Json::Array(vec![v]);
        }
        v
    };
    let deep = nested(127);
    assert_eq!(parse(&to_bytes(&deep)), Some(deep));
    assert_eq!(parse(&to_bytes(&nested(128))), None);
    let odd = text("\u{0}\u{1f}\"\\/\u{7f}\u{2028}é\u{10ffff}");
    assert_eq!(parse(&to_bytes(&odd)), Some(odd));
}

#[test]
fn archives_lie_next_to_the_live_file() {
    for (live, dir, stem) in [
        ("/q.jsonl", "/", "q"),
        ("a/b/q.jsonl", "a/b", "q"),
        ("/var/log/hive/queries", "/var/log/hive", "queries"),
        ("q.jsonl", ".", "q"),
    ] {
        let a = ArchiveName::new(live);
        assert_eq!((a.dir.as_str(), a.stem.as_str()), (dir, stem), "{live}");
    }
}

#[test]
fn stamps_grow_with_time() {
    let a = ArchiveName::new("/logs/q.jsonl");
    let times = [
        0,
        1,
        999,
        1_000,
        59_999,
        60_000,
        86_399_999,
        86_400_000,
        951_782_400_000,
        1_790_244_900_123,
        253_402_300_799_999,
    ];
    let tags: Vec<String> = times
        .iter()
        .map(|t| a.tag_of(&a.fresh_path(*t, 0).unwrap().0).unwrap())
        .collect();
    assert!(tags.iter().all(|t| t.len() == 20), "{tags:?}");
    assert!(tags.windows(2).all(|w| w[0] < w[1]), "{tags:?}");
    assert_eq!(tags[10], "99991231T235959.999Z");
    // Whichever attempt made them.
    let late = a.tag_of(&a.fresh_path(1_000, 0).unwrap().0).unwrap();
    let early = a.tag_of(&a.fresh_path(999, 7).unwrap().0).unwrap();
    assert_eq!(early, "19700101T000000.999Z-7");
    assert!(early < late);
}

#[test]
fn the_key_of_raw_values_does_not_read_back() {
    let key = "$serde_json::private::RawValue";
    let v = json(&format!(r#"{{"model": "m", "{key}": "x"}}"#));
    assert_eq!(v.get(key), Some(&text("x")));
    assert_eq!(parse(&to_bytes(&v)), None);
}

#[test]
fn new_archives_take_the_first_unused_name() {
    let a = ArchiveName::new("/logs/q.jsonl");
    let time = 1_790_244_900_123;
    let name = |n: &str| format!("q.20260924T101500.123Z{n}.jsonl");
    let unused = |taken: &[String]| a.unused_path(time, &taken.to_vec()).unwrap();
    assert_eq!(unused(&[]), (name(""), name("") + ".gz"));
    assert_eq!(unused(&["other".to_string(), name("-1")]).0, name(""));
    // Either name stands in the way.
    assert_eq!(unused(&[name("")]), (name("-1"), name("-1") + ".gz"));
    assert_eq!(unused(&[name("") + ".gz"]).0, name("-1"));
    assert_eq!(unused(&[name("-1") + ".gz", name("")]).0, name("-2"));
    assert_eq!(unused(&[name(""), name("-2")]).0, name("-1"));
    // What was found twice, or both names of an attempt, leave later ones free.
    assert_eq!(unused(&[name(""), name(""), name("") + ".gz"]).0, name("-1"));
    let many: Vec<String> = (0..12)
        .map(|n: u64| if n == 0 { name("") } else { name(&format!("-{n}")) })
        .collect();
    assert_eq!(unused(&many).0, name("-12"));
    assert_eq!(a.unused_path(i64::MAX, &many), None);
}
