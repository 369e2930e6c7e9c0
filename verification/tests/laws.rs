use serde_json::Value;
use trimwire::config::Config;
use trimwire::json::{Json, JsonMap};
use trimwire::pairing::{PairingError, PairingIndex};
use trimwire::strategies::simhash_dedup::{fnv1a_64, hamming, simhash, tokenize};
use trimwire::strategies::{
    apply_to_body, apply_to_root, bloat_cap, cross_turn_dedup, failed_input_purge, image_strip, run,
    serialized_len, simhash_dedup, sliding_window, stale_input_cap, stale_reads, thinking_strip,
    value_len, BodyOutcome,
};
use trimwire::summarizer::fact_retention;
use trimwire::summarizer::harm_check::detect_false_done;
use trimwire::summarizer::local::strip_think_blocks;
use trimwire::summarizer::probe::{bucket_of, Bucket};
use trimwire::summarizer::slice::{
    anchor_matches, apply_summaries, apply_summary, cap_slice_at_override, cap_slice_start,
    content_hash, densify_start, select_slice, serialize_slice, summary_marker, SummaryDecision,
};
use trimwire::sweep::{first_uuids, sweep, validate};
use trimwire::text::{
    ceil_boundary, chars_of, decimal_of, floor_boundary, is_blank, lines_of, trim_of,
};

fn obj(members: Vec<(&str, Value)>) -> Value {
    Value::Object(members.into_iter().map(|(k, x)| (k.to_owned(), x)).collect())
}

fn list(items: Vec<Value>) -> Value {
    Value::Array(items)
}

fn js<T: Into<Value>>(x: T) -> Value {
    x.into()
}

fn to_json(value: &Value) -> Json {
    Json::parse(value.to_string().as_bytes()).unwrap()
}

fn to_value(json: &Json) -> Value {
    serde_json::from_str(&json.to_text()).unwrap()
}

fn to_jsons(values: &[Value]) -> Vec<Json> {
    values.iter().map(to_json).collect()
}

fn to_values(items: &[Json]) -> Vec<Value> {
    items.iter().map(to_value).collect()
}

/// Everything is on but what has to be asked for.
fn profile_baseline() -> Config {
    let mut c = Config::default();
    c.strategies.failed_input_purge.enabled = true;
    c.strategies.stale_input_cap.enabled = true;
    c.strategies.cross_turn_dedup.enabled = true;
    c.strategies.stale_reads.enabled = true;
    c.strategies.bloat_cap.enabled = true;
    c.strategies.sliding_window.enabled = true;
    c.strategies.image_strip.enabled = true;
    c.strategies.thinking_strip.enabled = true;
    c
}

/// Everything is on, and set so that a short transcript is old.
fn eager() -> Config {
    let mut c = profile_baseline();
    let s = &mut c.strategies;
    s.simhash_dedup.enabled = true;
    s.simhash_dedup.keep_recent_turns = 2;
    s.simhash_dedup.min_bytes = 100;
    s.failed_input_purge.keep_recent_turns = 2;
    s.stale_input_cap.keep_recent_turns = 2;
    s.stale_input_cap.authoring_keep_recent_turns = 2;
    s.stale_reads.keep_recent_turns = 2;
    s.stale_reads.page_min_bytes = 1000;
    s.bloat_cap.keep_recent_turns = 2;
    s.bloat_cap.threshold_bytes = 2000;
    s.bloat_cap.head_bytes = 200;
    s.bloat_cap.tail_bytes = 200;
    s.sliding_window.keep_recent_turns = 2;
    s.sliding_window.denylist_tools = vec!["Status*".to_owned()];
    s.image_strip.applies_to_tools = vec!["*snapshot*".to_owned()];
    s.image_strip.keep_recent_count = 1;
    s.thinking_strip.keep_recent_turns = 2;
    c
}

fn call(messages: &mut Vec<Value>, name: &str, input: Value, output: Value, failed: bool) {
    let id = format!("t{}", messages.len());
    messages.push(obj(vec![
        ("role", js("assistant")),
        ("content", list(vec![
            obj(vec![("type", js("thinking")), ("thinking", js(format!("about {id}")))]),
            obj(vec![
                ("type", js("tool_use")),
                ("id", js(id.clone())),
                ("name", js(name)),
                ("input", input),
            ]),
        ])),
    ]));
    let mut block = vec![
        ("type", js("tool_result")),
        ("tool_use_id", js(id)),
        ("content", output),
    ];
    if failed {
        block.push(("is_error", js(true)));
    }
    messages.push(obj(vec![("role", js("user")), ("content", list(vec![obj(block)]))]));
}

/// A transcript in which every strategy finds something.
fn busy() -> Vec<Value> {
    let mut m = vec![obj(vec![("role", js("user")), ("content", js("go"))])];
    let image = || {
        list(vec![obj(vec![
            ("type", js("image")),
            ("source", obj(vec![("type", js("base64")), ("data", js("A".repeat(5000)))])),
        ])])
    };
    let words = |n: usize| {
        (0..200).map(|i| format!("word{i}")).collect::<Vec<_>>().join(" ") + &n.to_string()
    };
    call(&mut m, "Bash", obj(vec![("command", js("x".repeat(2000)))]), js("no"), true);
    call(&mut m, "Grep", obj(vec![("pattern", js("y".repeat(2000)))]), js("z"), false);
    call(&mut m, "Bash", obj(vec![("command", js("ls"))]), js("same ".repeat(50)), false);
    call(&mut m, "Bash", obj(vec![("command", js("ls"))]), js("same ".repeat(50)), false);
    call(&mut m, "Read", obj(vec![("file_path", js("/a"))]), js("old ".repeat(100)), false);
    call(&mut m, "Read", obj(vec![("file_path", js("/a"))]), js("new ".repeat(100)), false);
    call(&mut m, "Bash", obj(vec![("command", js("one"))]), js(words(1)), false);
    call(&mut m, "Bash", obj(vec![("command", js("two"))]), js(words(2)), false);
    call(&mut m, "Bash", obj(vec![("command", js("big"))]), js("line\n".repeat(2000)), false);
    call(&mut m, "StatusBar", obj(vec![("n", js(1))]), js("status ".repeat(40)), false);
    call(&mut m, "page_snapshot", obj(vec![("n", js(1))]), image(), false);
    call(&mut m, "page_snapshot", obj(vec![("n", js(2))]), image(), false);
    call(&mut m, "Bash", obj(vec![("command", js("last"))]), js("done"), false);
    call(&mut m, "Bash", obj(vec![("command", js("end"))]), js("done too"), false);
    m
}

/// Applies a strategy twice: the second time there is nothing to do. What is left is paired.
fn settles(
    name: &str,
    mut apply: impl FnMut(&mut Vec<Json>) -> Result<usize, PairingError>,
) -> Vec<Value> {
    let before = busy();
    let mut items = to_jsons(&before);
    let first = apply(&mut items).unwrap();
    assert!(first > 0, "{name} finds something");
    assert!(PairingIndex::build(&items).validate().is_ok(), "{name} keeps the pairs");
    let once = to_values(&items);
    assert_ne!(once, before);
    assert_eq!(once.len(), before.len());
    assert_eq!(apply(&mut items).unwrap(), 0, "{name} is done after one pass");
    assert_eq!(to_values(&items), once);
    once
}

#[test]
fn every_strategy_is_done_after_one_pass() {
    let c = eager();
    let s = &c.strategies;
    settles("failed_input_purge", |m| {
        failed_input_purge::apply_counted(m, &s.failed_input_purge)
    });
    settles("stale_input_cap", |m| stale_input_cap::apply_counted(m, &s.stale_input_cap));
    settles("cross_turn_dedup", |m| cross_turn_dedup::apply_counted(m, &s.cross_turn_dedup));
    settles("stale_reads", |m| stale_reads::apply_counted(m, &s.stale_reads));
    settles("simhash_dedup", |m| simhash_dedup::apply_counted(m, &s.simhash_dedup));
    settles("bloat_cap", |m| bloat_cap::apply_counted(m, &s.bloat_cap));
    settles("sliding_window", |m| sliding_window::apply_counted(m, &s.sliding_window));
    settles("image_strip", |m| image_strip::apply_counted(m, &s.image_strip));
    settles("thinking_strip", |m| thinking_strip::apply_counted(m, &s.thinking_strip));
}

#[test]
fn the_newest_image_and_the_last_repeat_stay() {
    let c = eager();
    let before = busy();
    let images = settles("image_strip", |m| {
        image_strip::apply_counted(m, &c.strategies.image_strip)
    });
    assert_ne!(images[22], before[22], "the older image goes");
    assert_eq!(images[24], before[24], "the newest image stays");
    let repeats = settles("cross_turn_dedup", |m| {
        cross_turn_dedup::apply_counted(m, &c.strategies.cross_turn_dedup)
    });
    assert_ne!(repeats[6], before[6], "the older repeat goes");
    assert_eq!(repeats[8], before[8], "the last repeat stays");
    let near = settles("simhash_dedup", |m| {
        simhash_dedup::apply_counted(m, &c.strategies.simhash_dedup)
    });
    assert_ne!(near[14], before[14], "the older of two that are nearly equal goes");
    assert_eq!(near[16], before[16], "the newer stays");
}

#[test]
fn the_window_spares_recent_turns() {
    let mut c = eager();
    c.strategies.sliding_window.denylist_tools = vec!["*".to_owned()];
    let before = busy();
    let after = settles("sliding_window", |m| {
        sliding_window::apply_counted(m, &c.strategies.sliding_window)
    });
    let n = before.len();
    assert_eq!(after[n - 4..], before[n - 4..]);
    assert_ne!(after[20], before[20]);
}

#[test]
fn strategies_report_in_order() {
    let mut items = to_jsons(&busy());
    let fired = run(&mut items, &eager()).unwrap();
    let names: Vec<&str> = fired.iter().map(|f| f.0).collect();
    assert_eq!(
        names,
        vec![
            "failed_input_purge",
            "stale_input_cap",
            "cross_turn_dedup",
            "stale_reads",
            "simhash_dedup",
            "bloat_cap",
            "sliding_window",
            "image_strip",
            "thinking_strip",
        ]
    );
    for w in fired.windows(2) {
        assert_eq!(w[0].1.final_bytes, w[1].1.original_bytes);
    }
    assert!(PairingIndex::build(&items).validate().is_ok());
}

#[test]
fn an_answer_without_a_call_is_named() {
    let mut items = to_jsons(&busy()[2..]);
    let before = to_values(&items);
    match run(&mut items, &eager()) {
        Err(PairingError::OrphanResult(id)) => assert_eq!(id, "t1"),
        Ok(_) => panic!("the transcript has to be refused"),
    }
    assert_eq!(to_values(&items), before, "and it stays as it was");
}

#[test]
fn with_everything_off_a_body_stays() {
    let mut c = Config::default();
    let s = &mut c.strategies;
    s.failed_input_purge.enabled = false;
    s.stale_input_cap.enabled = false;
    s.cross_turn_dedup.enabled = false;
    s.stale_reads.enabled = false;
    s.simhash_dedup.enabled = false;
    s.bloat_cap.enabled = false;
    s.sliding_window.enabled = false;
    s.image_strip.enabled = false;
    s.thinking_strip.enabled = false;
    s.system_shape_normalize.enabled = false;
    let body = obj(vec![("model", js("m")), ("messages", js(busy()))]).to_string();
    assert!(matches!(apply_to_body(body.as_bytes(), &c), BodyOutcome::Unchanged));
    match apply_to_body(body.as_bytes(), &eager()) {
        BodyOutcome::Mutated { bytes, .. } => {
            let after: Value = serde_json::from_slice(&bytes).unwrap();
            assert_eq!(after["model"], "m");
            assert!(bytes.len() < body.len());
        }
        BodyOutcome::Unchanged => panic!("there is something to do"),
    }
    let mut root = Json::parse(body.as_bytes()).unwrap();
    assert!(apply_to_root(&mut root, &c).is_none());
    assert_eq!(to_value(&root), serde_json::from_str::<Value>(&body).unwrap());
    assert_eq!(apply_to_root(&mut root, &eager()).unwrap().len(), 9);
}

fn prose(pairs: usize) -> Vec<Json> {
    let mut m = vec![obj(vec![("role", js("user")), ("content", js("start"))])];
    for i in 0..pairs {
        m.push(obj(vec![("role", js("assistant")), ("content", js(format!("a{i}")))]));
        m.push(obj(vec![("role", js("user")), ("content", js(format!("u{i}")))]));
    }
    to_jsons(&m)
}

#[test]
fn a_fresh_summary_fits_and_shortens_as_told() {
    let messages = prose(6);
    let d = SummaryDecision::new(&messages, 1, 5, "short").unwrap();
    assert!(anchor_matches(&messages, &d));
    let mut one = prose(6);
    assert!(apply_summary(&mut one, &messages, &d));
    let mut chain = prose(6);
    assert!(apply_summaries(&mut chain, &messages, &[d]));
    assert_eq!(to_values(&one), to_values(&chain), "a chain of one is the summary itself");
    assert_eq!(one.len(), messages.len() - 4 + 2);
    let marker = summary_marker(1, 5);
    assert!(marker.contains("[trimwire: summarized turns"));
    assert!(marker.contains("local-model compaction of original turns"));
}

#[test]
fn a_selected_slice_lies_between_the_head_and_the_recent_turns() {
    let messages = prose(6);
    assert_eq!(select_slice(&messages, 2, 13), Some((1, 9)));
    assert_eq!(select_slice(&messages, 2, 6), Some((1, 5)));
    assert_eq!(select_slice(&messages, 6, 13), None);
}

#[test]
fn digests_are_those_of_sha_256() {
    assert_eq!(
        content_hash(b"abc"),
        "ba7816bf8f01cfea414140de5dae2223b00361a396177a9cb410ff61f20015ad"
    );
    assert_eq!(
        content_hash(b""),
        "e3b0c44298fc1c149afbf4c8996fb92427ae41e4649b934ca495991b7852b855"
    );
}

#[test]
fn buckets_divide_the_turns() {
    let of = |i| match bucket_of(i, 12, 30) {
        Bucket::Start => 's',
        Bucket::Mid => 'm',
        Bucket::End => 'e',
    };
    let all: String = (0..12).map(of).collect();
    assert_eq!(all, "ssssmmmmeeee");
}

#[test]
fn a_swept_record_is_swept() {
    let call = r#"{"type":"assistant","uuid":"1","message":{"content":[{"type":"thinking","thinking":""},{"type":"tool_use","id":"t","name":"Bash","input":{"command":"x"}}]}}"#;
    let answer = r#"{"type":"user","uuid":"2","message":{"content":[{"type":"tool_result","tool_use_id":"t","is_error":true,"content":"no"}]}}"#;
    let record = format!("{call}\n\n{answer}\n");
    let once = sweep(record.as_bytes());
    assert!(once.mutated);
    assert_eq!((once.thinking_dropped, once.inputs_purged, once.lines), (1, 1, 3));
    assert!(validate(&once.bytes));
    let twice = sweep(&once.bytes);
    assert!(!twice.mutated);
    assert_eq!(twice.bytes, once.bytes);
}

#[test]
fn tokens_are_runs_of_letters_and_numbers() {
    assert_eq!(tokenize("a-b_c, \u{e4}9\u{662f}!x"), vec!["a", "b", "c", "\u{e4}9\u{662f}", "x"]);
    assert_eq!(fnv1a_64(b""), 0xcbf29ce484222325);
    assert_eq!(fnv1a_64(b"a"), 0xaf63dc4c8601ec8c);
    assert_eq!(simhash("a"), 0xaf63dc4c8601ec8c);
    assert_eq!(hamming(0b1011, 0b0110), 3);
}

#[test]
fn white_space_is_that_of_unicode() {
    assert!(is_blank(" \u{2003}\u{a0}\t"));
    assert!(!is_blank("\u{200b}"));
    assert_eq!(trim_of("\u{3000} a b \n"), "a b");
}

#[test]
fn boundaries_lie_between_characters() {
    let chars = chars_of("a\u{e4}\u{1f600}b");
    assert_eq!(floor_boundary(&chars, 2), 1);
    assert_eq!(floor_boundary(&chars, 3), 2);
    assert_eq!(ceil_boundary(&chars, 4), 3);
    assert_eq!(ceil_boundary(&chars, 5), 2);
    assert_eq!(lines_of("a\r\nb\n"), vec!["a", "b"]);
    assert_eq!(decimal_of(1234567890), "1234567890");
}

#[test]
fn values_are_read_and_written() {
    let text = r#"{"b":[1,-2,3.5,true,null],"a":"x\n\u00e4"}"#;
    let json = Json::parse(text.as_bytes()).unwrap();
    assert_eq!(json.to_text(), "{\"a\":\"x\\n\u{e4}\",\"b\":[1,-2,3.5,true,null]}");
    assert_eq!(json.get_str("a"), Some("x\n\u{e4}"));
    assert!(Json::parse(b"{").is_none());
    match Json::read(b"{") {
        Err(why) => assert!(why.contains("line 1 column 1"), "{why}"),
        Ok(_) => panic!("that is no value"),
    }
    let mut members = JsonMap::new();
    members.insert("k".to_owned(), Json::text("v"));
    assert_eq!(Json::Object(members).to_text(), r#"{"k":"v"}"#);
}

#[test]
fn a_cleared_result_stays_in_either_form() {
    let mut c = eager();
    c.strategies.bloat_cap.threshold_bytes = 10;
    c.strategies.bloat_cap.head_bytes = 0;
    c.strategies.bloat_cap.tail_bytes = 0;
    let bare = js("[Old tool result content cleared]");
    let block = list(vec![obj(vec![("type", js("text")), ("text", bare.clone())])]);
    let mut m = vec![obj(vec![("role", js("user")), ("content", js("go"))])];
    call(&mut m, "Bash", obj(vec![]), bare, false);
    call(&mut m, "Bash", obj(vec![]), block, false);
    for _ in 0..3 {
        call(&mut m, "Bash", obj(vec![]), js("ok"), false);
    }
    let mut items = to_jsons(&m);
    let n = bloat_cap::apply_counted(&mut items, &c.strategies.bloat_cap).unwrap();
    assert_eq!(n, 0);
    assert_eq!(to_values(&items), m);
}

#[test]
fn ranges_may_end_behind_the_transcript_where_nothing_is_looked_at() {
    let mut m = prose(2);
    assert_eq!(cap_slice_at_override(&m, 9, 7), 7);
    assert_eq!(cap_slice_start(&m, 9, 9, 100, 100, 1), 9);
    assert_eq!(cap_slice_start(&m, 3, 6, 100, 100, 1), 3);
    assert_eq!(densify_start(&m, 3, 99, 1, 2), None);
    m.push(to_json(&obj(vec![
        ("role", js("user")),
        ("content", js("authoritative override: do this")),
    ])));
    assert_eq!(cap_slice_at_override(&m, 5, 99), 5);
    assert_eq!(first_uuids(b"{\"uuid\":\"a\"}\n{\"uuid\":\"b\"}", 0), vec!["a"]);
    assert_eq!(first_uuids(b"{\"uuid\":\"a\"}\n{\"uuid\":\"b\"}", 2), vec!["a", "b"]);
}

fn can_be_sent(messages: &[Value]) -> bool {
    messages.windows(2).all(|w| w[0]["role"] != w[1]["role"])
        && PairingIndex::build(&to_jsons(messages)).validate().is_ok()
}

#[test]
fn a_transcript_with_summaries_can_be_sent() {
    let messages = busy();
    assert!(can_be_sent(&messages));
    let original = to_jsons(&messages);
    let chain = vec![
        SummaryDecision::new(&original, 1, 7, "one").unwrap(),
        SummaryDecision::new(&original, 7, 13, "two").unwrap(),
        SummaryDecision::new(&original, 17, 23, "three").unwrap(),
    ];
    let mut out = to_jsons(&messages);
    run(&mut out, &eager()).unwrap();
    assert!(apply_summaries(&mut out, &original, &chain));
    assert_eq!(out.len(), messages.len() - 3 * 4);
    assert!(can_be_sent(&to_values(&out)));
}

#[test]
fn what_is_written_reads_back() {
    let nested = |n: usize| "[".repeat(n) + "7" + &"]".repeat(n);
    let deep = nested(127);
    let json = Json::parse(deep.as_bytes()).unwrap();
    assert_eq!(json.to_text(), deep);
    assert!(Json::parse(nested(128).as_bytes()).is_none());
    let odd = obj(vec![
        ("line\n\u{0}\u{7f}\"\\", js("\u{1f600}\u{2028}\t")),
        ("", list(vec![js(u64::MAX), js(0), Value::Null, js(false)])),
    ]);
    assert_eq!(to_value(&to_json(&odd)), odd);
    let text = to_json(&odd).to_text();
    assert!(!text.contains('\n'));
    assert_eq!(serde_json::from_str::<Value>(&text).unwrap(), odd);
}

#[test]
fn a_call_without_a_result_does_not_count_as_an_image() {
    let mut c = Config::default();
    c.strategies.image_strip.applies_to_tools = vec!["shot".to_owned()];
    c.strategies.image_strip.keep_recent_count = 1;
    c.strategies.image_strip.stub = "[trimwire: image stripped]".to_owned();
    let mut m = Vec::new();
    call(&mut m, "shot", obj(vec![]), js("A".repeat(8192)), false);
    call(&mut m, "shot", obj(vec![]), js("A".repeat(8192)), false);
    call(&mut m, "shot", obj(vec![]), js("A".repeat(8192)), false);
    m.pop();
    let mut items = to_jsons(&m);
    let stats = image_strip::apply(&mut items, &c.strategies.image_strip).unwrap();
    assert_eq!(stats.stubbed, 1);
    let after = to_values(&items);
    assert_eq!(
        after[1]["content"][0]["content"],
        "[trimwire: image stripped] (8194B elided)"
    );
    assert_eq!(after[3], m[3], "the most recent result stays");
}

#[test]
fn the_cap_counts_what_is_written() {
    let mut c = eager();
    let cap = &mut c.strategies.bloat_cap;
    cap.threshold_bytes = 30;
    cap.head_bytes = 8;
    cap.tail_bytes = 8;
    cap.keep_recent_turns = 4;
    let session = |n: usize| {
        let mut m = Vec::new();
        for _ in 0..10 {
            call(&mut m, "Bash", obj(vec![]), js("z".repeat(n)), false);
        }
        m
    };
    // Two line feeds more than it saves when they are escaped.
    let mut items = to_jsons(&session(47));
    let stats = bloat_cap::apply(&mut items, &c.strategies.bloat_cap).unwrap();
    assert_eq!(stats.stubbed, 0);
    assert_eq!(stats.elided_bytes(), 0);
    let mut items = to_jsons(&session(49));
    let stats = bloat_cap::apply(&mut items, &c.strategies.bloat_cap).unwrap();
    assert_eq!(stats.stubbed, 5);
    assert_eq!(stats.elided_bytes(), 5);
}

#[test]
fn sizes_are_those_of_the_text() {
    let odd = obj(vec![
        ("k\n", js("\u{0}\u{1f}\u{8}\u{c}\r\t\"\\/\u{7f}\u{e4}\u{1f600}")),
        ("list", list(vec![js(-17), js(1.5), Value::Null, js(true), js(false)])),
        ("none", list(vec![])),
        ("empty", obj(vec![])),
    ]);
    let text = serde_json::to_string(&odd).unwrap();
    assert_eq!(value_len(&to_json(&odd)), text.len());
    assert_eq!(serialized_len(&to_jsons(&[odd.clone(), odd])), 2 * text.len() + 3);
}

#[test]
fn integers_of_either_sign_read_back() {
    for n in ["-9223372036854775808", "-1", "0", "18446744073709551615"] {
        let json = Json::parse(n.as_bytes()).unwrap();
        assert_eq!(json.to_text(), n);
    }
    assert_eq!(Json::number(u64::MAX).to_text(), "18446744073709551615");
    let twice = Json::parse(br#"{"a":1,"b":2,"a":3}"#).unwrap();
    assert_eq!(twice.to_text(), r#"{"a":3,"b":2}"#);
}

#[test]
fn flags_of_joined_summaries_add_up() {
    let a = "DONE: all tests pass\r";
    let b = "\n  committed, and the test suite is green  \n";
    let joined = format!("{a}\n{b}");
    let said = |s: &str| -> Vec<(String, &'static str)> {
        detect_false_done(s, "nothing")
            .into_iter()
            .map(|f| (f.claim, f.reason))
            .collect()
    };
    let mut both = said(a);
    both.extend(said(b));
    assert_eq!(said(&joined), both);
    assert_eq!(both.len(), 3);
    assert_eq!(both[0].0, "DONE: all tests pass");
    assert_eq!(both[1].0, "committed, and the test suite is green");
    assert_eq!(both[2].0, both[1].0);
    assert!(both[1].1.contains("test-run") && both[2].1.contains("commit evidence"));
}

#[test]
fn a_simhash_counts_tokens() {
    let a = "one two, two three";
    assert_eq!(simhash(a), simhash("two--three (one) two"));
    assert_eq!(simhash(a), simhash(&format!("{a} {a}")));
    assert_ne!(simhash(a), simhash("one two three four"));
}

#[test]
fn retention_of_two_lists_adds_up() {
    let s = "Kept MAX-RETRIES and src/auth.rs";
    let (one, two) = (["max_retries", "missing"], ["SRC/AUTH.RS"]);
    let all = ["max_retries", "missing", "SRC/AUTH.RS"];
    assert_eq!(fact_retention(s, &one), (1, 2));
    assert_eq!(fact_retention(s, &two), (1, 1));
    assert_eq!(fact_retention(s, &all), (2, 3));
    assert_eq!(fact_retention("kept max_retries and SRC/auth.rs", &all), (2, 3));
}

#[test]
fn only_what_is_redundant_goes() {
    let c = eager();
    let before = busy();
    let after = settles("cross_turn_dedup", |m| {
        cross_turn_dedup::apply_counted(m, &c.strategies.cross_turn_dedup)
    });
    for (i, (a, b)) in before.iter().zip(&after).enumerate() {
        // The first of two identical calls, the first of two reads of one file, and a text that a
        // later one begins with.
        if ![6, 10, 26].contains(&i) {
            assert_eq!(a, b, "message {i} has no later repeat");
        }
        assert_eq!(a["role"], b["role"]);
    }
    assert_eq!(after[6]["content"][0]["tool_use_id"], before[6]["content"][0]["tool_use_id"]);
}

#[test]
fn more_text_silences_flags_and_raises_none() {
    let summary = "FACTS: all 37 tests passed\nDECIDED: committed the fix";
    let flagged = |text: &str| -> Vec<String> {
        detect_false_done(summary, text).into_iter().map(|f| f.reason.to_string()).collect()
    };
    let none = flagged("nothing");
    assert_eq!(none.len(), 2);
    let tests_only = flagged("before\nnothing\ntest result: ok. 37 passed; 0 failed");
    assert_eq!(tests_only, none[1..].to_vec());
    assert!(flagged("nothing\ntest result: ok. 37 passed\n[main 1a2b3c4] fix\n 1 file changed")
        .is_empty());
}

#[test]
fn what_follows_a_claim_does_not_excuse_it() {
    for tail in ["", " if all goes well", " once the build is done", "; will be green later"] {
        let flags = detect_false_done(&format!("FACTS: all tests passed{tail}"), "nothing");
        assert_eq!(flags.len(), 1, "{tail}");
        let flags = detect_false_done(&format!("NEXT: ship if tests pass{tail}"), "nothing");
        assert!(flags.is_empty(), "{tail}");
    }
}

#[test]
fn what_thinking_leaves_has_none_left() {
    for text in [
        "<think>x</think>summary",
        "<th<think>y</think>ink>a</think>b",
        "</think>oops<think>",
        "<think>a</think>keep1<think>b</think>keep2",
    ] {
        let once = strip_think_blocks(text.to_owned());
        assert_eq!(strip_think_blocks(once.clone()), once);
    }
}

#[test]
fn what_is_shown_of_two_slices_is_joined() {
    let items = to_jsons(&busy());
    let whole = serialize_slice(&items, 100, 50);
    for k in 0..=items.len() {
        assert_eq!(
            serialize_slice(&items[..k], 100, 50) + &serialize_slice(&items[k..], 100, 50),
            whole
        );
    }
}

#[test]
fn facts_are_found_whatever_the_case_and_dash_beside_wide_letters() {
    let s = "behielt ÜBER-Lauf_max und Straße-eins";
    assert_eq!(fact_retention(s, &["über_lauf-MAX"]), (1, 1));
    assert_eq!(fact_retention(s, &["STRAßE_EINS"]), (1, 1));
    assert_eq!(fact_retention(s, &["strasse-eins"]), (0, 1));
}

/// A record line of the assistant with a failed call, a number that is no integer, and thinking
/// without content.
fn record_with(number: &str) -> String {
    let call = "{\"type\":\"assistant\",\"uuid\":\"a\",\"cost\":NUMBER,\"message\":{\"content\":[\
        {\"type\":\"thinking\",\"thinking\":\"\"},\
        {\"type\":\"tool_use\",\"id\":\"t\",\"name\":\"Bash\",\"input\":{\"n\":NUMBER}}]}}";
    let answer = "{\"type\":\"user\",\"uuid\":\"b\",\"message\":{\"content\":[\
        {\"type\":\"tool_result\",\"tool_use_id\":\"t\",\"is_error\":true,\"content\":NUMBER}]}}";
    format!("{call}\n{answer}\n").replace("NUMBER", number)
}

#[test]
fn a_cleanup_is_done_after_one_pass_whatever_the_numbers() {
    for number in [
        "1", "-0.0", "0.1", "1.5e300", "1.7976931348623157e308", "5e-324",
        "123456789012345678901234567890", "0.30000000000000004", "9007199254740993.5",
    ] {
        let record = record_with(number);
        let once = sweep(record.as_bytes());
        assert!(once.mutated);
        assert_eq!((once.thinking_dropped, once.inputs_purged), (1, 1));
        assert!(validate(&once.bytes), "{number}");
        let twice = sweep(&once.bytes);
        assert!(!twice.mutated, "{number}");
        assert_eq!(twice.bytes, once.bytes);
    }
}

#[test]
fn a_pruned_body_can_be_read_however_deep_it_nests() {
    let deep = |n: usize| "[".repeat(n) + "0.1" + &"]".repeat(n);
    let body = |n: usize| {
        let mut messages = busy();
        messages.push(obj(vec![("role", js("user")), ("content", js("DEEP"))]));
        obj(vec![("messages", js(messages))]).to_string().replace("\"DEEP\"", &deep(n))
    };
    match apply_to_body(body(124).as_bytes(), &eager()) {
        BodyOutcome::Mutated { bytes, .. } => {
            assert!(Json::parse(&bytes).is_some());
            assert!(String::from_utf8(bytes).unwrap().contains(&deep(124)));
        }
        BodyOutcome::Unchanged => panic!("something is to be pruned"),
    }
    assert!(Json::parse(body(125).as_bytes()).is_none());
    assert!(matches!(apply_to_body(body(125).as_bytes(), &eager()), BodyOutcome::Unchanged));
}
