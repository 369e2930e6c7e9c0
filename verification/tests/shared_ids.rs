use serde_json::Value;
use trimwire::config::{
    BloatCapConfig, CrossTurnDedupConfig, ImageStripConfig, SlidingWindowConfig, StaleReadsConfig,
};
use trimwire::json::Json;
use trimwire::strategies::{
    bloat_cap, cross_turn_dedup, image_strip, sliding_window, stale_reads,
};

fn obj(members: Vec<(&str, Value)>) -> Value {
    Value::Object(members.into_iter().map(|(k, x)| (k.to_owned(), x)).collect())
}

fn list(items: Vec<Value>) -> Value {
    Value::Array(items)
}

fn js<T: Into<Value>>(x: T) -> Value {
    x.into()
}

fn to_jsons(values: &[Value]) -> Vec<Json> {
    values.iter().map(|v| Json::parse(v.to_string().as_bytes()).unwrap()).collect()
}

fn to_values(items: &[Json]) -> Vec<Value> {
    items.iter().map(|j| serde_json::from_str(&j.to_text()).unwrap()).collect()
}

fn asks(id: &str, name: &str, key: &str, value: &str) -> Value {
    obj(vec![
        ("role", js("assistant")),
        ("content", list(vec![obj(vec![
            ("type", js("tool_use")),
            ("id", js(id)),
            ("name", js(name)),
            ("input", obj(vec![(key, js(value))])),
        ])])),
    ])
}

fn gets(id: &str, content: Value) -> Value {
    obj(vec![
        ("role", js("user")),
        ("content", list(vec![obj(vec![
            ("type", js("tool_result")),
            ("tool_use_id", js(id)),
            ("content", content),
        ])])),
    ])
}

fn said() -> Value {
    obj(vec![
        ("role", js("assistant")),
        ("content", list(vec![obj(vec![("type", js("text")), ("text", js("done"))])])),
    ])
}

fn content_of(items: &[Json], mi: usize) -> Value {
    to_values(items)[mi]["content"][0]["content"].clone()
}

fn input_of(items: &[Json], mi: usize) -> Value {
    to_values(items)[mi]["content"][0]["input"].clone()
}

fn reads(page_min_bytes: usize) -> StaleReadsConfig {
    StaleReadsConfig {
        enabled: true,
        page_min_bytes,
        keep_recent_turns: 1,
        ..StaleReadsConfig::default()
    }
}

#[test]
fn a_shared_result_is_stale_if_one_of_its_reads_is() {
    let text = "body ".repeat(40);
    let mut items = to_jsons(&[
        asks("x", "Read", "file_path", "/a"),
        asks("x", "Read", "file_path", "/b"),
        gets("x", js(text.clone())),
        asks("w", "Write", "file_path", "/a"),
        gets("w", js("ok")),
    ]);
    assert_eq!(stale_reads::apply_counted(&mut items, &reads(0)).unwrap(), 1);
    let marked = content_of(&items, 2);
    assert!(marked.as_str().unwrap().starts_with("[trimwire: "));
    assert_eq!(stale_reads::apply_counted(&mut items, &reads(0)).unwrap(), 0);

    let mut apart = to_jsons(&[
        asks("x", "Read", "file_path", "/a"),
        asks("x", "Read", "file_path", "/b"),
        gets("x", js(text.clone())),
        asks("w", "Write", "file_path", "/c"),
        gets("w", js("ok")),
    ]);
    assert_eq!(stale_reads::apply_counted(&mut apart, &reads(0)).unwrap(), 0);
    assert_eq!(content_of(&apart, 2), js(text));
}

#[test]
fn a_shared_result_is_paged_out_to_the_first_path() {
    let text = "body ".repeat(400);
    let mut items = to_jsons(&[
        asks("x", "Read", "file_path", "/b"),
        asks("x", "Read", "file_path", "/a"),
        gets("x", js(text)),
        said(),
        said(),
    ]);
    assert_eq!(stale_reads::apply_counted(&mut items, &reads(100)).unwrap(), 1);
    assert_eq!(
        content_of(&items, 2),
        js("[trimwire: paged out — Read /a (2000 bytes); re-read the file to restore]")
    );
}

fn dedup() -> CrossTurnDedupConfig {
    CrossTurnDedupConfig { enabled: true, ..CrossTurnDedupConfig::default() }
}

#[test]
fn what_was_asked_under_a_shared_id_and_asked_again_goes() {
    let text = "listing ".repeat(40);
    let mut items = to_jsons(&[
        asks("x", "Bash", "command", "ls"),
        asks("x", "Bash", "command", "pwd"),
        gets("x", js(text)),
        asks("y", "Bash", "command", "ls"),
        gets("y", js("other")),
    ]);
    assert_eq!(cross_turn_dedup::apply_counted(&mut items, &dedup()).unwrap(), 1);
    assert!(content_of(&items, 2).as_str().unwrap().starts_with("[trimwire: "));
    assert_eq!(content_of(&items, 4), js("other"));
    assert_eq!(cross_turn_dedup::apply_counted(&mut items, &dedup()).unwrap(), 0);
}

#[test]
fn the_only_result_of_a_repeated_question_stays() {
    let text = "listing ".repeat(40);
    let messages = [
        asks("x", "Bash", "command", "ls"),
        asks("x", "Bash", "command", "ls"),
        gets("x", js(text)),
    ];
    let mut items = to_jsons(&messages);
    assert_eq!(cross_turn_dedup::apply_counted(&mut items, &dedup()).unwrap(), 0);
    assert_eq!(to_values(&items), messages);
}

#[test]
fn a_shared_result_that_a_later_one_begins_with_or_repeats_goes() {
    let text = "line of a log\n".repeat(20);
    let mut grown = to_jsons(&[
        asks("x", "Tail", "n", "1"),
        asks("x", "Bash", "command", "pwd"),
        gets("x", js(text.clone())),
        asks("y", "Tail", "n", "2"),
        gets("y", js(text.clone() + "more")),
    ]);
    assert_eq!(cross_turn_dedup::apply_counted(&mut grown, &dedup()).unwrap(), 1);
    assert!(content_of(&grown, 2).as_str().unwrap().starts_with("[trimwire: "));
    let mut same = to_jsons(&[
        asks("x", "Tail", "n", "1"),
        asks("x", "Bash", "command", "pwd"),
        gets("x", js(text.clone())),
        asks("y", "Read", "file_path", "/log"),
        gets("y", js(text.clone())),
    ]);
    assert_eq!(cross_turn_dedup::apply_counted(&mut same, &dedup()).unwrap(), 1);
    assert!(content_of(&same, 2).as_str().unwrap().starts_with("[trimwire: "));
    assert_eq!(content_of(&same, 4), js(text));
}

fn window() -> SlidingWindowConfig {
    SlidingWindowConfig {
        enabled: true,
        keep_recent_turns: 1,
        denylist_tools: vec!["Bash".to_owned()],
        ..SlidingWindowConfig::default()
    }
}

#[test]
fn an_old_call_takes_the_pair_with_its_id_along() {
    let mut items = to_jsons(&[
        asks("x", "Bash", "command", "ls"),
        asks("x", "Grep", "pattern", "a long pattern that is worth a marker in its place"),
        gets("x", js("listing ".repeat(40))),
        said(),
    ]);
    assert_eq!(sliding_window::apply_counted(&mut items, &window()).unwrap(), 1);
    assert_eq!(input_of(&items, 0), obj(vec![("command", js("ls"))]));
    assert_ne!(input_of(&items, 1)["pattern"], js("a long pattern that is worth a marker in its place"));
    assert!(content_of(&items, 2).as_str().unwrap().starts_with("[trimwire: "));
    assert_eq!(sliding_window::apply_counted(&mut items, &window()).unwrap(), 0);
}

#[test]
fn a_written_body_outlives_an_old_call_with_its_id() {
    let mut items = to_jsons(&[
        asks("x", "Bash", "command", "ls"),
        asks("x", "Write", "content", "the only copy of this file"),
        gets("x", js("listing ".repeat(40))),
        said(),
    ]);
    assert_eq!(sliding_window::apply_counted(&mut items, &window()).unwrap(), 1);
    assert_eq!(input_of(&items, 1), obj(vec![("content", js("the only copy of this file"))]));
    assert!(content_of(&items, 2).as_str().unwrap().starts_with("[trimwire: "));
}

#[test]
fn an_image_counts_for_every_call_that_names_its_id() {
    let image = js("A".repeat(5000));
    let strip = ImageStripConfig {
        enabled: true,
        applies_to_tools: vec!["shot".to_owned()],
        keep_recent_count: 1,
        ..ImageStripConfig::default()
    };
    let mut items = to_jsons(&[
        asks("x", "shot", "n", "1"),
        asks("x", "Bash", "command", "ls"),
        gets("x", image.clone()),
        asks("y", "shot", "n", "2"),
        asks("y", "shot", "n", "3"),
        gets("y", image.clone()),
    ]);
    assert_eq!(image_strip::apply_counted(&mut items, &strip).unwrap(), 1);
    assert_ne!(content_of(&items, 2), image);
    assert_eq!(content_of(&items, 5), image);
    assert_eq!(image_strip::apply_counted(&mut items, &strip).unwrap(), 0);
}

#[test]
fn the_texts_of_a_large_array_are_cut_whatever_their_own_size() {
    let cap = BloatCapConfig {
        enabled: true,
        keep_recent_turns: 1,
        threshold_bytes: 30,
        head_bytes: 8,
        tail_bytes: 8,
        ..BloatCapConfig::default()
    };
    let text = |n: usize| obj(vec![("type", js("text")), ("text", js("x".repeat(n)))]);
    let mut items = to_jsons(&[
        asks("x", "Bash", "command", "ls"),
        gets("x", list(vec![text(1000), text(47)])),
        said(),
        said(),
    ]);
    assert_eq!(bloat_cap::apply_counted(&mut items, &cap).unwrap(), 1);
    let after = content_of(&items, 1);
    for i in 0..2 {
        let cut = after[i]["text"].as_str().unwrap();
        assert!(cut.starts_with("xxxxxxxx[trimwire: "), "{cut}");
        assert!(cut.ends_with("xxxxxxxx"));
    }
}
