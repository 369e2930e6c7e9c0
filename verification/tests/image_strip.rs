use serde_json::Value;
use trimwire::config::ImageStripConfig;
use trimwire::json::Json;
use trimwire::pairing::{PairingError, PairingIndex};
use trimwire::strategies::{image_strip, Stats};
use trimwire::strategies::image_strip::MIN_BASE64_LEN;

fn obj(members: Vec<(&str, Value)>) -> Value {
    Value::Object(members.into_iter().map(|(k, x)| (k.to_owned(), x)).collect())
}

fn list(items: Vec<Value>) -> Value {
    Value::Array(items)
}

fn js<T: Into<Value>>(x: T) -> Value {
    x.into()
}

fn to_json(value: &Value) -> Json {
    Json::parse(value.to_string().as_bytes()).unwrap()
}

fn to_value(json: &Json) -> Value {
    serde_json::from_str(&json.to_text()).unwrap()
}

fn to_jsons(values: &[Value]) -> Vec<Json> {
    values.iter().map(to_json).collect()
}

fn to_values(items: &[Json]) -> Vec<Value> {
    items.iter().map(to_value).collect()
}

fn index(messages: &[Value]) -> PairingIndex {
    PairingIndex::build(&to_jsons(messages))
}

fn apply(messages: &mut Vec<Value>, cfg: &ImageStripConfig) -> Result<Stats, PairingError> {
    let mut items = to_jsons(messages);
    let result = image_strip::apply(&mut items, cfg);
    *messages = to_values(&items);
    result
}

fn is_base64_image_content(content: &Value) -> bool {
    image_strip::is_base64_image_content(&to_json(content))
}

/// `n` screenshot turns, each result a `payload_len`-byte base64-ish blob.
fn screenshot_session(n: usize, payload_len: usize) -> Vec<Value> {
    let payload = "A".repeat(payload_len); // all base64-alphabet chars
    let mut msgs = Vec::new();
    for i in 0..n {
        let uid = format!("toolu_s{i}");
        msgs.push(
            obj(vec![
                ("role", js("user")),
                ("content", list(vec![
                    obj(vec![("type", js("text")), ("text", js(format!("shot {i}")))]),
                ])),
            ]),
        );
        msgs.push(obj(vec![
            ("role", js("assistant")),
            ("content", list(vec![
                obj(vec![
                    ("type", js("tool_use")),
                    ("id", js(uid.clone())),
                    ("name", js("mcp__playwright__browser_take_screenshot")),
                    ("input", obj(vec![])),
                ]),
            ])),
        ]));
        msgs.push(obj(vec![
            ("role", js("user")),
            ("content", list(vec![
                obj(vec![
                    ("type", js("tool_result")),
                    ("tool_use_id", js(uid.clone())),
                    ("content", js(payload.clone())),
                ]),
            ])),
        ]));
    }
    msgs
}

fn cfg(tools: &[&str], keep: usize) -> ImageStripConfig {
    ImageStripConfig {
        enabled: true,
        applies_to_tools: tools.iter().map(|s| (*s).to_owned()).collect(),
        keep_recent_count: keep,
        stub: "[trimwire: image stripped]".to_owned(),
    }
}

const SCREENSHOT_TOOL: &str = "mcp__playwright__browser_take_screenshot";

/// The DEFAULT `applies_to_tools` now includes `*snapshot*`, so accessibility/
/// DOM/heap snapshot tools — which also return large base64 image blobs but
/// aren't named "screenshot" — are stripped (they previously persisted
/// unbounded and re-billed every turn).
#[test]
fn default_glob_strips_snapshot_tools() {
    let payload = "A".repeat(8192);
    let mk = |tool: &str| {
        let mut msgs = Vec::new();
        for i in 0..3 {
            let uid = format!("t{i}");
            msgs.push(obj(vec![
                ("role", js("assistant")),
                ("content", list(vec![
                    obj(vec![
                        ("type", js("tool_use")),
                        ("id", js(uid.clone())),
                        ("name", js(tool.clone())),
                        ("input", obj(vec![])),
                    ]),
                ])),
            ]));
            msgs.push(obj(vec![
                ("role", js("user")),
                ("content", list(vec![
                    obj(vec![
                        ("type", js("tool_result")),
                        ("tool_use_id", js(uid.clone())),
                        ("content", js(payload.clone())),
                    ]),
                ])),
            ]));
        }
        msgs
    };
    let def = ImageStripConfig {
        enabled: true,
        keep_recent_count: 0, // strip all matching
        ..ImageStripConfig::default()
    };
    for tool in [
        "mcp__chrome-devtools__take_snapshot",
        "mcp__playwright__browser_snapshot",
        "mcp__chrome-devtools__take_heapsnapshot",
    ] {
        let mut msgs = mk(tool);
        let stats = apply(&mut msgs, &def).unwrap();
        assert_eq!(
            stats.stubbed, 3,
            "{tool} images should be stripped by the default *snapshot* glob"
        );
    }
}

#[test]
fn keeps_k_most_recent() {
    let mut msgs = screenshot_session(5, 8192);
    let stats = apply(&mut msgs, &cfg(&[SCREENSHOT_TOOL], 3)).unwrap();
    assert_eq!(stats.stubbed, 2);
    // Oldest result stubbed; newest untouched.
    assert!(
        msgs[2]["content"][0]["content"]
            .as_str()
            .unwrap()
            .starts_with("[trimwire: image stripped]")
    );
    assert_ne!(
        msgs[14]["content"][0]["content"],
        js("[trimwire: image stripped]")
    );
    index(&msgs).validate().unwrap();
}

/// Screenshot-heavy session strips ≥90% of bytes (DEVELOPMENT acceptance).
#[test]
fn screenshot_heavy_reduction_over_90pct() {
    let mut msgs = screenshot_session(20, 50_000);
    let stats = apply(&mut msgs, &cfg(&[SCREENSHOT_TOOL], 1)).unwrap();
    assert_eq!(stats.stubbed, 19);
    let ratio = stats.elided_bytes() as f64 / stats.original_bytes as f64;
    assert!(
        ratio > 0.9,
        "expected >90% reduction, got {:.1}%",
        ratio * 100.0
    );
    index(&msgs).validate().unwrap();
}

/// keep_recent_count = 0 strips every matching image.
#[test]
fn keep_zero_strips_all() {
    let mut msgs = screenshot_session(4, 8192);
    let stats = apply(&mut msgs, &cfg(&[SCREENSHOT_TOOL], 0)).unwrap();
    assert_eq!(stats.stubbed, 4);
}

/// A glob `applies_to` pattern matches the screenshot tool.
#[test]
fn glob_applies_to_matches() {
    let mut msgs = screenshot_session(3, 8192);
    let stats = apply(&mut msgs, &cfg(&["*screenshot*"], 0)).unwrap();
    assert_eq!(stats.stubbed, 3);
}

/// A short, non-image result is never stubbed even if its tool matches.
#[test]
fn small_text_result_not_stripped() {
    let mut msgs = vec![
        obj(vec![
            ("role", js("user")),
            ("content", list(vec![obj(vec![("type", js("text")), ("text", js("shot"))])])),
        ]),
        obj(vec![
            ("role", js("assistant")),
            ("content", list(vec![
                obj(vec![
                    ("type", js("tool_use")),
                    ("id", js("toolu_s0")),
                    ("name", js(SCREENSHOT_TOOL.clone())),
                    ("input", obj(vec![])),
                ]),
            ])),
        ]),
        obj(vec![
            ("role", js("user")),
            ("content", list(vec![
                obj(vec![
                    ("type", js("tool_result")),
                    ("tool_use_id", js("toolu_s0")),
                    ("content", js("ok, captured")),
                ]),
            ])),
        ]),
    ];
    let stats = apply(&mut msgs, &cfg(&[SCREENSHOT_TOOL], 0)).unwrap();
    assert_eq!(stats.stubbed, 0);
}

/// Structured `[{"type":"image","source":...}]` content is detected.
#[test]
fn structured_image_block_detected() {
    let mut msgs = vec![
        obj(vec![
            ("role", js("user")),
            ("content", list(vec![obj(vec![("type", js("text")), ("text", js("shot"))])])),
        ]),
        obj(vec![
            ("role", js("assistant")),
            ("content", list(vec![
                obj(vec![
                    ("type", js("tool_use")),
                    ("id", js("toolu_s0")),
                    ("name", js(SCREENSHOT_TOOL.clone())),
                    ("input", obj(vec![])),
                ]),
            ])),
        ]),
        obj(vec![
            ("role", js("user")),
            ("content", list(vec![
                obj(vec![
                    ("type", js("tool_result")),
                    ("tool_use_id", js("toolu_s0")),
                    ("content", list(vec![
                        obj(vec![
                            ("type", js("image")),
                            ("source", obj(vec![
                                ("type", js("base64")),
                                ("media_type", js("image/png")),
                                ("data", js("abc")),
                            ])),
                        ]),
                    ])),
                ]),
            ])),
        ]),
    ];
    let stats = apply(&mut msgs, &cfg(&[SCREENSHOT_TOOL], 0)).unwrap();
    assert_eq!(stats.stubbed, 1);
    assert!(
        msgs[2]["content"][0]["content"]
            .as_str()
            .unwrap()
            .starts_with("[trimwire: image stripped]")
    );
}

/// Non-matching tools are ignored entirely.
#[test]
fn non_matching_tool_is_noop() {
    let mut msgs = screenshot_session(5, 8192);
    let stats = apply(&mut msgs, &cfg(&["Bash"], 0)).unwrap();
    assert_eq!(stats.stubbed, 0);
    assert_eq!(stats.elided_bytes(), 0);
}

#[test]
fn base64_heuristic_threshold() {
    assert!(!is_base64_image_content(&js("short")));
    assert!(is_base64_image_content(&js("A".repeat(MIN_BASE64_LEN))));
    // Long but not base64 alphabet (contains a newline-free non-b64 char).
    let dirty = format!("{}!", "A".repeat(MIN_BASE64_LEN));
    assert!(!is_base64_image_content(&js(dirty.clone())));
}

/// Structured-content edge cases must not false-positive.
#[test]
fn structured_image_edge_cases() {
    assert!(!is_base64_image_content(&Value::Null));
    // image block with no source, or a null source, is not a payload.
    assert!(!is_base64_image_content(&list(vec![obj(vec![("type", js("image"))])])));
    assert!(!is_base64_image_content(
        &list(vec![obj(vec![("type", js("image")), ("source", Value::Null)])])
    ));
    assert!(!is_base64_image_content(
        &list(vec![obj(vec![("type", js("text")), ("text", js("hi"))])])
    ));
}
