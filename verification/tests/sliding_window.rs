use serde_json::Value;
use trimwire::config::SlidingWindowConfig;
use trimwire::json::Json;
use trimwire::pairing::{PairingError, PairingIndex};
use trimwire::strategies::{sliding_window, Stats};

fn obj(members: Vec<(&str, Value)>) -> Value {
    Value::Object(members.into_iter().map(|(k, x)| (k.to_owned(), x)).collect())
}

fn list(items: Vec<Value>) -> Value {
    Value::Array(items)
}

fn js<T: Into<Value>>(x: T) -> Value {
    x.into()
}

fn to_json(value: &Value) -> Json {
    Json::parse(value.to_string().as_bytes()).unwrap()
}

fn to_value(json: &Json) -> Value {
    serde_json::from_str(&json.to_text()).unwrap()
}

fn to_jsons(values: &[Value]) -> Vec<Json> {
    values.iter().map(to_json).collect()
}

fn to_values(items: &[Json]) -> Vec<Value> {
    items.iter().map(to_value).collect()
}

fn index(messages: &[Value]) -> PairingIndex {
    PairingIndex::build(&to_jsons(messages))
}

fn apply(messages: &mut Vec<Value>, cfg: &SlidingWindowConfig) -> Result<Stats, PairingError> {
    let mut items = to_jsons(messages);
    let result = sliding_window::apply(&mut items, cfg);
    *messages = to_values(&items);
    result
}

fn role(msg: &Value) -> Option<&str> {
    msg.get("role").and_then(Value::as_str)
}

fn long_session(turns: usize) -> Vec<Value> {
    let mut msgs = Vec::new();
    for i in 0..turns {
        let uid = format!("toolu_{i:04}");
        msgs.push(
            obj(vec![
                ("role", js("user")),
                ("content", list(vec![
                    obj(vec![("type", js("text")), ("text", js(format!("turn {i}")))]),
                ])),
            ]),
        );
        msgs.push(obj(vec![
            ("role", js("assistant")),
            ("content", list(vec![
                obj(vec![
                    ("type", js("tool_use")),
                    ("id", js(uid.clone())),
                    ("name", js("Bash")),
                    ("input", obj(vec![("command", js(format!("echo {i}")))])),
                ]),
            ])),
        ]));
        msgs.push(obj(vec![
            ("role", js("user")),
            ("content", list(vec![
                obj(vec![
                    ("type", js("tool_result")),
                    ("tool_use_id", js(uid.clone())),
                    ("content", js(i.to_string())),
                ]),
            ])),
        ]));
    }
    msgs
}

fn cfg(denylist: &[&str], keep: usize) -> SlidingWindowConfig {
    SlidingWindowConfig {
        enabled: true,
        keep_recent_turns: keep,
        denylist_tools: denylist.iter().map(|s| (*s).to_owned()).collect(),
        exempt_tools: Vec::new(),
        stub: "[trimwire: elided, older than sliding window]".to_owned(),
    }
}

#[test]
fn off_by_one_ten_turns_keep_four() {
    let mut msgs = long_session(10);
    let stats = apply(&mut msgs, &cfg(&["Bash"], 4)).unwrap();
    assert_eq!(stats.stubbed, 6);
    // No orphans after mutation.
    index(&msgs).validate().unwrap();
    // We stub, never delete.
    assert_eq!(msgs.len(), 30);
}

/// The 4 most-recent assistant turns keep their real input/content.
#[test]
fn recent_turns_untouched_old_turns_stubbed() {
    let mut msgs = long_session(10);
    apply(&mut msgs, &cfg(&["Bash"], 4)).unwrap();
    // Oldest turn (assistant at index 1) is stubbed.
    assert_eq!(msgs[1]["content"][0]["input"], obj(vec![]));
    assert!(
        msgs[2]["content"][0]["content"]
            .as_str()
            .unwrap()
            .starts_with("[trimwire: elided, older than sliding window]")
    );
    // Most-recent turn (assistant at index 28) is untouched.
    assert_eq!(
        msgs[28]["content"][0]["input"],
        obj(vec![("command", js("echo 9"))])
    );
    assert_eq!(msgs[29]["content"][0]["content"], js("9"));
}

/// Empty denylist → nothing matches → no mutation, byte-stable.
#[test]
fn empty_denylist_is_noop() {
    let mut msgs = long_session(10);
    let before = serde_json::to_vec(&msgs).unwrap();
    let stats = apply(&mut msgs, &cfg(&[], 4)).unwrap();
    assert_eq!(stats.stubbed, 0);
    assert_eq!(stats.elided_bytes(), 0);
    assert_eq!(serde_json::to_vec(&msgs).unwrap(), before);
}

#[test]
fn authoring_tool_in_denylist_is_never_stubbed() {
    let body = format!("// authored\n{}", "x".repeat(2000));
    let mut msgs = vec![
        obj(vec![
            ("role", js("assistant")),
            ("content", list(vec![
                obj(vec![
                    ("type", js("tool_use")),
                    ("id", js("w0")),
                    ("name", js("Write")),
                    ("input", obj(vec![("file_path", js("/src/a.rs")), ("content", js(body.clone()))])),
                ]),
            ])),
        ]),
        obj(vec![
            ("role", js("user")),
            ("content", list(vec![
                obj(vec![
                    ("type", js("tool_result")),
                    ("tool_use_id", js("w0")),
                    ("content", js("wrote")),
                ]),
            ])),
        ]),
    ];
    // Eight recent Bash turns age the Write past keep_recent_turns = 4.
    for i in 0..8 {
        let uid = format!("b{i}");
        msgs.push(obj(vec![
            ("role", js("assistant")),
            ("content", list(vec![
                obj(vec![
                    ("type", js("tool_use")),
                    ("id", js(uid.clone())),
                    ("name", js("Bash")),
                    ("input", obj(vec![("command", js(format!("echo {i}")))])),
                ]),
            ])),
        ]));
        msgs.push(obj(vec![
            ("role", js("user")),
            ("content", list(vec![
                obj(vec![
                    ("type", js("tool_result")),
                    ("tool_use_id", js(uid.clone())),
                    ("content", js(i.to_string())),
                ]),
            ])),
        ]));
    }
    // Deny BOTH Write and Bash — the floor must still protect Write.
    apply(&mut msgs, &cfg(&["Write", "Bash"], 4)).unwrap();
    assert_eq!(
        msgs[0]["content"][0]["input"]["content"],
        js(body.clone()),
        "authored Write input must survive even when Write is denylisted"
    );
    assert_eq!(msgs[1]["content"][0]["content"], js("wrote"));
    index(&msgs).validate().unwrap();
}

/// A large old denylisted input is replaced with a RECOGNIZABLE trimwire
/// breadcrumb (not a silent `{}`); a small input stays `{}` (shrink-safe,
/// covered by `recent_turns_untouched_old_turns_stubbed`).
#[test]
fn large_old_input_gets_recognizable_breadcrumb() {
    let big_cmd = format!("echo {}", "a".repeat(200));
    let mut msgs = vec![
        obj(vec![
            ("role", js("assistant")),
            ("content", list(vec![
                obj(vec![
                    ("type", js("tool_use")),
                    ("id", js("b0")),
                    ("name", js("Bash")),
                    ("input", obj(vec![("command", js(big_cmd.clone()))])),
                ]),
            ])),
        ]),
        obj(vec![
            ("role", js("user")),
            ("content", list(vec![
                obj(vec![
                    ("type", js("tool_result")),
                    ("tool_use_id", js("b0")),
                    ("content", js("ok")),
                ]),
            ])),
        ]),
    ];
    for i in 0..8 {
        let uid = format!("r{i}");
        msgs.push(obj(vec![
            ("role", js("assistant")),
            ("content", list(vec![
                obj(vec![
                    ("type", js("tool_use")),
                    ("id", js(uid.clone())),
                    ("name", js("Bash")),
                    ("input", obj(vec![("command", js(format!("echo {i}")))])),
                ]),
            ])),
        ]));
        msgs.push(obj(vec![
            ("role", js("user")),
            ("content", list(vec![
                obj(vec![
                    ("type", js("tool_result")),
                    ("tool_use_id", js(uid.clone())),
                    ("content", js(i.to_string())),
                ]),
            ])),
        ]));
    }
    apply(&mut msgs, &cfg(&["Bash"], 4)).unwrap();
    let blanked = &msgs[0]["content"][0]["input"];
    assert_ne!(
        *blanked,
        obj(vec![]),
        "large input should carry a breadcrumb, not a silent {{}}"
    );
    assert!(
        serde_json::to_string(blanked)
            .unwrap()
            .contains("[trimwire: input elided"),
        "breadcrumb must be recognizable as trimwire; got {blanked}"
    );
    index(&msgs).validate().unwrap();
    // Idempotent: a second pass leaves the breadcrumb untouched.
    let before = serde_json::to_vec(&msgs).unwrap();
    apply(&mut msgs, &cfg(&["Bash"], 4)).unwrap();
    assert_eq!(
        serde_json::to_vec(&msgs).unwrap(),
        before,
        "breadcrumb is idempotent"
    );
}

/// A denylisted tool that is also exempt is skipped.
#[test]
fn exempt_overrides_denylist() {
    let mut msgs = long_session(10);
    let mut c = cfg(&["Bash"], 4);
    c.exempt_tools = vec!["Bash".to_owned()];
    let stats = apply(&mut msgs, &c).unwrap();
    assert_eq!(stats.stubbed, 0);
}

/// Re-applying to an already-stubbed body counts zero changes (so it
/// reports a no-op and the caller forwards verbatim — no cache-prefix churn).
#[test]
fn reapplying_to_stubbed_body_is_a_noop() {
    let mut msgs = long_session(6);
    let c = cfg(&["Bash"], 1);
    let first = apply(&mut msgs, &c).unwrap();
    assert!(first.stubbed > 0, "first pass stubs the old turns");
    let second = apply(&mut msgs, &c).unwrap();
    assert_eq!(second.stubbed, 0, "second pass changes nothing");
}

/// Glob denylist matches MCP tool names.
#[test]
fn glob_denylist_matches() {
    let mut msgs = vec![
        obj(vec![
            ("role", js("user")),
            ("content", list(vec![obj(vec![("type", js("text")), ("text", js("go"))])])),
        ]),
        obj(vec![
            ("role", js("assistant")),
            ("content", list(vec![
                obj(vec![
                    ("type", js("tool_use")),
                    ("id", js("toolu_a")),
                    ("name", js("mcp__playwright__navigate")),
                    ("input", obj(vec![("url", js("x"))])),
                ]),
            ])),
        ]),
        obj(vec![
            ("role", js("user")),
            ("content", list(vec![
                obj(vec![
                    ("type", js("tool_result")),
                    ("tool_use_id", js("toolu_a")),
                    ("content", js("ok")),
                ]),
            ])),
        ]),
    ];
    // Pad with recent turns so the MCP turn falls outside the window.
    for extra in long_session(5) {
        msgs.push(extra);
    }
    let stats = apply(&mut msgs, &cfg(&["mcp__playwright__*"], 4)).unwrap();
    assert_eq!(stats.stubbed, 1);
    assert_eq!(msgs[1]["content"][0]["input"], obj(vec![]));
}

/// Parallel tool_use blocks in one old assistant turn are all stubbed
/// atomically (no orphans).
#[test]
fn parallel_pairs_dropped_atomically() {
    let mut msgs = vec![
        obj(vec![
            ("role", js("user")),
            ("content", list(vec![obj(vec![("type", js("text")), ("text", js("go"))])])),
        ]),
        obj(vec![
            ("role", js("assistant")),
            ("content", list(vec![
                obj(vec![
                    ("type", js("tool_use")),
                    ("id", js("toolu_a")),
                    ("name", js("Bash")),
                    ("input", obj(vec![("command", js("a"))])),
                ]),
                obj(vec![
                    ("type", js("tool_use")),
                    ("id", js("toolu_b")),
                    ("name", js("Bash")),
                    ("input", obj(vec![("command", js("b"))])),
                ]),
                obj(vec![
                    ("type", js("tool_use")),
                    ("id", js("toolu_c")),
                    ("name", js("Bash")),
                    ("input", obj(vec![("command", js("c"))])),
                ]),
            ])),
        ]),
        obj(vec![
            ("role", js("user")),
            ("content", list(vec![
                obj(vec![
                    ("type", js("tool_result")),
                    ("tool_use_id", js("toolu_a")),
                    ("content", js("a")),
                ]),
                obj(vec![
                    ("type", js("tool_result")),
                    ("tool_use_id", js("toolu_b")),
                    ("content", js("b")),
                ]),
                obj(vec![
                    ("type", js("tool_result")),
                    ("tool_use_id", js("toolu_c")),
                    ("content", js("c")),
                ]),
            ])),
        ]),
    ];
    for extra in long_session(5) {
        msgs.push(extra);
    }
    let stats = apply(&mut msgs, &cfg(&["Bash"], 4)).unwrap();
    assert!(stats.stubbed >= 3);
    index(&msgs).validate().unwrap();
}

/// A pre-existing orphan makes pre-validation fail → Err (caller rolls back).
#[test]
fn orphan_input_returns_err() {
    let mut msgs = vec![obj(vec![
        ("role", js("user")),
        ("content", list(vec![
            obj(vec![
                ("type", js("tool_result")),
                ("tool_use_id", js("toolu_ghost")),
                ("content", js("x")),
            ]),
        ])),
    ])];
    assert!(apply(&mut msgs, &cfg(&["Bash"], 4)).is_err());
}

/// History shorter than the window → no cutoff → nothing stubbed.
#[test]
fn short_history_keeps_everything() {
    let mut msgs = long_session(3);
    let stats = apply(&mut msgs, &cfg(&["Bash"], 4)).unwrap();
    assert_eq!(stats.stubbed, 0);
}

/// With realistic-size payloads, stubbing nets a byte reduction.
#[test]
fn padded_payloads_shrink() {
    let mut msgs = long_session(50);
    for msg in msgs.iter_mut() {
        if role(msg) != Some("user") {
            continue;
        }
        if let Some(content) = msg.get_mut("content").and_then(Value::as_array_mut) {
            for block in content {
                if block.get("type").and_then(Value::as_str) == Some("tool_result") {
                    block["content"] = Value::String("x".repeat(200));
                }
            }
        }
    }
    let stats = apply(&mut msgs, &cfg(&["Bash"], 4)).unwrap();
    assert!(stats.stubbed > 0);
    assert!(stats.elided_bytes() > 0);
}
