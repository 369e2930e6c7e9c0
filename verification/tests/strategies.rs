use serde_json::Value;
use trimwire::config::{
    BloatCapConfig, Config, CrossTurnDedupConfig, FailedInputPurgeConfig, ImageStripConfig,
    SlidingWindowConfig, StaleReadsConfig,
};
use trimwire::json::Json;
use trimwire::pairing::PairingIndex;
use trimwire::strategies::{self, apply_to_body, BodyOutcome};

fn obj(members: Vec<(&str, Value)>) -> Value {
    Value::Object(members.into_iter().map(|(k, x)| (k.to_owned(), x)).collect())
}

fn list(items: Vec<Value>) -> Value {
    Value::Array(items)
}

fn js<T: Into<Value>>(x: T) -> Value {
    x.into()
}

fn to_json(value: &Value) -> Json {
    Json::parse(value.to_string().as_bytes()).unwrap()
}

fn to_value(json: &Json) -> Value {
    serde_json::from_str(&json.to_text()).unwrap()
}

fn to_jsons(values: &[Value]) -> Vec<Json> {
    values.iter().map(to_json).collect()
}

fn to_values(items: &[Json]) -> Vec<Value> {
    items.iter().map(to_value).collect()
}

fn index(messages: &[Value]) -> PairingIndex {
    PairingIndex::build(&to_jsons(messages))
}

fn is_already_cleared(content: &Value) -> bool {
    strategies::is_already_cleared(&to_json(content))
}

fn elision_marker(stub: &str, content: &Value) -> Value {
    to_value(&strategies::elision_marker(stub, &to_json(content)))
}

#[test]
fn is_already_cleared_matches_exact_marker() {
    assert!(
        is_already_cleared(&js("[Old tool result content cleared]")),
        "exact CC marker must return true"
    );
    assert!(
        !is_already_cleared(&js("[Old tool result content cleared] (123B elided)")),
        "must not match when marker has a suffix"
    );
    assert!(
        !is_already_cleared(&js("some other content")),
        "must not match other strings"
    );
    assert!(!is_already_cleared(&Value::Null), "must not match null");
    assert!(!is_already_cleared(&obj(vec![])), "must not match objects");
    // The single-text-block array form CC also emits.
    assert!(
        is_already_cleared(&list(vec![
            obj(vec![
                ("type", js("text")),
                ("text", js("[Old tool result content cleared]")),
            ]),
        ])),
        "single text block carrying the marker must return true"
    );
    assert!(
        !is_already_cleared(&list(vec![
            obj(vec![
                ("type", js("text")),
                ("text", js("[Old tool result content cleared]")),
            ]),
            obj(vec![("type", js("text")), ("text", js("and more"))]),
        ])),
        "must not match when the array has extra content"
    );
    assert!(
        !is_already_cleared(&list(vec![obj(vec![("type", js("text")), ("text", js("real output"))])])),
        "must not match an ordinary single text block"
    );
}

#[test]
fn elision_marker_size_is_raw_utf8_len() {
    let m = elision_marker("[trimwire: x]", &Value::String("héllo".to_owned()));
    assert_eq!(m.as_str().unwrap(), "[trimwire: x] (8B elided)");
}

/// A config with SlidingWindow enabled (denylist Bash, keep 1).
fn firing_config() -> Config {
    let mut cfg = Config::default();
    cfg.strategies.sliding_window = SlidingWindowConfig {
        enabled: true,
        keep_recent_turns: 1,
        denylist_tools: vec!["Bash".to_owned()],
        exempt_tools: vec![],
        stub: "[trimwire: elided, older than sliding window]".to_owned(),
    };
    cfg
}

#[test]
fn system_shape_normalize_gated_and_end_to_end() {
    // A body Anthropic would 400: role:"system" as messages[0], no top-level system.
    let body = serde_json::to_vec(&obj(vec![
        ("model", js("model-a")),
        ("messages", list(vec![
            obj(vec![("role", js("system")), ("content", js("you are helpful"))]),
            obj(vec![
                ("role", js("user")),
                ("content", list(vec![obj(vec![("type", js("text")), ("text", js("hi"))])])),
            ]),
        ])),
    ]))
    .unwrap();

    // OFF by default → trimwire forwards the malformed body unchanged (no repair).
    let off = Config::default();
    assert!(
        matches!(apply_to_body(&body, &off), BodyOutcome::Unchanged),
        "off by default → malformed body forwarded unchanged"
    );

    // ON → the stray system is lifted to the top level and the body becomes valid.
    let mut on = Config::default();
    on.strategies.system_shape_normalize.enabled = true;
    match apply_to_body(&body, &on) {
        BodyOutcome::Mutated { bytes, .. } => {
            let v: Value = serde_json::from_slice(&bytes).unwrap();
            assert_eq!(v["system"], js("you are helpful"), "system lifted");
            let msgs = v["messages"].as_array().unwrap();
            assert_eq!(msgs.len(), 1, "stray system message removed");
            assert_eq!(msgs[0]["role"], js("user"));
        }
        BodyOutcome::Unchanged => panic!("enabled normalize must mutate the malformed body"),
    }
}

/// A full `/v1/messages` envelope with `turns` old Bash tool pairs.
fn body_with_turns(turns: usize) -> Vec<u8> {
    let mut messages = Vec::new();
    for i in 0..turns {
        let uid = format!("toolu_{i}");
        messages.push(
            obj(vec![
                ("role", js("user")),
                ("content", list(vec![obj(vec![("type", js("text")), ("text", js(format!("t{i}")))])])),
            ]),
        );
        messages.push(obj(vec![
            ("role", js("assistant")),
            ("content", list(vec![
                obj(vec![
                    ("type", js("tool_use")),
                    ("id", js(uid.clone())),
                    ("name", js("Bash")),
                    ("input", obj(vec![("command", js(format!("echo {i}")))])),
                ]),
            ])),
        ]));
        messages.push(obj(vec![
            ("role", js("user")),
            ("content", list(vec![
                obj(vec![
                    ("type", js("tool_result")),
                    ("tool_use_id", js(uid.clone())),
                    ("content", js(format!("out {i}"))),
                ]),
            ])),
        ]));
    }
    let body = obj(vec![
        ("model", js("model-a-20241022")),
        ("max_tokens", js(1024)),
        ("system", js("You are an assistant.")),
        ("tools", list(vec![
            obj(vec![
                ("name", js("Bash")),
                ("input_schema", obj(vec![("type", js("object"))])),
            ]),
        ])),
        ("messages", js(messages.clone())),
    ]);
    serde_json::to_vec(&body).unwrap()
}

#[test]
fn mutation_preserves_everything_except_messages() {
    let body = body_with_turns(6);
    let out = match apply_to_body(&body, &firing_config()) {
        BodyOutcome::Mutated { bytes, fired } => {
            assert!(
                fired.iter().any(|(_, s)| s.stubbed > 0),
                "should have stubbed"
            );
            bytes
        }
        BodyOutcome::Unchanged => panic!("expected a mutation"),
    };
    let before: Value = serde_json::from_slice(&body).unwrap();
    let after: Value = serde_json::from_slice(&out).unwrap();
    for key in ["model", "max_tokens", "system", "tools"] {
        assert_eq!(
            before[key], after[key],
            "top-level `{key}` must be untouched"
        );
    }
    assert_ne!(
        before["messages"], after["messages"],
        "messages should change"
    );
}

/// No-op run forwards the original bytes verbatim (exact cache prefix).
#[test]
fn noop_run_is_unchanged() {
    // Denylist matches nothing in this body → stubbed == 0.
    let mut cfg = firing_config();
    cfg.strategies.sliding_window.denylist_tools = vec!["NoSuchTool".to_owned()];
    let body = body_with_turns(6);
    assert!(matches!(apply_to_body(&body, &cfg), BodyOutcome::Unchanged));
}

/// Strategies disabled → never mutates, even on a prunable body.
#[test]
fn disabled_strategies_are_unchanged() {
    let body = body_with_turns(6);
    assert!(matches!(
        apply_to_body(&body, &Config::default()),
        BodyOutcome::Unchanged
    ));
}

/// Malformed JSON forwards verbatim (rollback path).
#[test]
fn malformed_json_is_unchanged() {
    assert!(matches!(
        apply_to_body(b"this is not json{", &firing_config()),
        BodyOutcome::Unchanged
    ));
}

/// A body with no `messages[]` forwards verbatim.
#[test]
fn missing_messages_is_unchanged() {
    assert!(matches!(
        apply_to_body(br#"{"model":"model-a"}"#, &firing_config()),
        BodyOutcome::Unchanged
    ));
}

/// `messages` present but not an array forwards verbatim.
#[test]
fn non_array_messages_is_unchanged() {
    assert!(matches!(
        apply_to_body(br#"{"messages":42}"#, &firing_config()),
        BodyOutcome::Unchanged
    ));
}

/// Both strategies enabled run in order (SlidingWindow then ImageStrip)
/// over one body without double-stubbing or introducing orphans.
#[test]
fn both_strategies_fire_together() {
    // 5 old Bash turns + 5 old screenshot turns; keep 1 of each.
    let mut messages = Vec::new();
    for i in 0..5 {
        let uid = format!("toolu_b{i}");
        messages.push(
            obj(vec![
                ("role", js("user")),
                ("content", list(vec![obj(vec![("type", js("text")), ("text", js(format!("b{i}")))])])),
            ]),
        );
        messages.push(obj(vec![
            ("role", js("assistant")),
            ("content", list(vec![
                obj(vec![
                    ("type", js("tool_use")),
                    ("id", js(uid.clone())),
                    ("name", js("Bash")),
                    ("input", obj(vec![("command", js(format!("echo {i}")))])),
                ]),
            ])),
        ]));
        messages.push(obj(vec![
            ("role", js("user")),
            ("content", list(vec![
                obj(vec![
                    ("type", js("tool_result")),
                    ("tool_use_id", js(uid.clone())),
                    ("content", js("x".repeat(300))),
                ]),
            ])),
        ]));
    }
    for i in 0..5 {
        let uid = format!("toolu_s{i}");
        messages.push(
            obj(vec![
                ("role", js("user")),
                ("content", list(vec![obj(vec![("type", js("text")), ("text", js(format!("s{i}")))])])),
            ]),
        );
        messages.push(obj(vec![
            ("role", js("assistant")),
            ("content", list(vec![
                obj(vec![
                    ("type", js("tool_use")),
                    ("id", js(uid.clone())),
                    ("name", js("mcp__playwright__browser_take_screenshot")),
                    ("input", obj(vec![])),
                ]),
            ])),
        ]));
        messages.push(obj(vec![
            ("role", js("user")),
            ("content", list(vec![
                obj(vec![
                    ("type", js("tool_result")),
                    ("tool_use_id", js(uid.clone())),
                    ("content", js("A".repeat(5000))),
                ]),
            ])),
        ]));
    }
    let body = serde_json::to_vec(&obj(vec![("model", js("model-a")), ("messages", js(messages.clone()))])).unwrap();

    let mut cfg = Config::default();
    cfg.strategies.sliding_window = SlidingWindowConfig {
        enabled: true,
        keep_recent_turns: 1,
        denylist_tools: vec!["Bash".to_owned()],
        exempt_tools: vec![],
        stub: "[trimwire: elided, older than sliding window]".to_owned(),
    };
    cfg.strategies.image_strip = ImageStripConfig {
        enabled: true,
        applies_to_tools: vec!["mcp__playwright__browser_take_screenshot".to_owned()],
        keep_recent_count: 1,
        stub: "[trimwire: image stripped]".to_owned(),
    };

    let out = match apply_to_body(&body, &cfg) {
        BodyOutcome::Mutated { bytes, fired } => {
            let names: Vec<_> = fired.iter().map(|(n, _)| *n).collect();
            assert_eq!(
                names,
                vec!["sliding_window", "image_strip"],
                "ordered, both fired"
            );
            assert!(fired.iter().all(|(_, s)| s.stubbed > 0));
            bytes
        }
        BodyOutcome::Unchanged => panic!("expected both strategies to fire"),
    };

    // Forwarded body is orphan-free, and both stub markers are present.
    let after: Value = serde_json::from_slice(&out).unwrap();
    let messages = after["messages"].as_array().unwrap();
    index(&messages)
        .validate()
        .expect("no orphans after combined run");
    let text = serde_json::to_string(messages).unwrap();
    assert!(text.contains("older than sliding window"));
    assert!(text.contains("image stripped"));
}

/// The two default workhorses (dedup + failed-input-purge) fire together
/// through `apply_to_body`: both run, the prefix/system survive, and the
/// result is orphan-free.
#[test]
fn both_new_strategies_fire_together() {
    let mut messages = vec![
        obj(vec![
            ("role", js("assistant")),
            ("content", list(vec![
                obj(vec![
                    ("type", js("tool_use")),
                    ("id", js("b0")),
                    ("name", js("Bash")),
                    ("input", obj(vec![("command", js("boom")), ("stdin", js("y".repeat(2000)))])),
                ]),
            ])),
        ]),
        obj(vec![
            ("role", js("user")),
            ("content", list(vec![
                obj(vec![
                    ("type", js("tool_result")),
                    ("tool_use_id", js("b0")),
                    ("is_error", js(true)),
                    ("content", js("boom failed")),
                ]),
            ])),
        ]),
    ];
    // 6 identical reads (dedup → 5 superseded); the errored Bash above is
    // old once these are appended, so failed_input_purge clears its input.
    for i in 0..6 {
        let uid = format!("r{i}");
        messages.push(obj(vec![
            ("role", js("user")),
            ("content", list(vec![obj(vec![("type", js("text")), ("text", js("read"))])])),
        ]));
        messages.push(obj(vec![
            ("role", js("assistant")),
            ("content", list(vec![
                obj(vec![
                    ("type", js("tool_use")),
                    ("id", js(uid.clone())),
                    ("name", js("Read")),
                    ("input", obj(vec![("path", js("/f"))])),
                ]),
            ])),
        ]));
        messages.push(obj(vec![
            ("role", js("user")),
            ("content", list(vec![
                obj(vec![
                    ("type", js("tool_result")),
                    ("tool_use_id", js(uid.clone())),
                    ("content", js("x".repeat(100))),
                ]),
            ])),
        ]));
    }
    let body =
        serde_json::to_vec(&obj(vec![
            ("model", js("model-a")),
            ("system", js("S")),
            ("messages", js(messages.clone())),
        ]))
            .unwrap();

    let mut cfg = Config::default();
    cfg.strategies.cross_turn_dedup = CrossTurnDedupConfig {
        enabled: true,
        ..Default::default()
    };
    cfg.strategies.failed_input_purge = FailedInputPurgeConfig {
        enabled: true,
        ..Default::default()
    };

    let out = match apply_to_body(&body, &cfg) {
        BodyOutcome::Mutated { bytes, fired } => {
            let names: Vec<_> = fired.iter().map(|(n, _)| *n).collect();
            assert!(
                names.contains(&"failed_input_purge") && names.contains(&"cross_turn_dedup")
            );
            bytes
        }
        BodyOutcome::Unchanged => panic!("expected both strategies to fire"),
    };
    let before: Value = serde_json::from_slice(&body).unwrap();
    let after: Value = serde_json::from_slice(&out).unwrap();
    assert_eq!(before["system"], after["system"], "system preserved");
    assert_eq!(before["model"], after["model"]);
    let msgs = after["messages"].as_array().unwrap();
    index(&msgs)
        .validate()
        .expect("no orphans");
    let text = serde_json::to_string(msgs).unwrap();
    assert!(text.contains("superseded by a later identical call"));
    // Shape-preserving purge: the bulky stdin is elided, the command is kept.
    let purged_input = &after["messages"][0]["content"][0]["input"];
    assert_eq!(purged_input["command"], js("boom"), "command kept");
    assert!(
        purged_input["stdin"]
            .as_str()
            .unwrap()
            .starts_with("[trimwire:"),
        "bulky stdin elided"
    );
}

/// StaleReads + BloatCap compose safely on one body. They can now BOTH target an
/// old Read result (since the "Read coverage gap" fix, bloat_cap age-gates Read
/// instead of exempting it outright), but stale_reads runs first and stamps a
/// `[trimwire: ` marker, which bloat_cap then skips (marker-idempotency) — so a
/// superseded Read and an old bulky Bash result are each handled once, no
/// double-stub, no orphan, and the pass is idempotent.
#[test]
fn stale_reads_and_bloat_cap_compose_without_orphans() {
    let mut cfg = Config::default();
    cfg.strategies.stale_reads = StaleReadsConfig {
        enabled: true,
        ..Default::default()
    };
    cfg.strategies.bloat_cap = BloatCapConfig {
        enabled: true,
        threshold_bytes: 200,
        head_bytes: 20,
        tail_bytes: 20,
        keep_recent_turns: 1,
        ..Default::default()
    };

    let big = "x".repeat(1000);
    let mut messages = Vec::new();
    // turn 0: Read a.txt with a big result (later superseded → StaleReads stubs it).
    messages.push(obj(vec![
        ("role", js("user")),
        ("content", list(vec![obj(vec![("type", js("text")), ("text", js("read it"))])])),
    ]));
    messages.push(obj(vec![
        ("role", js("assistant")),
        ("content", list(vec![
            obj(vec![
                ("type", js("tool_use")),
                ("id", js("r0")),
                ("name", js("Read")),
                ("input", obj(vec![("file_path", js("a.txt"))])),
            ]),
        ])),
    ]));
    messages.push(obj(vec![
        ("role", js("user")),
        ("content", list(vec![
            obj(vec![
                ("type", js("tool_result")),
                ("tool_use_id", js("r0")),
                ("content", js(big.clone())),
            ]),
        ])),
    ]));
    // turn 1: a big Bash result (not exempt, ages past keep_recent → BloatCap trims).
    messages.push(obj(vec![
        ("role", js("assistant")),
        ("content", list(vec![
            obj(vec![
                ("type", js("tool_use")),
                ("id", js("b1")),
                ("name", js("Bash")),
                ("input", obj(vec![("command", js("cat big"))])),
            ]),
        ])),
    ]));
    messages.push(obj(vec![
        ("role", js("user")),
        ("content", list(vec![
            obj(vec![
                ("type", js("tool_result")),
                ("tool_use_id", js("b1")),
                ("content", js(big.clone())),
            ]),
        ])),
    ]));
    // a couple more turns so the Bash result is older than keep_recent_turns.
    for i in 0..2 {
        messages.push(obj(vec![
            ("role", js("assistant")),
            ("content", list(vec![
                obj(vec![
                    ("type", js("tool_use")),
                    ("id", js(format!("n{i}"))),
                    ("name", js("Bash")),
                    ("input", obj(vec![("command", js("echo"))])),
                ]),
            ])),
        ]));
        messages.push(obj(vec![
            ("role", js("user")),
            ("content", list(vec![
                obj(vec![
                    ("type", js("tool_result")),
                    ("tool_use_id", js(format!("n{i}"))),
                    ("content", js("ok")),
                ]),
            ])),
        ]));
    }
    // last turn: Read a.txt AGAIN → supersedes the turn-0 Read.
    messages.push(obj(vec![
        ("role", js("assistant")),
        ("content", list(vec![
            obj(vec![
                ("type", js("tool_use")),
                ("id", js("r9")),
                ("name", js("Read")),
                ("input", obj(vec![("file_path", js("a.txt"))])),
            ]),
        ])),
    ]));
    messages.push(obj(vec![
        ("role", js("user")),
        ("content", list(vec![
            obj(vec![
                ("type", js("tool_result")),
                ("tool_use_id", js("r9")),
                ("content", js("fresh view")),
            ]),
        ])),
    ]));

    let body = serde_json::to_vec(&obj(vec![
        ("model", js("model-a-20241022")),
        ("max_tokens", js(1024)),
        ("messages", js(messages.clone())),
    ]))
    .unwrap();

    let out = match apply_to_body(&body, &cfg) {
        BodyOutcome::Mutated { bytes, fired } => {
            let names: Vec<&str> = fired
                .iter()
                .filter(|(_, s)| s.stubbed > 0)
                .map(|(n, _)| *n)
                .collect();
            assert!(
                names.contains(&"stale_reads"),
                "stale_reads should fire: {names:?}"
            );
            assert!(
                names.contains(&"bloat_cap"),
                "bloat_cap should fire: {names:?}"
            );
            bytes
        }
        BodyOutcome::Unchanged => panic!("expected both strategies to mutate"),
    };

    // Idempotent: a second pass over the already-pruned body is a no-op
    // (pairing held — apply_to_body validates pre/post, so reaching here proves it).
    assert!(
        matches!(apply_to_body(&out, &cfg), BodyOutcome::Unchanged),
        "second pass must be a stable no-op"
    );
}

/// A pre-existing orphan makes the strategy error → rollback to original.
#[test]
fn orphaned_input_rolls_back() {
    let body = obj(vec![
        ("model", js("model-a")),
        ("messages", list(vec![
            obj(vec![
                ("role", js("user")),
                ("content", list(vec![
                    obj(vec![
                        ("type", js("tool_result")),
                        ("tool_use_id", js("toolu_ghost")),
                        ("content", js("x")),
                    ]),
                ])),
            ]),
        ])),
    ]);
    let bytes = serde_json::to_vec(&body).unwrap();
    assert!(matches!(
        apply_to_body(&bytes, &firing_config()),
        BodyOutcome::Unchanged
    ));
}
