use serde_json::Value;
use trimwire::config::BloatCapConfig;
use trimwire::json::Json;
use trimwire::pairing::{PairingError, PairingIndex};
use trimwire::strategies::{bloat_cap, Stats};
use trimwire::strategies::bloat_cap::{trim, CATASTROPHIC_KEEP};

fn obj(members: Vec<(&str, Value)>) -> Value {
    Value::Object(members.into_iter().map(|(k, x)| (k.to_owned(), x)).collect())
}

fn list(items: Vec<Value>) -> Value {
    Value::Array(items)
}

fn js<T: Into<Value>>(x: T) -> Value {
    x.into()
}

fn to_json(value: &Value) -> Json {
    Json::parse(value.to_string().as_bytes()).unwrap()
}

fn to_value(json: &Json) -> Value {
    serde_json::from_str(&json.to_text()).unwrap()
}

fn to_jsons(values: &[Value]) -> Vec<Json> {
    values.iter().map(to_json).collect()
}

fn to_values(items: &[Json]) -> Vec<Value> {
    items.iter().map(to_value).collect()
}

fn index(messages: &[Value]) -> PairingIndex {
    PairingIndex::build(&to_jsons(messages))
}

fn apply(messages: &mut Vec<Value>, cfg: &BloatCapConfig) -> Result<Stats, PairingError> {
    let mut items = to_jsons(messages);
    let result = bloat_cap::apply(&mut items, cfg);
    *messages = to_values(&items);
    result
}

fn cfg(threshold: usize, keep: usize, exempt: &[&str]) -> BloatCapConfig {
    BloatCapConfig {
        enabled: true,
        threshold_bytes: threshold,
        head_bytes: 8,
        tail_bytes: 8,
        keep_recent_turns: keep,
        exempt_tools: exempt.iter().map(|s| (*s).to_owned()).collect(),
        exempt_recent_only_tools: Vec::new(), // off unless a test opts in
        catastrophic_bytes: 0,                // off unless a test opts in
        stub_age_turns: 0,                    // off unless a test opts in
        protected_file_patterns: Vec::new(),  // off unless a test opts in
    }
}

/// N Bash turns; each result is `size` bytes.
fn session(turns: usize, size: usize) -> Vec<Value> {
    let mut msgs = Vec::new();
    for i in 0..turns {
        let uid = format!("u{i}");
        msgs.push(obj(vec![
            ("role", js("user")),
            ("content", list(vec![obj(vec![("type", js("text")), ("text", js("go"))])])),
        ]));
        msgs.push(obj(vec![
            ("role", js("assistant")),
            ("content", list(vec![
                obj(vec![
                    ("type", js("tool_use")),
                    ("id", js(uid.clone())),
                    ("name", js("Bash")),
                    ("input", obj(vec![("command", js(format!("c{i}")))])),
                ]),
            ])),
        ]));
        msgs.push(obj(vec![
            ("role", js("user")),
            ("content", list(vec![
                obj(vec![
                    ("type", js("tool_result")),
                    ("tool_use_id", js(uid.clone())),
                    ("content", js("z".repeat(size))),
                ]),
            ])),
        ]));
    }
    msgs
}

#[test]
fn trims_old_oversized_results_keeps_recent() {
    let mut msgs = session(10, 100); // 10 turns, 100-byte results
    let stats = apply(&mut msgs, &cfg(50, 4, &[])).unwrap();
    // 10 turns, keep 4. A tool_result sits one message AFTER its tool_use,
    // so the cutoff-turn's result is just outside the window → 5 trimmed
    // (turns 0–4), not 6.
    assert_eq!(stats.stubbed, 5);
    assert!(stats.elided_bytes() > 0);
    // Oldest trimmed (head 8 + marker + tail 8); most recent untouched.
    let trimmed = msgs[2]["content"][0]["content"].as_str().unwrap();
    assert!(trimmed.contains("[trimwire: trimmed"));
    assert_eq!(
        msgs[29]["content"][0]["content"].as_str().unwrap().len(),
        100
    );
    index(&msgs).validate().unwrap();
}

#[test]
fn catastrophic_cap_trims_recent_only_when_enabled() {
    // A 2-turn session with keep_recent_turns=8 → EVERY turn is "recent", so
    // the normal path never trims. turn 0 = small (5 KB) recent result; turn 1
    // (most recent) = catastrophic (600 KB) result.
    let big = "z".repeat(600_000);
    let small = "z".repeat(5_000);
    let build = || {
        list(vec![
            obj(vec![
                ("role", js("user")),
                ("content", list(vec![obj(vec![("type", js("text")), ("text", js("go"))])])),
            ]),
            obj(vec![
                ("role", js("assistant")),
                ("content", list(vec![
                    obj(vec![
                        ("type", js("tool_use")),
                        ("id", js("a")),
                        ("name", js("Bash")),
                        ("input", obj(vec![("command", js("c0"))])),
                    ]),
                ])),
            ]),
            obj(vec![
                ("role", js("user")),
                ("content", list(vec![
                    obj(vec![
                        ("type", js("tool_result")),
                        ("tool_use_id", js("a")),
                        ("content", js(small.clone())),
                    ]),
                ])),
            ]),
            obj(vec![
                ("role", js("user")),
                ("content", list(vec![obj(vec![("type", js("text")), ("text", js("go"))])])),
            ]),
            obj(vec![
                ("role", js("assistant")),
                ("content", list(vec![
                    obj(vec![
                        ("type", js("tool_use")),
                        ("id", js("b")),
                        ("name", js("Bash")),
                        ("input", obj(vec![("command", js("c1"))])),
                    ]),
                ])),
            ]),
            obj(vec![
                ("role", js("user")),
                ("content", list(vec![
                    obj(vec![
                        ("type", js("tool_result")),
                        ("tool_use_id", js("b")),
                        ("content", js(big.clone())),
                    ]),
                ])),
            ]),
        ])
        .as_array()
        .unwrap()
        .clone()
    };

    // DISABLED (catastrophic_bytes = 0): recent results untouched even at 600 KB.
    let mut off = build();
    let stats_off = apply(&mut off, &cfg(50, 8, &[])).unwrap();
    assert_eq!(stats_off.stubbed, 0, "disabled → recent results untouched");
    assert_eq!(
        off[5]["content"][0]["content"].as_str().unwrap().len(),
        600_000
    );

    // ENABLED at 400 KB: only the 600 KB recent result is capped; the 5 KB one
    // (above the normal 50-byte threshold, but recent) is NOT — recent results
    // are only ever touched at the catastrophic threshold.
    let mut on = build();
    let mut c = cfg(50, 8, &[]);
    c.catastrophic_bytes = 400_000;
    let stats_on = apply(&mut on, &c).unwrap();
    assert_eq!(
        stats_on.stubbed, 1,
        "only the catastrophic recent result is capped"
    );
    let capped = on[5]["content"][0]["content"].as_str().unwrap();
    assert!(
        capped.contains("[trimwire: catastrophic-cap trimmed"),
        "distinct catastrophic marker for diagnosis"
    );
    assert!(capped.len() < 600_000, "the catastrophic result shrank");
    assert!(
        capped.len() >= CATASTROPHIC_KEEP,
        "generous head/tail floor preserved (model may be using it)"
    );
    assert_eq!(
        on[2]["content"][0]["content"].as_str().unwrap().len(),
        5_000,
        "the small recent result is left untouched"
    );
    index(&on).validate().unwrap();

    // Idempotent: re-running caps nothing further (marker prefix is recognised).
    let again = apply(&mut on, &c).unwrap();
    assert_eq!(again.stubbed, 0, "idempotent — already capped");
}

#[test]
fn catastrophic_cap_handles_recent_array_content() {
    // A RECENT tool_result whose content is an ARRAY with a huge text block
    // (e.g. an MCP result) — the catastrophic cap must salvage it via the
    // array path, not just the string path.
    let big = "z".repeat(600_000);
    let mut m = vec![
        obj(vec![
            ("role", js("user")),
            ("content", list(vec![obj(vec![("type", js("text")), ("text", js("go"))])])),
        ]),
        obj(vec![
            ("role", js("assistant")),
            ("content", list(vec![
                obj(vec![
                    ("type", js("tool_use")),
                    ("id", js("a")),
                    ("name", js("Bash")),
                    ("input", obj(vec![("command", js("c"))])),
                ]),
            ])),
        ]),
        obj(vec![
            ("role", js("user")),
            ("content", list(vec![
                obj(vec![
                    ("type", js("tool_result")),
                    ("tool_use_id", js("a")),
                    ("content", list(vec![obj(vec![("type", js("text")), ("text", js(big.clone()))])])),
                ]),
            ])),
        ]),
    ];
    let mut c = cfg(50, 8, &[]); // keep_recent 8 → the only turn is recent
    c.catastrophic_bytes = 400_000;
    let stats = apply(&mut m, &c).unwrap();
    assert_eq!(
        stats.stubbed, 1,
        "recent array-content catastrophic result is capped"
    );
    let inner = m[2]["content"][0]["content"][0]["text"].as_str().unwrap();
    assert!(inner.len() < 600_000, "the huge text block shrank");
    assert!(
        inner.contains("[trimwire: catastrophic-cap trimmed"),
        "distinct marker"
    );
    index(&m).validate().unwrap();
}

#[test]
fn b5_age_ladder_benchmark() {
    let serialized = |m: &[Value]| serde_json::to_string(m).unwrap().len();
    // Production-like: 20 KB results, head/tail = 2048 (the real defaults), so
    // baseline keeps ~4 KB/old result and B-5's full-stub saves the difference.
    let prod_cfg = |stub_age: usize| BloatCapConfig {
        enabled: true,
        threshold_bytes: 4_096,
        head_bytes: 2_048,
        tail_bytes: 2_048,
        keep_recent_turns: 2,
        exempt_tools: vec![],
        exempt_recent_only_tools: vec![],
        catastrophic_bytes: 0,
        stub_age_turns: stub_age,
        protected_file_patterns: Vec::new(),
    };
    let base_in = session(20, 20_000);

    let mut base = base_in.clone();
    apply(&mut base, &prod_cfg(0)).unwrap();
    let base_bytes = serialized(&base);

    let mut b5 = base_in.clone();
    apply(&mut b5, &prod_cfg(6)).unwrap();
    let b5_bytes = serialized(&b5);

    assert!(
        b5_bytes < base_bytes,
        "B-5 full-stub of very-old saves more than the head+tail baseline"
    );
    index(&b5).validate().unwrap();
}

#[test]
fn b5_age_ladder_three_tiers() {
    // stub_age_turns=6, keep_recent=2 over 20 turns of 20KB results →
    // recent (last 2) untouched, mid-age head+tail, very-old fully stubbed.
    let mut m = session(20, 20_000);
    // head+tail well below threshold so a trimmed result falls under it (clean
    // idempotency — the threshold≈head+tail edge is a separate bloat_cap matter).
    let mut c = cfg(4_096, 2, &[]);
    c.head_bytes = 512;
    c.tail_bytes = 512;
    c.stub_age_turns = 6;
    apply(&mut m, &c).unwrap();

    let results: Vec<&str> = m
        .iter()
        .filter_map(|x| x.get("content").and_then(Value::as_array))
        .flatten()
        .filter(|b| b.get("type").and_then(Value::as_str) == Some("tool_result"))
        .filter_map(|b| b.get("content").and_then(Value::as_str))
        .collect();
    let aged = results
        .iter()
        .filter(|r| r.contains("aged-out result"))
        .count();
    let trimmed = results
        .iter()
        .filter(|r| r.contains("[trimwire: trimmed"))
        .count();
    let untouched = results.iter().filter(|r| r.len() == 20_000).count();
    assert!(
        aged > 0,
        "very-old results are fully stubbed (aged-out tier)"
    );
    assert!(
        trimmed > 0,
        "mid-age results are head+tail trimmed (middle tier)"
    );
    assert!(
        untouched >= 1,
        "the most-recent results are untouched (full tier)"
    );
    index(&m).validate().unwrap();

    // Idempotent: markers carry the `[trimwire: ` prefix → skipped on re-run.
    let again = apply(&mut m, &c).unwrap();
    assert_eq!(again.stubbed, 0, "idempotent — already laddered");
}

#[test]
fn b5_misconfig_below_keep_recent_is_off() {
    // stub_age_turns <= keep_recent_turns must be treated as OFF (no full-stub),
    // not silently collapse the middle tier.
    let mut m = session(20, 20_000);
    let mut c = cfg(4_096, 6, &[]); // keep_recent = 6
    c.head_bytes = 512;
    c.tail_bytes = 512;
    c.stub_age_turns = 3; // 3 <= 6 → misconfigured → off
    apply(&mut m, &c).unwrap();
    let any_aged = m
        .iter()
        .filter_map(|x| x.get("content").and_then(Value::as_array))
        .flatten()
        .filter_map(|b| b.get("content").and_then(Value::as_str))
        .any(|r| r.contains("aged-out result"));
    assert!(
        !any_aged,
        "stub_age_turns <= keep_recent_turns → no full-stub tier"
    );
}

#[test]
fn protected_file_patterns_skips_matching_paths() {
    // Two OLD oversized Read results (200 B > threshold 50): one for a
    // protected path (AGENTS.md), one not. Read is NOT in this test's
    // exempt_tools, so without protection both would trim.
    let big = "x".repeat(200);
    let mk = |id: &str, path: &str| {
        vec![
            obj(vec![
                ("role", js("user")),
                ("content", list(vec![obj(vec![("type", js("text")), ("text", js("go"))])])),
            ]),
            obj(vec![
                ("role", js("assistant")),
                ("content", list(vec![
                    obj(vec![
                        ("type", js("tool_use")),
                        ("id", js(id.clone())),
                        ("name", js("Read")),
                        ("input", obj(vec![("file_path", js(path.clone()))])),
                    ]),
                ])),
            ]),
            obj(vec![
                ("role", js("user")),
                ("content", list(vec![
                    obj(vec![
                        ("type", js("tool_result")),
                        ("tool_use_id", js(id.clone())),
                        ("content", js(big.clone())),
                    ]),
                ])),
            ]),
        ]
    };
    let mut m = Vec::new();
    m.extend(mk("a", "/repo/AGENTS.md"));
    m.extend(mk("b", "/repo/src/foo.rs"));
    // Pad with recent Bash turns so the two Reads are OLD (outside keep=2).
    for i in 0..6 {
        let id = format!("p{i}");
        m.push(obj(vec![
            ("role", js("user")),
            ("content", list(vec![obj(vec![("type", js("text")), ("text", js("go"))])])),
        ]));
        m.push(obj(vec![
            ("role", js("assistant")),
            ("content", list(vec![
                obj(vec![
                    ("type", js("tool_use")),
                    ("id", js(id.clone())),
                    ("name", js("Bash")),
                    ("input", obj(vec![("command", js("c"))])),
                ]),
            ])),
        ]));
        m.push(obj(vec![
            ("role", js("user")),
            ("content", list(vec![
                obj(vec![
                    ("type", js("tool_result")),
                    ("tool_use_id", js(id.clone())),
                    ("content", js("ok")),
                ]),
            ])),
        ]));
    }
    let mut c = cfg(50, 2, &[]);
    c.protected_file_patterns = vec!["*AGENTS.md".to_owned()];
    apply(&mut m, &c).unwrap();
    assert_eq!(
        m[2]["content"][0]["content"].as_str().unwrap().len(),
        200,
        "protected AGENTS.md result is left untouched"
    );
    assert!(
        m[5]["content"][0]["content"]
            .as_str()
            .unwrap()
            .contains("[trimwire: trimmed"),
        "non-protected foo.rs result is still trimmed"
    );
    index(&m).validate().unwrap();
}

#[test]
fn under_threshold_untouched() {
    let mut msgs = session(10, 20);
    let stats = apply(&mut msgs, &cfg(1000, 4, &[])).unwrap();
    assert_eq!(stats.stubbed, 0);
}

#[test]
fn exempt_tool_not_trimmed() {
    let mut msgs = session(10, 100);
    // Rename the tool to Read (exempt by default).
    for m in msgs.iter_mut() {
        if let Some(c) = m.get_mut("content").and_then(Value::as_array_mut) {
            for b in c {
                if b.get("type").and_then(Value::as_str) == Some("tool_use") {
                    b["name"] = js("Read");
                }
            }
        }
    }
    let stats = apply(&mut msgs, &cfg(50, 4, &["Read"])).unwrap();
    assert_eq!(stats.stubbed, 0);
}

#[test]
fn subagent_agent_and_task_exempt_by_default() {
    let base = BloatCapConfig {
        enabled: true,
        threshold_bytes: 50,
        head_bytes: 8,
        tail_bytes: 8,
        keep_recent_turns: 4,
        ..BloatCapConfig::default()
    };
    let renamed = |name: &str| {
        let mut msgs = session(10, 100);
        for m in msgs.iter_mut() {
            if let Some(c) = m.get_mut("content").and_then(Value::as_array_mut) {
                for b in c {
                    if b.get("type").and_then(Value::as_str) == Some("tool_use") {
                        b["name"] = js(name.clone());
                    }
                }
            }
        }
        msgs
    };
    for exempt in ["Agent", "Task", "Edit", "Write", "MultiEdit"] {
        let mut m = renamed(exempt);
        let s = apply(&mut m, &base).unwrap();
        assert_eq!(
            s.stubbed, 0,
            "{exempt} must be exempt from bloat_cap by default"
        );
    }
    for trimmed in ["Bash", "Glob", "WebFetch"] {
        let mut m = renamed(trimmed);
        let s = apply(&mut m, &base).unwrap();
        assert!(
            s.stubbed > 0,
            "{trimmed} must still be trimmed (not exempt)"
        );
    }
}

#[test]
fn bloat_cap_deterministic() {
    let mut a = session(10, 100);
    let mut b = session(10, 100);
    apply(&mut a, &cfg(50, 4, &[])).unwrap();
    apply(&mut b, &cfg(50, 4, &[])).unwrap();
    assert_eq!(
        serde_json::to_string(&a).unwrap(),
        serde_json::to_string(&b).unwrap()
    );
}

#[test]
fn trim_respects_utf8_boundaries() {
    // Multi-byte chars around the cut points must not panic or split.
    let s = "é".repeat(100); // 200 bytes
    let out = trim(&s, 9, 9, "trimmed").expect("200-byte string trims smaller"); // 9 lands mid-char → clamps
    assert!(out.contains("[trimwire: trimmed"));
    // Round-trips as valid UTF-8 (String is always valid; just assert non-empty halves).
    assert!(out.starts_with('é'));
    assert!(out.len() < s.len(), "trim must shrink");
}

#[test]
fn trim_never_grows_the_body() {
    // Result just over threshold but smaller than head+tail+marker: the
    // trim would grow it, so it must be skipped (None / not counted).
    assert_eq!(
        trim(&"z".repeat(40), 8, 8, "trimmed"),
        None,
        "trim must not grow"
    );
    // And end-to-end: the gateway must never emit a larger messages body.
    let mut msgs = session(10, 40); // 40-byte results, threshold 30
    let stats = apply(&mut msgs, &cfg(30, 4, &[])).unwrap();
    assert_eq!(stats.stubbed, 0, "no result trimmed (would grow)");
    assert!(
        stats.final_bytes <= stats.original_bytes,
        "body never grows"
    );
    assert!(stats.elided_bytes() >= 0, "savings never negative");
}

#[test]
fn trim_salvages_signal_lines_from_the_middle() {
    // A big log whose error/warning lines sit in the dropped middle: trim
    // keeps them (the signal), not just arbitrary head bytes.
    let mut s = String::new();
    s.push_str(&"head ".repeat(30));
    s.push('\n');
    s.push_str(&"noise\n".repeat(800));
    s.push_str("error[E0001]: the load-bearing error\n");
    s.push_str(&"noise\n".repeat(800));
    s.push_str("warning: a salient warning\n");
    s.push_str(&"noise\n".repeat(800));
    s.push_str(&"tail ".repeat(30));

    let out = trim(&s, 64, 64, "trimmed").expect("a big string should trim");
    assert!(out.len() < s.len(), "still shrinks");
    assert!(
        out.contains("error[E0001]: the load-bearing error"),
        "kept the error"
    );
    assert!(
        out.contains("warning: a salient warning"),
        "kept the warning"
    );
    assert!(out.contains("signal line"), "marker reports the salvage");
}

#[test]
fn exactly_at_threshold_is_untouched() {
    // `<=` threshold: a result exactly at the threshold is left alone;
    // one byte over is trimmed.
    let mut at = session(10, 50);
    assert_eq!(apply(&mut at, &cfg(50, 4, &[])).unwrap().stubbed, 0);
    let mut over = session(10, 51);
    assert_eq!(apply(&mut over, &cfg(50, 4, &[])).unwrap().stubbed, 5);
}

/// Build a session with array-content tool_results of a given total serialized size.
fn array_session(turns: usize, items: usize, item_size: usize) -> Vec<Value> {
    let mut msgs = Vec::new();
    for i in 0..turns {
        let uid = format!("u{i}");
        msgs.push(obj(vec![
            ("role", js("user")),
            ("content", list(vec![obj(vec![("type", js("text")), ("text", js("go"))])])),
        ]));
        msgs.push(obj(vec![
            ("role", js("assistant")),
            ("content", list(vec![
                obj(vec![
                    ("type", js("tool_use")),
                    ("id", js(uid.clone())),
                    ("name", js("Bash")),
                    ("input", obj(vec![("command", js(format!("c{i}")))])),
                ]),
            ])),
        ]));
        // Array content: a list of text blocks.
        let arr: Vec<Value> = (0..items)
            .map(|j| obj(vec![("type", js("text")), ("text", js("z".repeat(item_size + j)))]))
            .collect();
        msgs.push(obj(vec![
            ("role", js("user")),
            ("content", list(vec![
                obj(vec![
                    ("type", js("tool_result")),
                    ("tool_use_id", js(uid.clone())),
                    ("content", js(arr.clone())),
                ]),
            ])),
        ]));
    }
    msgs
}

#[test]
fn array_content_trimmed_when_over_threshold() {
    // 10 turns, each array result > threshold_bytes.
    let mut msgs = array_session(10, 3, 200); // ~600+ bytes per array result
    let stats = apply(&mut msgs, &cfg(100, 4, &[])).unwrap();
    // 5 old turns should be salvaged (same cutoff logic as string content).
    assert_eq!(stats.stubbed, 5, "5 old array results should be salvaged");
    assert!(stats.elided_bytes() > 0);
    let result_content = &msgs[2]["content"][0]["content"];
    let arr = result_content
        .as_array()
        .expect("array structure preserved, not erased to a string");
    assert_eq!(arr.len(), 3, "all blocks kept");
    assert!(
        arr[0]["text"]
            .as_str()
            .unwrap()
            .contains("[trimwire: trimmed"),
        "bulky text block trimmed in place: {:?}",
        arr[0]["text"]
    );
    index(&msgs).validate().unwrap();
}

#[test]
fn array_pure_nontext_falls_back_to_total_erase() {
    // An array with NO text blocks (e.g. a big base64 image) over threshold has
    // nothing to salvage → it is total-erased to the array marker (still caps it).
    let big_b64 = "A".repeat(2000);
    let mut msgs = vec![
        obj(vec![
            ("role", js("user")),
            ("content", list(vec![obj(vec![("type", js("text")), ("text", js("go"))])])),
        ]),
        obj(vec![
            ("role", js("assistant")),
            ("content", list(vec![
                obj(vec![
                    ("type", js("tool_use")),
                    ("id", js("img")),
                    ("name", js("Bash")),
                    ("input", obj(vec![("command", js("shot"))])),
                ]),
            ])),
        ]),
        obj(vec![
            ("role", js("user")),
            ("content", list(vec![
                obj(vec![
                    ("type", js("tool_result")),
                    ("tool_use_id", js("img")),
                    ("content", list(vec![
                        obj(vec![
                            ("type", js("image")),
                            ("source", obj(vec![
                                ("type", js("base64")),
                                ("media_type", js("image/png")),
                                ("data", js(big_b64.clone())),
                            ])),
                        ]),
                    ])),
                ]),
            ])),
        ]),
    ];
    for i in 0..6 {
        let uid = format!("t{i}");
        msgs.push(obj(vec![
            ("role", js("assistant")),
            ("content", list(vec![
                obj(vec![
                    ("type", js("tool_use")),
                    ("id", js(uid.clone())),
                    ("name", js("Bash")),
                    ("input", obj(vec![("command", js(format!("e{i}")))])),
                ]),
            ])),
        ]));
        msgs.push(obj(vec![
            ("role", js("user")),
            ("content", list(vec![
                obj(vec![
                    ("type", js("tool_result")),
                    ("tool_use_id", js(uid.clone())),
                    ("content", js("ok")),
                ]),
            ])),
        ]));
    }
    let stats = apply(&mut msgs, &cfg(100, 4, &[])).unwrap();
    assert!(
        stats.stubbed >= 1,
        "old pure-image array should be total-erased"
    );
    let marker = msgs[2]["content"][0]["content"]
        .as_str()
        .expect("pure non-text array erased to a string marker");
    assert!(marker.contains("[trimwire: array content elided"));
    index(&msgs).validate().unwrap();
}

#[test]
fn array_content_under_threshold_untouched() {
    let mut msgs = array_session(10, 1, 10); // tiny arrays, well under threshold
    let stats = apply(&mut msgs, &cfg(10_000, 4, &[])).unwrap();
    assert_eq!(stats.stubbed, 0);
}

#[test]
fn array_content_idempotent() {
    // Re-applying to an already-elided array must count zero changes.
    let mut msgs = array_session(10, 3, 200);
    let first = apply(&mut msgs, &cfg(100, 4, &[])).unwrap();
    assert!(first.stubbed > 0, "first pass must elide");
    let second = apply(&mut msgs, &cfg(100, 4, &[])).unwrap();
    assert_eq!(second.stubbed, 0, "second pass must be a no-op");
}

// ---- Fix #1: age-gated Read exemption (the "Read coverage gap") ----

/// A session of `tools.len()` turns; turn `i` runs `tools[i]` with a `size`-byte
/// result. Each tool_use carries an `input.file_path` so the paired-name lookup
/// resolves (mirrors a real Read/Write call shape).
fn named_session(tools: &[&str], size: usize) -> Vec<Value> {
    let mut msgs = Vec::new();
    for (i, tool) in tools.iter().enumerate() {
        let uid = format!("u{i}");
        msgs.push(obj(vec![
            ("role", js("user")),
            ("content", list(vec![obj(vec![("type", js("text")), ("text", js("go"))])])),
        ]));
        msgs.push(obj(vec![
            ("role", js("assistant")),
            ("content", list(vec![
                obj(vec![
                    ("type", js("tool_use")),
                    ("id", js(uid.clone())),
                    ("name", js(*tool)),
                    ("input", obj(vec![("file_path", js(format!("/f{i}")))])),
                ]),
            ])),
        ]));
        msgs.push(obj(vec![
            ("role", js("user")),
            ("content", list(vec![
                obj(vec![
                    ("type", js("tool_result")),
                    ("tool_use_id", js(uid.clone())),
                    ("content", js("z".repeat(size))),
                ]),
            ])),
        ]));
    }
    msgs
}

/// The shipped-default age-gate shape: authoring tools NEVER trimmed,
/// `Read` exempt only while recent.
fn age_gate_cfg(threshold: usize, keep: usize) -> BloatCapConfig {
    let mut c = cfg(threshold, keep, &["Edit", "Write", "MultiEdit", "Task"]);
    c.exempt_recent_only_tools = vec!["Read".to_owned()];
    c
}

#[test]
fn age_gated_read_trims_old_keeps_recent() {
    // 10 Read turns, keep_recent 2 → old Read results trimmed, the most-recent
    // ones left fully intact (a just-read file may be in active use).
    let mut msgs = named_session(&["Read"; 10], 100);
    let stats = apply(&mut msgs, &age_gate_cfg(50, 2)).unwrap();
    // 10 turns, keep 2: the result lags its tool_use by one message, so turns
    // 0..=6 are old (7 trimmed) and turns 7,8,9 stay recent (same cutoff math
    // as `trims_old_oversized_results_keeps_recent`: N - keep - 1 trimmed).
    assert_eq!(
        stats.stubbed, 7,
        "exactly the 7 old Read results are trimmed"
    );
    assert!(
        msgs[2]["content"][0]["content"]
            .as_str()
            .unwrap()
            .contains("[trimwire: trimmed"),
        "the oldest Read result is trimmed"
    );
    // BOTH of the last two reads (turns 8 and 9) are recent → fully intact.
    assert_eq!(
        msgs[26]["content"][0]["content"].as_str().unwrap().len(),
        100,
        "the second-most-recent Read result is untouched"
    );
    assert_eq!(
        msgs[29]["content"][0]["content"].as_str().unwrap().len(),
        100,
        "the most-recent Read result is untouched (recent-only exemption)"
    );
    index(&msgs).validate().unwrap();
}

#[test]
fn age_gated_read_recent_within_keep_is_intact() {
    // keep_recent large enough that EVERY Read turn is recent → none trimmed,
    // exactly as before the fix (recent reads stay protected).
    let mut msgs = named_session(&["Read"; 4], 100);
    let stats = apply(&mut msgs, &age_gate_cfg(50, 8)).unwrap();
    assert_eq!(stats.stubbed, 0, "all-recent Reads must remain intact");
    for m in &msgs {
        if let Some(c) = m["content"][0].get("content").and_then(Value::as_str) {
            if m["content"][0]["type"] == "tool_result" {
                assert_eq!(c.len(), 100, "recent Read result untouched");
            }
        }
    }
}

#[test]
fn authoring_tools_exempt_at_every_age() {
    for tool in ["Write", "Edit", "MultiEdit", "Task"] {
        let mut msgs = named_session(&[tool; 10], 100);
        let stats = apply(&mut msgs, &age_gate_cfg(50, 2)).unwrap();
        assert_eq!(stats.stubbed, 0, "{tool} results must never be trimmed");
    }
}

#[test]
fn age_gated_read_array_content_trimmed_when_old() {
    // An OLD Read whose tool_result content is an ARRAY with a bulky text block
    // (e.g. structured output) is salvaged via the array path; a RECENT one is
    // left intact.
    let big = "z".repeat(2000);
    let mk = |id: &str| {
        vec![
            obj(vec![
                ("role", js("user")),
                ("content", list(vec![obj(vec![("type", js("text")), ("text", js("go"))])])),
            ]),
            obj(vec![
                ("role", js("assistant")),
                ("content", list(vec![
                    obj(vec![
                        ("type", js("tool_use")),
                        ("id", js(id.clone())),
                        ("name", js("Read")),
                        ("input", obj(vec![("file_path", js("/f"))])),
                    ]),
                ])),
            ]),
            obj(vec![
                ("role", js("user")),
                ("content", list(vec![
                    obj(vec![
                        ("type", js("tool_result")),
                        ("tool_use_id", js(id.clone())),
                        ("content", list(vec![
                            obj(vec![("type", js("text")), ("text", js(big.clone()))]),
                        ])),
                    ]),
                ])),
            ]),
        ]
    };
    let mut msgs = Vec::new();
    msgs.extend(mk("old")); // turn 0 — will age out
    // Pad with recent Bash turns so the array Read is OLD (outside keep=2).
    for i in 0..6 {
        let id = format!("b{i}");
        msgs.push(obj(vec![
            ("role", js("user")),
            ("content", list(vec![obj(vec![("type", js("text")), ("text", js("go"))])])),
        ]));
        msgs.push(obj(vec![
            ("role", js("assistant")),
            ("content", list(vec![
                obj(vec![
                    ("type", js("tool_use")),
                    ("id", js(id.clone())),
                    ("name", js("Bash")),
                    ("input", obj(vec![("command", js("c"))])),
                ]),
            ])),
        ]));
        msgs.push(obj(vec![
            ("role", js("user")),
            ("content", list(vec![
                obj(vec![
                    ("type", js("tool_result")),
                    ("tool_use_id", js(id.clone())),
                    ("content", js("ok")),
                ]),
            ])),
        ]));
    }
    let stats = apply(&mut msgs, &age_gate_cfg(100, 2)).unwrap();
    assert!(stats.stubbed >= 1, "old array-content Read must be trimmed");
    let inner = msgs[2]["content"][0]["content"][0]["text"]
        .as_str()
        .unwrap();
    assert!(inner.len() < 2000, "the bulky text block shrank");
    assert!(
        inner.contains("[trimwire: trimmed"),
        "array path trimmed in place"
    );
    index(&msgs).validate().unwrap();
}

#[test]
fn age_gated_read_idempotent_no_orphans() {
    // Trimming OLD Reads is idempotent (re-run changes nothing) and never
    // orphans a tool_use/tool_result pair (string + array shapes).
    let mut msgs = named_session(&["Read"; 10], 100);
    let first = apply(&mut msgs, &age_gate_cfg(50, 2)).unwrap();
    assert!(first.stubbed > 0, "first pass trims old Reads");
    let second = apply(&mut msgs, &age_gate_cfg(50, 2)).unwrap();
    assert_eq!(second.stubbed, 0, "idempotent — already trimmed");
    index(&msgs).validate().unwrap();
}

#[test]
fn is_already_cleared_skips_cc_compact_marker() {
    // A result with CC's own compact marker must not be re-elided by bloat_cap.
    let mut msgs = Vec::new();
    let uid = "u0";
    msgs.push(obj(vec![
        ("role", js("user")),
        ("content", list(vec![obj(vec![("type", js("text")), ("text", js("go"))])])),
    ]));
    msgs.push(obj(vec![
        ("role", js("assistant")),
        ("content", list(vec![
            obj(vec![
                ("type", js("tool_use")),
                ("id", js(uid.clone())),
                ("name", js("Bash")),
                ("input", obj(vec![("command", js("c"))])),
            ]),
        ])),
    ]));
    msgs.push(obj(vec![
        ("role", js("user")),
        ("content", list(vec![
            obj(vec![
                ("type", js("tool_result")),
                ("tool_use_id", js(uid.clone())),
                ("content", js("[Old tool result content cleared]")),
            ]),
        ])),
    ]));
    // Add recent turns to make the CC-cleared one "old".
    for i in 1..8 {
        let id = format!("u{i}");
        msgs.push(obj(vec![
            ("role", js("user")),
            ("content", list(vec![obj(vec![("type", js("text")), ("text", js("go"))])])),
        ]));
        msgs.push(obj(vec![
            ("role", js("assistant")),
            ("content", list(vec![
                obj(vec![
                    ("type", js("tool_use")),
                    ("id", js(id.clone())),
                    ("name", js("Bash")),
                    ("input", obj(vec![("command", js("c"))])),
                ]),
            ])),
        ]));
        msgs.push(obj(vec![
            ("role", js("user")),
            ("content", list(vec![
                obj(vec![
                    ("type", js("tool_result")),
                    ("tool_use_id", js(id.clone())),
                    ("content", js("short")),
                ]),
            ])),
        ]));
    }
    // Threshold of 10 bytes — the CC marker (35 bytes) is over the threshold,
    // but bloat_cap must skip it.
    let stats = apply(&mut msgs, &cfg(10, 4, &[])).unwrap();
    assert_eq!(stats.stubbed, 0, "CC's own marker must not be re-elided");
    assert_eq!(
        msgs[2]["content"][0]["content"],
        js("[Old tool result content cleared]"),
        "CC marker must be preserved verbatim"
    );
}
