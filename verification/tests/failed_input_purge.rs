use serde_json::Value;
use trimwire::config::FailedInputPurgeConfig;
use trimwire::json::Json;
use trimwire::pairing::{PairingError, PairingIndex};
use trimwire::strategies::{failed_input_purge, Stats};

fn obj(members: Vec<(&str, Value)>) -> Value {
    Value::Object(members.into_iter().map(|(k, x)| (k.to_owned(), x)).collect())
}

fn list(items: Vec<Value>) -> Value {
    Value::Array(items)
}

fn js<T: Into<Value>>(x: T) -> Value {
    x.into()
}

fn to_json(value: &Value) -> Json {
    Json::parse(value.to_string().as_bytes()).unwrap()
}

fn to_value(json: &Json) -> Value {
    serde_json::from_str(&json.to_text()).unwrap()
}

fn to_jsons(values: &[Value]) -> Vec<Json> {
    values.iter().map(to_json).collect()
}

fn to_values(items: &[Json]) -> Vec<Value> {
    items.iter().map(to_value).collect()
}

fn index(messages: &[Value]) -> PairingIndex {
    PairingIndex::build(&to_jsons(messages))
}

fn apply(messages: &mut Vec<Value>, cfg: &FailedInputPurgeConfig) -> Result<Stats, PairingError> {
    let mut items = to_jsons(messages);
    let result = failed_input_purge::apply(&mut items, cfg);
    *messages = to_values(&items);
    result
}

fn cfg(keep: usize, exempt: &[&str]) -> FailedInputPurgeConfig {
    FailedInputPurgeConfig {
        enabled: true,
        keep_recent_turns: keep,
        exempt_tools: exempt.iter().map(|s| (*s).to_owned()).collect(),
    }
}

#[test]
fn authored_content_exempt_on_failed_calls_even_with_empty_exempt_tools() {
    let mut msgs = Vec::new();
    for i in 0..10 {
        let uid = format!("w_{i}");
        msgs.push(obj(vec![
            ("role", js("user")),
            ("content", list(vec![obj(vec![("type", js("text")), ("text", js("go"))])])),
        ]));
        msgs.push(obj(vec![
            ("role", js("assistant")),
            ("content", list(vec![
                obj(vec![
                    ("type", js("tool_use")),
                    ("id", js(uid.clone())),
                    ("name", js("Write")),
                    ("input", obj(vec![
                        ("file_path", js(format!("/src/f_{i}.rs"))),
                        ("content", js("x".repeat(2000))),
                    ])),
                ]),
            ])),
        ]));
        msgs.push(obj(vec![
            ("role", js("user")),
            ("content", list(vec![
                obj(vec![
                    ("type", js("tool_result")),
                    ("tool_use_id", js(uid.clone())),
                    ("is_error", js(true)),
                    ("content", js("error: permission denied")),
                ]),
            ])),
        ]));
    }
    // Empty exempt_tools: the user removed the protection.
    let stats = apply(&mut msgs, &cfg(2, &[])).unwrap();
    assert_eq!(
        stats.stubbed, 0,
        "failed authored Write content must never be elided (hard floor)"
    );
    assert!(
        msgs[1]["content"][0]["input"]["content"]
            .as_str()
            .unwrap()
            .starts_with('x'),
        "failed Write body kept verbatim for safe re-authoring"
    );
}

#[test]
fn subagent_task_and_agent_failed_inputs_exempt_by_default() {
    // one OLD failed call of `name` carrying a bulky `field`, then recent padding.
    let mk = |name: &str, field: &str| {
        let mut msgs = Vec::new();
        msgs.push(obj(vec![
            ("role", js("user")),
            ("content", list(vec![obj(vec![("type", js("text")), ("text", js("go"))])])),
        ]));
        msgs.push(obj(vec![
            ("role", js("assistant")),
            ("content", list(vec![
                obj(vec![
                    ("type", js("tool_use")),
                    ("id", js("sub0")),
                    ("name", js(name.clone())),
                    ("input", obj(vec![("description", js("t")), (field, js("x".repeat(2000)))])),
                ]),
            ])),
        ]));
        msgs.push(obj(vec![
            ("role", js("user")),
            ("content", list(vec![
                obj(vec![
                    ("type", js("tool_result")),
                    ("tool_use_id", js("sub0")),
                    ("is_error", js(true)),
                    ("content", js("error: failed")),
                ]),
            ])),
        ]));
        for i in 0..8 {
            let u = format!("p{i}");
            msgs.push(obj(vec![
                ("role", js("assistant")),
                ("content", list(vec![
                    obj(vec![
                        ("type", js("tool_use")),
                        ("id", js(u.clone())),
                        ("name", js("Bash")),
                        ("input", obj(vec![("command", js("echo"))])),
                    ]),
                ])),
            ]));
            msgs.push(obj(vec![
                ("role", js("user")),
                ("content", list(vec![
                    obj(vec![
                        ("type", js("tool_result")),
                        ("tool_use_id", js(u.clone())),
                        ("content", js("ok")),
                    ]),
                ])),
            ]));
        }
        msgs
    };
    // Use the REAL default exempt list (now ["Task","Agent"]); tweak only enable/window.
    let base = FailedInputPurgeConfig {
        enabled: true,
        keep_recent_turns: 2,
        ..FailedInputPurgeConfig::default()
    };
    for name in ["Task", "Agent"] {
        let mut m = mk(name, "prompt");
        let s = apply(&mut m, &base).unwrap();
        assert_eq!(
            s.stubbed, 0,
            "{name} failed input must be exempt (subagent preservation)"
        );
        assert!(
            m[1]["content"][0]["input"]["prompt"]
                .as_str()
                .unwrap()
                .starts_with('x'),
            "{name} bulky sub-task prompt kept verbatim"
        );
    }
    // Ordinary non-exempt failed tool (Bash) still gets its bulk elided.
    let mut mb = mk("Bash", "stdin");
    let s = apply(&mut mb, &base).unwrap();
    assert!(s.stubbed >= 1, "ordinary failed Bash input still purged");
    assert!(
        mb[1]["content"][0]["input"]["stdin"]
            .as_str()
            .unwrap()
            .starts_with("[trimwire:"),
        "Bash bulky stdin elided to a marker"
    );
}

/// N turns, each a Bash call; even-indexed ones errored AND carry a bulky
/// `stdin` (the kind of payload worth eliding). Old errored calls keep their
/// `command` but lose the bulk; the error text always stays.
fn session(turns: usize) -> Vec<Value> {
    let mut msgs = Vec::new();
    for i in 0..turns {
        let uid = format!("toolu_{i}");
        msgs.push(obj(vec![
            ("role", js("user")),
            ("content", list(vec![obj(vec![("type", js("text")), ("text", js("go"))])])),
        ]));
        let input = if i % 2 == 0 {
            obj(vec![
                ("command", js(format!("cmd-{i} --flag"))),
                ("stdin", js("x".repeat(2000))),
            ])
        } else {
            obj(vec![("command", js(format!("cmd-{i} --flag")))])
        };
        msgs.push(obj(vec![
            ("role", js("assistant")),
            ("content", list(vec![
                obj(vec![
                    ("type", js("tool_use")),
                    ("id", js(uid.clone())),
                    ("name", js("Bash")),
                    ("input", js(input.clone())),
                ]),
            ])),
        ]));
        let mut res =
            obj(vec![
                ("type", js("tool_result")),
                ("tool_use_id", js(uid.clone())),
                ("content", js(format!("out {i}"))),
            ]);
        if i % 2 == 0 {
            res["is_error"] = js(true);
            res["content"] = js(format!("error: cmd-{i} failed"));
        }
        msgs.push(obj(vec![("role", js("user")), ("content", list(vec![js(res.clone())]))]));
    }
    msgs
}

#[test]
fn elides_bulk_of_old_errored_inputs_but_keeps_the_command() {
    let mut msgs = session(10); // 10 assistant turns
    let stats = apply(&mut msgs, &cfg(4, &[])).unwrap();
    // Errored turns 0,2,4,6 are old (turn 8 is within the recent-4 window).
    assert!(
        stats.stubbed >= 3,
        "old errored inputs reduced, got {}",
        stats.stubbed
    );
    // Turn 0 (errored, old): the bulky stdin is elided, but the COMMAND is
    // kept — the model still sees which call failed.
    assert_eq!(
        msgs[1]["content"][0]["input"]["command"],
        js("cmd-0 --flag"),
        "command preserved (comprehension)"
    );
    assert!(
        msgs[1]["content"][0]["input"]["stdin"]
            .as_str()
            .unwrap()
            .starts_with("[trimwire:"),
        "bulky stdin elided to a marker"
    );
    // Error text preserved.
    assert_eq!(
        msgs[2]["content"][0]["content"],
        js("error: cmd-0 failed")
    );
    // A successful old call keeps its full input (turn 1, assistant idx 4).
    assert_eq!(
        msgs[4]["content"][0]["input"],
        obj(vec![("command", js("cmd-1 --flag"))])
    );
    index(&msgs).validate().unwrap();
}

#[test]
fn small_failed_input_is_kept_and_purge_is_idempotent() {
    // A failed call whose input is ONLY a small command → nothing to elide →
    // input kept verbatim (the comprehension win vs the old blanket `{}`).
    let mut msgs = vec![
        obj(vec![
            ("role", js("user")),
            ("content", list(vec![obj(vec![("type", js("text")), ("text", js("go"))])])),
        ]),
        obj(vec![
            ("role", js("assistant")),
            ("content", list(vec![
                obj(vec![
                    ("type", js("tool_use")),
                    ("id", js("u0")),
                    ("name", js("Bash")),
                    ("input", obj(vec![("command", js("deploy --prod"))])),
                ]),
            ])),
        ]),
        obj(vec![
            ("role", js("user")),
            ("content", list(vec![
                obj(vec![
                    ("type", js("tool_result")),
                    ("tool_use_id", js("u0")),
                    ("content", js("boom")),
                    ("is_error", js(true)),
                ]),
            ])),
        ]),
    ];
    for extra in session(6) {
        msgs.push(extra);
    }
    apply(&mut msgs, &cfg(4, &[])).unwrap();
    assert_eq!(
        msgs[1]["content"][0]["input"],
        obj(vec![("command", js("deploy --prod"))]),
        "small failed command kept verbatim"
    );
    // Idempotent: a second pass elides nothing more and leaves bytes identical.
    let before = serde_json::to_vec(&msgs).unwrap();
    let stats2 = apply(&mut msgs, &cfg(4, &[])).unwrap();
    assert_eq!(stats2.stubbed, 0, "re-run elides nothing");
    assert_eq!(serde_json::to_vec(&msgs).unwrap(), before, "byte-identical");
}

#[test]
fn recent_errors_are_kept() {
    // keep_recent_turns large → nothing is old → nothing purged.
    let mut msgs = session(3);
    let stats = apply(&mut msgs, &cfg(10, &[])).unwrap();
    assert_eq!(stats.stubbed, 0);
}

#[test]
fn successful_calls_untouched() {
    // All successful (odd-only errors but start at 1): use 1-turn no-error.
    let mut msgs = vec![
        obj(vec![
            ("role", js("user")),
            ("content", list(vec![obj(vec![("type", js("text")), ("text", js("go"))])])),
        ]),
        obj(vec![
            ("role", js("assistant")),
            ("content", list(vec![
                obj(vec![
                    ("type", js("tool_use")),
                    ("id", js("u0")),
                    ("name", js("Bash")),
                    ("input", obj(vec![("command", js("ok"))])),
                ]),
            ])),
        ]),
        obj(vec![
            ("role", js("user")),
            ("content", list(vec![
                obj(vec![
                    ("type", js("tool_result")),
                    ("tool_use_id", js("u0")),
                    ("content", js("fine")),
                ]),
            ])),
        ]),
    ];
    // pad to make it old
    for extra in session(6) {
        msgs.push(extra);
    }
    let stats = apply(&mut msgs, &cfg(4, &[])).unwrap();
    // u0 succeeded → its input is never cleared.
    assert_eq!(msgs[1]["content"][0]["input"], obj(vec![("command", js("ok"))]));
    assert!(
        stats.stubbed >= 1,
        "errored ones in the padding still purged"
    );
}
