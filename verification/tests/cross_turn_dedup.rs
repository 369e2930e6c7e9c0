use serde_json::Value;
use trimwire::config::{Config, CrossTurnDedupConfig};
use trimwire::json::Json;
use trimwire::pairing::{PairingError, PairingIndex};
use trimwire::strategies::{cross_turn_dedup, Stats};

fn obj(members: Vec<(&str, Value)>) -> Value {
    Value::Object(members.into_iter().map(|(k, x)| (k.to_owned(), x)).collect())
}

fn list(items: Vec<Value>) -> Value {
    Value::Array(items)
}

fn js<T: Into<Value>>(x: T) -> Value {
    x.into()
}

fn to_json(value: &Value) -> Json {
    Json::parse(value.to_string().as_bytes()).unwrap()
}

fn to_value(json: &Json) -> Value {
    serde_json::from_str(&json.to_text()).unwrap()
}

fn to_jsons(values: &[Value]) -> Vec<Json> {
    values.iter().map(to_json).collect()
}

fn to_values(items: &[Json]) -> Vec<Value> {
    items.iter().map(to_value).collect()
}

fn index(messages: &[Value]) -> PairingIndex {
    PairingIndex::build(&to_jsons(messages))
}

fn apply(messages: &mut Vec<Value>, cfg: &CrossTurnDedupConfig) -> Result<Stats, PairingError> {
    let mut items = to_jsons(messages);
    let result = cross_turn_dedup::apply(&mut items, cfg);
    *messages = to_values(&items);
    result
}

/// Everything is on but what has to be asked for.
fn profile_baseline() -> Config {
    let mut c = Config::default();
    c.strategies.failed_input_purge.enabled = true;
    c.strategies.stale_input_cap.enabled = true;
    c.strategies.cross_turn_dedup.enabled = true;
    c.strategies.stale_reads.enabled = true;
    c.strategies.bloat_cap.enabled = true;
    c.strategies.sliding_window.enabled = true;
    c.strategies.image_strip.enabled = true;
    c.strategies.thinking_strip.enabled = true;
    c
}

fn cfg(exempt: &[&str]) -> CrossTurnDedupConfig {
    CrossTurnDedupConfig {
        enabled: true,
        exempt_tools: exempt.iter().map(|s| (*s).to_owned()).collect(),
        stub: "[trimwire: superseded by a later identical call]".to_owned(),
    }
}

/// Three reads of the same file → the two older results are stubbed, the
/// most recent is kept.
fn read_thrice() -> Vec<Value> {
    let mut msgs = Vec::new();
    for i in 0..3 {
        let uid = format!("toolu_r{i}");
        msgs.push(obj(vec![
            ("role", js("user")),
            ("content", list(vec![obj(vec![("type", js("text")), ("text", js("read it"))])])),
        ]));
        msgs.push(obj(vec![
            ("role", js("assistant")),
            ("content", list(vec![
                obj(vec![
                    ("type", js("tool_use")),
                    ("id", js(uid.clone())),
                    ("name", js("Read")),
                    ("input", obj(vec![("path", js("/a.txt"))])),
                ]),
            ])),
        ]));
        msgs.push(obj(vec![
            ("role", js("user")),
            ("content", list(vec![
                obj(vec![
                    ("type", js("tool_result")),
                    ("tool_use_id", js(uid.clone())),
                    ("content", js(format!("contents v{i}"))),
                ]),
            ])),
        ]));
    }
    msgs
}

#[test]
fn keeps_most_recent_identical_result() {
    let mut msgs = read_thrice();
    let stats = apply(&mut msgs, &cfg(&[])).unwrap();
    assert_eq!(stats.stubbed, 2, "two older identical reads superseded");
    // Older two stubbed (marker carries the elided size); newest kept verbatim.
    let prefix = "[trimwire: superseded by a later identical call]";
    let marked = |m: &Value| {
        m["content"][0]["content"]
            .as_str()
            .unwrap()
            .starts_with(prefix)
    };
    assert!(marked(&msgs[2]) && marked(&msgs[5]));
    assert_eq!(msgs[8]["content"][0]["content"], js("contents v2"));
    index(&msgs).validate().unwrap();
}

#[test]
fn distinct_inputs_are_not_deduped() {
    let mut msgs = vec![
        obj(vec![
            ("role", js("assistant")),
            ("content", list(vec![
                obj(vec![
                    ("type", js("tool_use")),
                    ("id", js("u1")),
                    ("name", js("Read")),
                    ("input", obj(vec![("path", js("/a"))])),
                ]),
            ])),
        ]),
        obj(vec![
            ("role", js("user")),
            ("content", list(vec![
                obj(vec![
                    ("type", js("tool_result")),
                    ("tool_use_id", js("u1")),
                    ("content", js("A")),
                ]),
            ])),
        ]),
        obj(vec![
            ("role", js("assistant")),
            ("content", list(vec![
                obj(vec![
                    ("type", js("tool_use")),
                    ("id", js("u2")),
                    ("name", js("Read")),
                    ("input", obj(vec![("path", js("/b"))])),
                ]),
            ])),
        ]),
        obj(vec![
            ("role", js("user")),
            ("content", list(vec![
                obj(vec![
                    ("type", js("tool_result")),
                    ("tool_use_id", js("u2")),
                    ("content", js("B")),
                ]),
            ])),
        ]),
    ];
    let stats = apply(&mut msgs, &cfg(&[])).unwrap();
    assert_eq!(stats.stubbed, 0, "different paths are not duplicates");
}

#[test]
fn exempt_tool_is_skipped() {
    let mut msgs = read_thrice();
    let stats = apply(&mut msgs, &cfg(&["Read"])).unwrap();
    assert_eq!(stats.stubbed, 0);
}

/// Subagent results survive cross_turn_dedup under the SHIPPED DEFAULT PROFILE.
/// (The struct default now carries the same Task/Agent exemption too — see
/// `struct_default_exempts_task_and_agent_matching_profile`.) The negative arm
/// uses an EXPLICIT empty exempt list (`cfg(&[])`) to prove the fixture is real
/// duplicates that would otherwise be deduped — i.e. the test is non-vacuous.
#[test]
fn default_profile_exempts_task_and_agent_results_from_dedup() {
    let prof = profile_baseline()
        .strategies
        .cross_turn_dedup;
    assert!(
        prof.exempt_tools.iter().any(|t| t == "Task")
            && prof.exempt_tools.iter().any(|t| t == "Agent"),
        "default profile must exempt Task+Agent in cross_turn_dedup; got {:?}",
        prof.exempt_tools
    );

    let triple = |name: &str| {
        let mut msgs = Vec::new();
        for i in 0..3 {
            let uid = format!("toolu_{name}{i}");
            msgs.push(obj(vec![
                ("role", js("assistant")),
                ("content", list(vec![
                    obj(vec![
                        ("type", js("tool_use")),
                        ("id", js(uid.clone())),
                        ("name", js(name.clone())),
                        ("input", obj(vec![("prompt", js("same"))])),
                    ]),
                ])),
            ]));
            msgs.push(obj(vec![
                ("role", js("user")),
                ("content", list(vec![
                    obj(vec![
                        ("type", js("tool_result")),
                        ("tool_use_id", js(uid.clone())),
                        ("content", js("identical finding")),
                    ]),
                ])),
            ]));
        }
        msgs
    };

    for name in ["Task", "Agent"] {
        // Shipped default profile → exempt → all three survive.
        let mut kept = triple(name);
        let s = apply(&mut kept, &prof).unwrap();
        assert_eq!(s.stubbed, 0, "{name} results exempt under default profile");
        // Without the exemption (an EXPLICIT empty exempt list) → the two older
        // identical calls ARE deduped — proves the fixture is real duplicates.
        let mut deduped = triple(name);
        let s2 = apply(&mut deduped, &cfg(&[])).unwrap();
        assert_eq!(
            s2.stubbed, 2,
            "{name} results are genuine duplicates (deduped without the exemption)"
        );
    }
}

/// Consistency hygiene: `CrossTurnDedupConfig::default()` now exempts the
/// subagent tools (Task/Agent) directly — matching the default profile and the
/// sibling strategies' struct defaults — so a direct struct-default caller
/// doesn't silently dedup subagent results. Ordinary tools still dedup.
#[test]
fn struct_default_exempts_task_and_agent_matching_profile() {
    // The struct default's exempt list contains both subagent names, and it
    // matches the default profile for those names.
    let d = CrossTurnDedupConfig::default();
    assert!(
        d.exempt_tools.iter().any(|t| t == "Task")
            && d.exempt_tools.iter().any(|t| t == "Agent"),
        "struct default must exempt Task+Agent; got {:?}",
        d.exempt_tools
    );
    let prof = profile_baseline()
        .strategies
        .cross_turn_dedup;
    for t in ["Task", "Agent"] {
        assert_eq!(
            d.exempt_tools.contains(&t.to_owned()),
            prof.exempt_tools.contains(&t.to_owned()),
            "struct default and default profile agree on exempting {t}"
        );
    }

    let triple = |name: &str| {
        let mut msgs = Vec::new();
        for i in 0..3 {
            let uid = format!("toolu_{name}{i}");
            msgs.push(obj(vec![
                ("role", js("assistant")),
                ("content", list(vec![
                    obj(vec![
                        ("type", js("tool_use")),
                        ("id", js(uid.clone())),
                        ("name", js(name.clone())),
                        ("input", obj(vec![("prompt", js("same"))])),
                    ]),
                ])),
            ]));
            msgs.push(obj(vec![
                ("role", js("user")),
                ("content", list(vec![
                    obj(vec![
                        ("type", js("tool_result")),
                        ("tool_use_id", js(uid.clone())),
                        ("content", js("identical finding")),
                    ]),
                ])),
            ]));
        }
        msgs
    };
    // Use the struct default's exempt list, with the strategy enabled for the test.
    let enabled_default = CrossTurnDedupConfig {
        enabled: true,
        ..CrossTurnDedupConfig::default()
    };
    for name in ["Task", "Agent"] {
        let mut kept = triple(name);
        let s = apply(&mut kept, &enabled_default).unwrap();
        assert_eq!(
            s.stubbed, 0,
            "{name} results exempt under the struct default"
        );
    }
    // Control: an ordinary (non-subagent) tool is NOT exempt → still deduped.
    let mut ordinary = triple("Read");
    let s = apply(&mut ordinary, &enabled_default).unwrap();
    assert_eq!(s.stubbed, 2, "ordinary duplicate results still dedup");
}

#[test]
fn append_collapse_supersedes_prefix_results() {
    // Same tool, DIFFERENT inputs (so exact-dedup won't group them), but each
    // result is a strict byte-prefix of the next — a growing log. The earlier
    // two are fully contained in the last → collapsed; the last is kept.
    let mut msgs = vec![
        obj(vec![
            ("role", js("assistant")),
            ("content", list(vec![
                obj(vec![
                    ("type", js("tool_use")),
                    ("id", js("u1")),
                    ("name", js("Bash")),
                    ("input", obj(vec![("c", js("r1"))])),
                ]),
            ])),
        ]),
        obj(vec![
            ("role", js("user")),
            ("content", list(vec![
                obj(vec![
                    ("type", js("tool_result")),
                    ("tool_use_id", js("u1")),
                    ("content", js("line1\n")),
                ]),
            ])),
        ]),
        obj(vec![
            ("role", js("assistant")),
            ("content", list(vec![
                obj(vec![
                    ("type", js("tool_use")),
                    ("id", js("u2")),
                    ("name", js("Bash")),
                    ("input", obj(vec![("c", js("r2"))])),
                ]),
            ])),
        ]),
        obj(vec![
            ("role", js("user")),
            ("content", list(vec![
                obj(vec![
                    ("type", js("tool_result")),
                    ("tool_use_id", js("u2")),
                    ("content", js("line1\nline2\n")),
                ]),
            ])),
        ]),
        obj(vec![
            ("role", js("assistant")),
            ("content", list(vec![
                obj(vec![
                    ("type", js("tool_use")),
                    ("id", js("u3")),
                    ("name", js("Bash")),
                    ("input", obj(vec![("c", js("r3"))])),
                ]),
            ])),
        ]),
        obj(vec![
            ("role", js("user")),
            ("content", list(vec![
                obj(vec![
                    ("type", js("tool_result")),
                    ("tool_use_id", js("u3")),
                    ("content", js("line1\nline2\nline3\n")),
                ]),
            ])),
        ]),
    ];
    let stats = apply(&mut msgs, &cfg(&[])).unwrap();
    assert_eq!(
        stats.stubbed, 2,
        "the two prefix results collapse into the last"
    );
    let prefix = "[trimwire: superseded by a later identical call]";
    let marked = |m: &Value| {
        m["content"][0]["content"]
            .as_str()
            .unwrap()
            .starts_with(prefix)
    };
    assert!(marked(&msgs[1]) && marked(&msgs[3]));
    assert_eq!(
        msgs[5]["content"][0]["content"],
        js("line1\nline2\nline3\n")
    );
    index(&msgs).validate().unwrap();
}

#[test]
fn append_collapse_leaves_non_prefix_results_alone() {
    // Same tool, but outputs that are NOT prefixes of each other → both kept.
    let mut msgs = vec![
        obj(vec![
            ("role", js("assistant")),
            ("content", list(vec![
                obj(vec![
                    ("type", js("tool_use")),
                    ("id", js("u1")),
                    ("name", js("Bash")),
                    ("input", obj(vec![("c", js("a"))])),
                ]),
            ])),
        ]),
        obj(vec![
            ("role", js("user")),
            ("content", list(vec![
                obj(vec![
                    ("type", js("tool_result")),
                    ("tool_use_id", js("u1")),
                    ("content", js("apple")),
                ]),
            ])),
        ]),
        obj(vec![
            ("role", js("assistant")),
            ("content", list(vec![
                obj(vec![
                    ("type", js("tool_use")),
                    ("id", js("u2")),
                    ("name", js("Bash")),
                    ("input", obj(vec![("c", js("b"))])),
                ]),
            ])),
        ]),
        obj(vec![
            ("role", js("user")),
            ("content", list(vec![
                obj(vec![
                    ("type", js("tool_result")),
                    ("tool_use_id", js("u2")),
                    ("content", js("banana")),
                ]),
            ])),
        ]),
    ];
    let stats = apply(&mut msgs, &cfg(&[])).unwrap();
    assert_eq!(stats.stubbed, 0, "non-prefix outputs are not collapsed");
}

#[test]
fn deterministic_across_runs() {
    let mut a = read_thrice();
    let mut b = read_thrice();
    apply(&mut a, &cfg(&[])).unwrap();
    apply(&mut b, &cfg(&[])).unwrap();
    assert_eq!(
        serde_json::to_string(&a).unwrap(),
        serde_json::to_string(&b).unwrap()
    );
}

#[test]
fn same_input_different_output_supersedes_the_stale_earlier_one() {
    let mut msgs = vec![
        obj(vec![
            ("role", js("assistant")),
            ("content", list(vec![
                obj(vec![
                    ("type", js("tool_use")),
                    ("id", js("u1")),
                    ("name", js("Read")),
                    ("input", obj(vec![("path", js("/f"))])),
                ]),
            ])),
        ]),
        obj(vec![
            ("role", js("user")),
            ("content", list(vec![
                obj(vec![
                    ("type", js("tool_result")),
                    ("tool_use_id", js("u1")),
                    ("content", js("BEFORE edit")),
                ]),
            ])),
        ]),
        obj(vec![
            ("role", js("assistant")),
            ("content", list(vec![
                obj(vec![
                    ("type", js("tool_use")),
                    ("id", js("u2")),
                    ("name", js("Read")),
                    ("input", obj(vec![("path", js("/f"))])),
                ]),
            ])),
        ]),
        obj(vec![
            ("role", js("user")),
            ("content", list(vec![
                obj(vec![
                    ("type", js("tool_result")),
                    ("tool_use_id", js("u2")),
                    ("content", js("AFTER edit")),
                ]),
            ])),
        ]),
    ];
    let stats = apply(&mut msgs, &cfg(&[])).unwrap();
    assert_eq!(stats.stubbed, 1);
    // Earlier (stale) read superseded; latest (current truth) kept verbatim.
    assert!(
        msgs[1]["content"][0]["content"]
            .as_str()
            .unwrap()
            .starts_with("[trimwire: superseded by a later identical call]")
    );
    assert_eq!(msgs[3]["content"][0]["content"], js("AFTER edit"));
}

/// Input key order must not matter (canonical sorted-key comparison).
#[test]
fn input_key_order_does_not_defeat_dedup() {
    let mut msgs = vec![
        obj(vec![
            ("role", js("assistant")),
            ("content", list(vec![
                obj(vec![
                    ("type", js("tool_use")),
                    ("id", js("u1")),
                    ("name", js("Bash")),
                    ("input", obj(vec![("a", js(1)), ("b", js(2))])),
                ]),
            ])),
        ]),
        obj(vec![
            ("role", js("user")),
            ("content", list(vec![
                obj(vec![
                    ("type", js("tool_result")),
                    ("tool_use_id", js("u1")),
                    ("content", js("x")),
                ]),
            ])),
        ]),
        obj(vec![
            ("role", js("assistant")),
            ("content", list(vec![
                obj(vec![
                    ("type", js("tool_use")),
                    ("id", js("u2")),
                    ("name", js("Bash")),
                    ("input", obj(vec![("b", js(2)), ("a", js(1))])),
                ]),
            ])),
        ]),
        obj(vec![
            ("role", js("user")),
            ("content", list(vec![
                obj(vec![
                    ("type", js("tool_result")),
                    ("tool_use_id", js("u2")),
                    ("content", js("x")),
                ]),
            ])),
        ]),
    ];
    let stats = apply(&mut msgs, &cfg(&[])).unwrap();
    assert_eq!(
        stats.stubbed, 1,
        "same args in different key order are duplicates"
    );
}

// ---- Phase 3 tests ----

/// A Bash result and a later Read result with byte-identical content
/// (different tool, different input) → earlier one is stubbed, latest kept.
#[test]
fn cross_tool_identical_content_collapses_keeping_latest() {
    // Long enough that the size-bearing marker is smaller than the content
    // (realistic for cat/Read output) so the shrink-guard lets it collapse.
    let shared = "a fairly long line of identical file content that exceeds \
                  the stub marker length so the shrink guard lets it collapse";
    let mut msgs = vec![
        obj(vec![
            ("role", js("assistant")),
            ("content", list(vec![
                obj(vec![
                    ("type", js("tool_use")),
                    ("id", js("u1")),
                    ("name", js("Bash")),
                    ("input", obj(vec![("command", js("cat foo.txt"))])),
                ]),
            ])),
        ]),
        obj(vec![
            ("role", js("user")),
            ("content", list(vec![
                obj(vec![
                    ("type", js("tool_result")),
                    ("tool_use_id", js("u1")),
                    ("content", js(shared.clone())),
                ]),
            ])),
        ]),
        obj(vec![
            ("role", js("assistant")),
            ("content", list(vec![
                obj(vec![
                    ("type", js("tool_use")),
                    ("id", js("u2")),
                    ("name", js("Read")),
                    ("input", obj(vec![("path", js("foo.txt"))])),
                ]),
            ])),
        ]),
        obj(vec![
            ("role", js("user")),
            ("content", list(vec![
                obj(vec![
                    ("type", js("tool_result")),
                    ("tool_use_id", js("u2")),
                    ("content", js(shared.clone())),
                ]),
            ])),
        ]),
    ];
    let stats = apply(&mut msgs, &cfg(&[])).unwrap();
    assert_eq!(stats.stubbed, 1, "earlier cross-tool duplicate stubbed");
    // Earlier (Bash) result is stubbed.
    let prefix = "[trimwire: superseded by a later identical call]";
    assert!(
        msgs[1]["content"][0]["content"]
            .as_str()
            .unwrap()
            .starts_with(prefix),
        "earlier Bash result should be stubbed"
    );
    // Later (Read) result is kept verbatim.
    assert_eq!(
        msgs[3]["content"][0]["content"],
        js(shared.clone()),
        "latest Read result must be kept verbatim"
    );
    index(&msgs).validate().unwrap();
}

/// Plant a unique token in identical content across an early Bash and a
/// late Read. After apply the token must still be present in the kept
/// (latest) copy — the harm guarantee: dedup never loses the bytes.
#[test]
fn needle_in_kept_cross_tool_copy_survives() {
    let needle = "NEEDLE_XTOOL_a1b2";
    let shared = format!(
        "a fairly long line of file content containing the {needle} somewhere \
         in the middle, plus padding so it beats the marker-length shrink guard"
    );
    let mut msgs = vec![
        obj(vec![
            ("role", js("assistant")),
            ("content", list(vec![
                obj(vec![
                    ("type", js("tool_use")),
                    ("id", js("u1")),
                    ("name", js("Bash")),
                    ("input", obj(vec![("command", js("cat secret"))])),
                ]),
            ])),
        ]),
        obj(vec![
            ("role", js("user")),
            ("content", list(vec![
                obj(vec![
                    ("type", js("tool_result")),
                    ("tool_use_id", js("u1")),
                    ("content", js(shared.clone())),
                ]),
            ])),
        ]),
        obj(vec![
            ("role", js("assistant")),
            ("content", list(vec![
                obj(vec![
                    ("type", js("tool_use")),
                    ("id", js("u2")),
                    ("name", js("Read")),
                    ("input", obj(vec![("path", js("secret"))])),
                ]),
            ])),
        ]),
        obj(vec![
            ("role", js("user")),
            ("content", list(vec![
                obj(vec![
                    ("type", js("tool_result")),
                    ("tool_use_id", js("u2")),
                    ("content", js(shared.clone())),
                ]),
            ])),
        ]),
    ];
    apply(&mut msgs, &cfg(&[])).unwrap();
    // The latest copy (Read, msgs[3]) must still contain the needle.
    let kept = msgs[3]["content"][0]["content"].as_str().unwrap();
    assert!(
        kept.contains(needle),
        "needle must survive in the kept latest copy; got: {kept}"
    );
    // The earlier copy (Bash, msgs[1]) should be stubbed (not contain needle).
    let stubbed_val = msgs[1]["content"][0]["content"].as_str().unwrap();
    assert!(
        !stubbed_val.contains(needle),
        "needle must NOT appear in the stubbed earlier copy; got: {stubbed_val}"
    );
}

/// Different content across tools → no Phase 3 stubs.
#[test]
fn cross_tool_distinct_content_not_collapsed() {
    let mut msgs = vec![
        obj(vec![
            ("role", js("assistant")),
            ("content", list(vec![
                obj(vec![
                    ("type", js("tool_use")),
                    ("id", js("u1")),
                    ("name", js("Bash")),
                    ("input", obj(vec![("command", js("echo a"))])),
                ]),
            ])),
        ]),
        obj(vec![
            ("role", js("user")),
            ("content", list(vec![
                obj(vec![
                    ("type", js("tool_result")),
                    ("tool_use_id", js("u1")),
                    ("content", js("output A")),
                ]),
            ])),
        ]),
        obj(vec![
            ("role", js("assistant")),
            ("content", list(vec![
                obj(vec![
                    ("type", js("tool_use")),
                    ("id", js("u2")),
                    ("name", js("Read")),
                    ("input", obj(vec![("path", js("/b"))])),
                ]),
            ])),
        ]),
        obj(vec![
            ("role", js("user")),
            ("content", list(vec![
                obj(vec![
                    ("type", js("tool_result")),
                    ("tool_use_id", js("u2")),
                    ("content", js("output B")),
                ]),
            ])),
        ]),
    ];
    let stats = apply(&mut msgs, &cfg(&[])).unwrap();
    assert_eq!(stats.stubbed, 0, "distinct content must not be collapsed");
}

/// Running apply twice stubs the same count the first time and 0 net new the
/// second (contents are now markers → Phase 3 skip guard applies).
#[test]
fn cross_tool_dedup_is_idempotent() {
    let shared = "same long output produced by two different tools, long enough \
                  to clear the shrink-guard so the earlier copy is collapsed";
    let mut msgs = vec![
        obj(vec![
            ("role", js("assistant")),
            ("content", list(vec![
                obj(vec![
                    ("type", js("tool_use")),
                    ("id", js("u1")),
                    ("name", js("Bash")),
                    ("input", obj(vec![("command", js("cat x"))])),
                ]),
            ])),
        ]),
        obj(vec![
            ("role", js("user")),
            ("content", list(vec![
                obj(vec![
                    ("type", js("tool_result")),
                    ("tool_use_id", js("u1")),
                    ("content", js(shared.clone())),
                ]),
            ])),
        ]),
        obj(vec![
            ("role", js("assistant")),
            ("content", list(vec![
                obj(vec![
                    ("type", js("tool_use")),
                    ("id", js("u2")),
                    ("name", js("Read")),
                    ("input", obj(vec![("path", js("x"))])),
                ]),
            ])),
        ]),
        obj(vec![
            ("role", js("user")),
            ("content", list(vec![
                obj(vec![
                    ("type", js("tool_result")),
                    ("tool_use_id", js("u2")),
                    ("content", js(shared.clone())),
                ]),
            ])),
        ]),
    ];
    let first = apply(&mut msgs, &cfg(&[])).unwrap();
    assert_eq!(first.stubbed, 1, "first run stubs the earlier duplicate");
    let second = apply(&mut msgs, &cfg(&[])).unwrap();
    assert_eq!(second.stubbed, 0, "second run is a no-op (idempotent)");
}

/// Tiny identical content across tools must NOT be stubbed: the size-bearing
/// marker is larger than the content, so collapsing it would grow the body
/// and churn the cache for negative benefit. The shrink-guard skips it.
#[test]
fn tiny_cross_tool_content_is_not_stubbed() {
    let shared = "OK"; // 2 bytes — far smaller than the stub marker
    let mut msgs = vec![
        obj(vec![
            ("role", js("assistant")),
            ("content", list(vec![
                obj(vec![
                    ("type", js("tool_use")),
                    ("id", js("u1")),
                    ("name", js("Bash")),
                    ("input", obj(vec![("command", js("true"))])),
                ]),
            ])),
        ]),
        obj(vec![
            ("role", js("user")),
            ("content", list(vec![
                obj(vec![
                    ("type", js("tool_result")),
                    ("tool_use_id", js("u1")),
                    ("content", js(shared.clone())),
                ]),
            ])),
        ]),
        obj(vec![
            ("role", js("assistant")),
            ("content", list(vec![
                obj(vec![
                    ("type", js("tool_use")),
                    ("id", js("u2")),
                    ("name", js("Status")),
                    ("input", obj(vec![("q", js("x"))])),
                ]),
            ])),
        ]),
        obj(vec![
            ("role", js("user")),
            ("content", list(vec![
                obj(vec![
                    ("type", js("tool_result")),
                    ("tool_use_id", js("u2")),
                    ("content", js(shared.clone())),
                ]),
            ])),
        ]),
    ];
    let stats = apply(&mut msgs, &cfg(&[])).unwrap();
    assert_eq!(
        stats.stubbed, 0,
        "tiny identical content must not be stubbed (would grow the body)"
    );
    // Both copies left verbatim.
    assert_eq!(msgs[1]["content"][0]["content"], js("OK"));
    assert_eq!(msgs[3]["content"][0]["content"], js("OK"));
}

#[test]
fn serde_json_sorts_object_keys() {
    assert_eq!(
        serde_json::to_string(&obj(vec![("b", js(1)), ("a", js(2))])).unwrap(),
        r#"{"a":2,"b":1}"#,
    );
}

#[test]
fn already_stubbed_result_is_not_recounted() {
    // Two identical calls where the earlier result already equals the stub:
    // dedup must not count it as a (re-)mutation.
    let c = cfg(&[]);
    let stub = c.stub.clone();
    let mut msgs = vec![
        obj(vec![
            ("role", js("assistant")),
            ("content", list(vec![
                obj(vec![
                    ("type", js("tool_use")),
                    ("id", js("u1")),
                    ("name", js("Bash")),
                    ("input", obj(vec![("c", js("x"))])),
                ]),
            ])),
        ]),
        obj(vec![
            ("role", js("user")),
            ("content", list(vec![
                obj(vec![
                    ("type", js("tool_result")),
                    ("tool_use_id", js("u1")),
                    ("content", js(stub.clone())),
                ]),
            ])),
        ]),
        obj(vec![
            ("role", js("assistant")),
            ("content", list(vec![
                obj(vec![
                    ("type", js("tool_use")),
                    ("id", js("u2")),
                    ("name", js("Bash")),
                    ("input", obj(vec![("c", js("x"))])),
                ]),
            ])),
        ]),
        obj(vec![
            ("role", js("user")),
            ("content", list(vec![
                obj(vec![
                    ("type", js("tool_result")),
                    ("tool_use_id", js("u2")),
                    ("content", js("real")),
                ]),
            ])),
        ]),
    ];
    let stats = apply(&mut msgs, &c).unwrap();
    assert_eq!(
        stats.stubbed, 0,
        "earlier result already == stub → no change counted"
    );
}
