use serde_json::Value;
use trimwire::config::StaleReadsConfig;
use trimwire::json::Json;
use trimwire::pairing::{PairingError, PairingIndex};
use trimwire::strategies::{stale_reads, Stats};

fn obj(members: Vec<(&str, Value)>) -> Value {
    Value::Object(members.into_iter().map(|(k, x)| (k.to_owned(), x)).collect())
}

fn list(items: Vec<Value>) -> Value {
    Value::Array(items)
}

fn js<T: Into<Value>>(x: T) -> Value {
    x.into()
}

fn to_json(value: &Value) -> Json {
    Json::parse(value.to_string().as_bytes()).unwrap()
}

fn to_value(json: &Json) -> Value {
    serde_json::from_str(&json.to_text()).unwrap()
}

fn to_jsons(values: &[Value]) -> Vec<Json> {
    values.iter().map(to_json).collect()
}

fn to_values(items: &[Json]) -> Vec<Value> {
    items.iter().map(to_value).collect()
}

fn index(messages: &[Value]) -> PairingIndex {
    PairingIndex::build(&to_jsons(messages))
}

fn apply(messages: &mut Vec<Value>, cfg: &StaleReadsConfig) -> Result<Stats, PairingError> {
    let mut items = to_jsons(messages);
    let result = stale_reads::apply(&mut items, cfg);
    *messages = to_values(&items);
    result
}

fn cfg(exempt: &[&str]) -> StaleReadsConfig {
    StaleReadsConfig {
        enabled: true,
        exempt_tools: exempt.iter().map(|s| (*s).to_owned()).collect(),
        stub: "[trimwire: stale read — file changed or re-read later]".to_owned(),
        page_min_bytes: 0,
        keep_recent_turns: 4,
        protected_file_patterns: Vec::new(),
    }
}
/// Config with demand-paging on (page reads older than keep_recent + larger
/// than `min`).
fn cfg_paging(min: usize, keep: usize) -> StaleReadsConfig {
    StaleReadsConfig {
        enabled: true,
        exempt_tools: Vec::new(),
        stub: "[trimwire: stale read — file changed or re-read later]".to_owned(),
        page_min_bytes: min,
        keep_recent_turns: keep,
        protected_file_patterns: Vec::new(),
    }
}

/// Build a minimal assistant turn with a tool_use block.
fn tool_use_msg(id: &str, name: &str, input: Value) -> Value {
    obj(vec![
        ("role", js("assistant")),
        ("content", list(vec![
            obj(vec![
                ("type", js("tool_use")),
                ("id", js(id.clone())),
                ("name", js(name.clone())),
                ("input", js(input.clone())),
            ]),
        ])),
    ])
}

/// Build a user turn with a successful tool_result.
fn tool_result_msg(id: &str, content: &str) -> Value {
    obj(vec![
        ("role", js("user")),
        ("content", list(vec![
            obj(vec![
                ("type", js("tool_result")),
                ("tool_use_id", js(id.clone())),
                ("content", js(content.clone())),
            ]),
        ])),
    ])
}

/// Build a user turn with an errored tool_result.
fn error_result_msg(id: &str, content: &str) -> Value {
    obj(vec![
        ("role", js("user")),
        ("content", list(vec![
            obj(vec![
                ("type", js("tool_result")),
                ("tool_use_id", js(id.clone())),
                ("is_error", js(true)),
                ("content", js(content.clone())),
            ]),
        ])),
    ])
}

/// Enough padding to ensure the stub marker is smaller than the content.
fn big(s: &str) -> String {
    format!("{}{}", s, "x".repeat(120))
}

// ---- Core supersession tests ----

/// Scenario: Read P at turn 0, Write P at turn 1.
/// Expected: the Read result (turn 0) is elided; the later state (Write) is kept.
#[test]
fn read_superseded_by_later_write() {
    let content = big("file contents before edit");
    let mut msgs = vec![
        tool_use_msg("r0", "Read", obj(vec![("path", js("/src/lib.rs"))])),
        tool_result_msg("r0", &content),
        // Later the agent writes to the same file.
        tool_use_msg(
            "w0",
            "Write",
            obj(vec![("file_path", js("/src/lib.rs")), ("new_string", js("new"))]),
        ),
        tool_result_msg("w0", "wrote 3 bytes"),
    ];
    let stats = apply(&mut msgs, &cfg(&[])).unwrap();
    assert_eq!(stats.stubbed, 1, "the stale Read result should be elided");
    // Read result is now a stub.
    let read_content = msgs[1]["content"][0]["content"].as_str().unwrap();
    assert!(
        read_content.starts_with("[trimwire: stale read"),
        "Read result should carry the stale marker; got: {read_content}"
    );
    // Write result is untouched (it is the cause of supersession, not the victim).
    assert_eq!(
        msgs[3]["content"][0]["content"],
        js("wrote 3 bytes"),
        "Write result must be preserved verbatim"
    );
    index(&msgs).validate().unwrap();
}

/// B-9: a protected path's superseded Read result is NOT elided.
#[test]
fn protected_path_superseded_read_not_elided() {
    let content = big("AGENTS.md contents");
    let build = || {
        vec![
            tool_use_msg("r0", "Read", obj(vec![("path", js("/repo/AGENTS.md"))])),
            tool_result_msg("r0", &content),
            tool_use_msg(
                "w0",
                "Write",
                obj(vec![("file_path", js("/repo/AGENTS.md")), ("new_string", js("x"))]),
            ),
            tool_result_msg("w0", "wrote"),
        ]
    };
    // Sanity: unprotected → the superseded read IS elided.
    let mut unprot = build();
    assert_eq!(apply(&mut unprot, &cfg(&[])).unwrap().stubbed, 1);
    // Protected → NOT elided.
    let mut prot = build();
    let mut c = cfg(&[]);
    c.protected_file_patterns = vec!["*AGENTS.md".to_owned()];
    assert_eq!(
        apply(&mut prot, &c).unwrap().stubbed,
        0,
        "protected read kept"
    );
    assert_eq!(
        prot[1]["content"][0]["content"].as_str().unwrap(),
        content,
        "protected read content is intact"
    );
    index(&prot).validate().unwrap();
}

/// B-9: a protected path is not demand-paged either (same path_ops exclusion).
#[test]
fn protected_path_not_demand_paged() {
    let mk = || {
        let mut msgs = vec![
            tool_use_msg("r0", "Read", obj(vec![("path", js("/repo/AGENTS.md"))])),
            tool_result_msg("r0", &"z".repeat(9000)), // > 8192 page threshold
        ];
        for i in 0..6 {
            let id = format!("p{i}");
            msgs.push(tool_use_msg(
                &id,
                "Bash",
                obj(vec![("command", js(format!("e{i}")))]),
            ));
            msgs.push(tool_result_msg(&id, "ok"));
        }
        msgs
    };
    // Sanity: unprotected → the old large read IS paged.
    let mut unprot = mk();
    assert!(apply(&mut unprot, &cfg_paging(8192, 4)).unwrap().stubbed >= 1);
    // Protected → NOT paged.
    let mut prot = mk();
    let mut c = cfg_paging(8192, 4);
    c.protected_file_patterns = vec!["*AGENTS.md".to_owned()];
    assert_eq!(
        apply(&mut prot, &c).unwrap().stubbed,
        0,
        "protected read not paged"
    );
    assert!(
        prot[1]["content"][0]["content"]
            .as_str()
            .unwrap()
            .starts_with('z'),
        "protected read content is intact"
    );
}

#[test]
fn does_not_collapse_superseded_write_input() {
    let body = "y".repeat(2000);
    let mut msgs = vec![
        tool_use_msg(
            "w0",
            "Write",
            obj(vec![("file_path", js("/src/a.rs")), ("new_string", js(body.clone()))]),
        ),
        tool_result_msg("w0", "wrote"),
        tool_use_msg(
            "w1",
            "Edit",
            obj(vec![
                ("file_path", js("/src/a.rs")),
                ("new_string", js("fn final_fn() {}")),
            ]),
        ),
        tool_result_msg("w1", "edited"),
    ];
    let stats = apply(&mut msgs, &cfg(&[])).unwrap();
    // No Read results here, and authored inputs are never collapsed → no-op.
    assert_eq!(
        stats.stubbed, 0,
        "authored Write/Edit inputs must never be elided by stale_reads"
    );
    assert_eq!(
        msgs[0]["content"][0]["input"]["new_string"],
        js(body.clone()),
        "superseded authored body must be kept verbatim"
    );
    assert_eq!(
        msgs[2]["content"][0]["input"]["new_string"],
        js("fn final_fn() {}"),
        "latest write must be intact"
    );
    index(&msgs).validate().unwrap();
}

/// Demand-paging: an OLD, LARGE, non-superseded Read is paged with a re-read
/// marker naming the path; a RECENT read is left intact.
#[test]
fn pages_old_large_nonsuperseded_read() {
    let mut msgs = vec![
        tool_use_msg("r0", "Read", obj(vec![("path", js("/src/big.rs"))])),
        tool_result_msg("r0", &"z".repeat(9000)), // > 8192 page threshold
    ];
    for i in 0..6 {
        let id = format!("p{i}");
        msgs.push(tool_use_msg(
            &id,
            "Bash",
            obj(vec![("command", js(format!("echo {i}")))]),
        ));
        msgs.push(tool_result_msg(&id, "ok"));
    }
    // A RECENT large read (last turn) — must NOT be paged.
    msgs.push(tool_use_msg(
        "r_recent",
        "Read",
        obj(vec![("path", js("/src/recent.rs"))]),
    ));
    msgs.push(tool_result_msg("r_recent", &"w".repeat(9000)));

    let stats = apply(&mut msgs, &cfg_paging(8192, 4)).unwrap();
    assert!(stats.stubbed >= 1, "old large read should be paged");
    let r0 = msgs[1]["content"][0]["content"].as_str().unwrap();
    assert!(
        r0.contains("paged out") && r0.contains("/src/big.rs") && r0.contains("re-read"),
        "paged marker must name the path + instruct re-read; got: {r0}"
    );
    assert!(
        msgs.last().unwrap()["content"][0]["content"]
            .as_str()
            .unwrap()
            .starts_with('w'),
        "recent read must NOT be paged"
    );
    index(&msgs).validate().unwrap();
}

/// Boundary pin for the page-min check's JSON-serialization semantics.
///
/// A read is skipped where `serde_json::to_string(content).len() <= page_min_bytes`.
/// A bare JSON string serializes to `raw + 2` bytes (the surrounding quotes),
/// so paging fires iff `raw + 2 > page_min`, i.e. the EFFECTIVE raw-content
/// threshold is `page_min - 1`: raw == page_min-2 is NOT paged (serialized ==
/// page_min), raw == page_min-1 IS paged (serialized == page_min+1).
#[test]
fn page_min_boundary_accounts_for_json_quote_overhead() {
    // True iff an OLD single-view Read of `raw_len` bytes is demand-paged.
    let paged_at = |raw_len: usize, page_min: usize| -> bool {
        let mut msgs = vec![
            tool_use_msg("r0", "Read", obj(vec![("path", js("/src/boundary.rs"))])),
            tool_result_msg("r0", &"z".repeat(raw_len)),
        ];
        // Age the read past keep_recent (single-view, non-superseded, not hot).
        for i in 0..6 {
            let id = format!("p{i}");
            msgs.push(tool_use_msg(
                &id,
                "Bash",
                obj(vec![("command", js(format!("echo {i}")))]),
            ));
            msgs.push(tool_result_msg(&id, "ok"));
        }
        apply(&mut msgs, &cfg_paging(page_min, 4)).unwrap();
        msgs[1]["content"][0]["content"]
            .as_str()
            .unwrap()
            .contains("paged out")
    };

    let min = 1024;
    assert!(
        !paged_at(min - 2, min),
        "raw == page_min-2 → serialized == page_min → NOT paged (<= gate)"
    );
    assert!(
        paged_at(min - 1, min),
        "raw == page_min-1 → serialized == page_min+1 → paged"
    );
}

#[test]
fn hot_reread_path_is_not_paged() {
    let mut msgs = vec![
        tool_use_msg("r0", "Read", obj(vec![("path", js("/src/hot.rs"))])),
        tool_result_msg("r0", &"z".repeat(40_000)),
        // Re-read the SAME path later → read_count == 2 (a hot path).
        tool_use_msg("r1", "Read", obj(vec![("path", js("/src/hot.rs"))])),
        tool_result_msg("r1", &"q".repeat(40_000)),
    ];
    // Age both reads past keep_recent so paging would otherwise target r1.
    for i in 0..6 {
        let id = format!("p{i}");
        msgs.push(tool_use_msg(
            &id,
            "Bash",
            obj(vec![("command", js(format!("echo {i}")))]),
        ));
        msgs.push(tool_result_msg(&id, "ok"));
    }
    apply(&mut msgs, &cfg_paging(8192, 4)).unwrap();
    // r0 (superseded) is elided by behavior #1; but r1 (current view) must NOT
    // be paged because the path was read twice.
    let r1 = msgs[3]["content"][0]["content"].as_str().unwrap();
    assert!(
        r1.starts_with('q'),
        "hot re-read path's current view must NOT be paged; got: {}",
        &r1[..r1.len().min(48)]
    );
    index(&msgs).validate().unwrap();
}

/// Scenario: Read P at turn 0, Read P again at turn 1 (file unchanged or changed).
/// Expected: the earlier Read is elided; the latest Read is kept.
#[test]
fn earlier_read_superseded_by_later_read() {
    let content_v1 = big("file contents version 1");
    let content_v2 = big("file contents version 2 after edit");
    let mut msgs = vec![
        tool_use_msg("r0", "Read", obj(vec![("path", js("/src/lib.rs"))])),
        tool_result_msg("r0", &content_v1),
        // Same path read again later (content may have changed).
        tool_use_msg("r1", "Read", obj(vec![("path", js("/src/lib.rs"))])),
        tool_result_msg("r1", &content_v2),
    ];
    let stats = apply(&mut msgs, &cfg(&[])).unwrap();
    assert_eq!(stats.stubbed, 1, "earlier Read should be elided");
    let read0_content = msgs[1]["content"][0]["content"].as_str().unwrap();
    assert!(
        read0_content.starts_with("[trimwire: stale read"),
        "earlier Read result should carry the stale marker"
    );
    // Latest Read is untouched.
    assert_eq!(
        msgs[3]["content"][0]["content"],
        js(content_v2.clone()),
        "latest Read must be preserved verbatim"
    );
    index(&msgs).validate().unwrap();
}

/// Scenario: Read P never written or re-read → untouched.
#[test]
fn read_with_no_later_operation_is_untouched() {
    let content = big("only read once, never superseded");
    let mut msgs = vec![
        tool_use_msg("r0", "Read", obj(vec![("path", js("/solo.txt"))])),
        tool_result_msg("r0", &content),
    ];
    let stats = apply(&mut msgs, &cfg(&[])).unwrap();
    assert_eq!(stats.stubbed, 0, "sole Read must never be elided");
    assert_eq!(
        msgs[1]["content"][0]["content"],
        js(content.clone()),
        "sole Read result must be preserved verbatim"
    );
}

/// The LAST operation on each path is never elided, even when many precede it.
#[test]
fn last_operation_per_path_is_never_elided() {
    let v1 = big("version 1");
    let v2 = big("version 2");
    let v3 = big("version 3 — the freshest view");
    let mut msgs = vec![
        tool_use_msg("r0", "Read", obj(vec![("path", js("/f.rs"))])),
        tool_result_msg("r0", &v1),
        tool_use_msg("r1", "Read", obj(vec![("path", js("/f.rs"))])),
        tool_result_msg("r1", &v2),
        tool_use_msg("r2", "Read", obj(vec![("path", js("/f.rs"))])),
        tool_result_msg("r2", &v3),
    ];
    let stats = apply(&mut msgs, &cfg(&[])).unwrap();
    // First two Reads are stale; the last is kept.
    assert_eq!(
        stats.stubbed, 2,
        "only the two stale reads should be elided"
    );
    assert!(
        msgs[1]["content"][0]["content"]
            .as_str()
            .unwrap()
            .starts_with("[trimwire: stale read"),
        "first Read should be elided"
    );
    assert!(
        msgs[3]["content"][0]["content"]
            .as_str()
            .unwrap()
            .starts_with("[trimwire: stale read"),
        "second Read should be elided"
    );
    assert_eq!(
        msgs[5]["content"][0]["content"],
        js(v3.clone()),
        "last Read must be kept verbatim"
    );
    index(&msgs).validate().unwrap();
}

/// is_error Read results are skipped (a failed read is not an authoritative view).
#[test]
fn error_read_result_is_skipped() {
    let mut msgs = vec![
        tool_use_msg("r0", "Read", obj(vec![("path", js("/missing.txt"))])),
        error_result_msg("r0", "file not found"),
        // Later read of the same path (non-error).
        tool_use_msg("r1", "Read", obj(vec![("path", js("/missing.txt"))])),
        tool_result_msg("r1", &big("now it exists")),
    ];
    let stats = apply(&mut msgs, &cfg(&[])).unwrap();
    // The error result is skipped; the later Read is kept (it is the last op).
    assert_eq!(stats.stubbed, 0, "is_error result must be skipped");
    assert_eq!(
        msgs[1]["content"][0]["content"],
        js("file not found"),
        "error result must be preserved verbatim"
    );
}

/// Exempt tools are not tracked as path operations (so they don't cause
/// supersession of earlier Reads).
#[test]
fn exempt_tool_not_tracked() {
    let content = big("file contents");
    let mut msgs = vec![
        tool_use_msg("r0", "Read", obj(vec![("path", js("/f.rs"))])),
        tool_result_msg("r0", &content),
        // If Read were exempt, the earlier Read would not be superseded by
        // this later Read — but we test the *tool* is exempt, meaning it is
        // not tracked as an operation at all.
        tool_use_msg("r1", "Read", obj(vec![("path", js("/f.rs"))])),
        tool_result_msg("r1", &big("newer content")),
    ];
    // With Read exempt: no operations are tracked → nothing is stale.
    let stats = apply(&mut msgs, &cfg(&["Read"])).unwrap();
    assert_eq!(
        stats.stubbed, 0,
        "when Read is exempt it is not tracked; nothing is elided"
    );
    // Both results intact.
    assert_eq!(msgs[1]["content"][0]["content"], js(content.clone()));
}

/// Shrink guard: a tiny Read result must not be grown by the stub marker.
#[test]
fn tiny_read_not_grown_by_shrink_guard() {
    // "ok" is 2 bytes; the marker is much longer → elision would grow body.
    let mut msgs = vec![
        tool_use_msg("r0", "Read", obj(vec![("path", js("/tiny.txt"))])),
        tool_result_msg("r0", "ok"),
        tool_use_msg(
            "w0",
            "Write",
            obj(vec![("file_path", js("/tiny.txt")), ("new_string", js("ok2"))]),
        ),
        tool_result_msg("w0", "wrote"),
    ];
    let stats = apply(&mut msgs, &cfg(&[])).unwrap();
    assert_eq!(
        stats.stubbed, 0,
        "tiny Read result must not be stubbed (would grow body)"
    );
    assert_eq!(msgs[1]["content"][0]["content"], js("ok"));
}

// ---- Idempotency, determinism, orphan-free ----

/// Running apply twice: the second run stubs 0 (idempotent).
#[test]
fn idempotent_second_run_stubs_zero() {
    let content = big("file contents");
    let mut msgs = vec![
        tool_use_msg("r0", "Read", obj(vec![("path", js("/f.rs"))])),
        tool_result_msg("r0", &content),
        tool_use_msg(
            "w0",
            "Write",
            obj(vec![("file_path", js("/f.rs")), ("new_string", js("new"))]),
        ),
        tool_result_msg("w0", "wrote"),
    ];
    let first = apply(&mut msgs, &cfg(&[])).unwrap();
    assert!(first.stubbed > 0, "first run must elide something");
    let after_first = serde_json::to_vec(&msgs).unwrap();

    let second = apply(&mut msgs, &cfg(&[])).unwrap();
    assert_eq!(second.stubbed, 0, "second run must be a no-op");
    let after_second = serde_json::to_vec(&msgs).unwrap();
    assert_eq!(after_first, after_second, "byte-identical after second run");
}

/// Two independent runs from the same input produce byte-identical output.
#[test]
fn stale_reads_deterministic_two_runs() {
    let mk = || {
        vec![
            tool_use_msg("r0", "Read", obj(vec![("path", js("/a.rs"))])),
            tool_result_msg("r0", &big("v1")),
            tool_use_msg("r1", "Read", obj(vec![("path", js("/a.rs"))])),
            tool_result_msg("r1", &big("v2")),
            tool_use_msg(
                "e0",
                "Edit",
                obj(vec![
                    ("file_path", js("/a.rs")),
                    ("old_string", js("x")),
                    ("new_string", js("y")),
                ]),
            ),
            tool_result_msg("e0", "edited"),
        ]
    };
    let mut a = mk();
    let mut b = mk();
    apply(&mut a, &cfg(&[])).unwrap();
    apply(&mut b, &cfg(&[])).unwrap();
    assert_eq!(
        serde_json::to_vec(&a).unwrap(),
        serde_json::to_vec(&b).unwrap(),
        "two independent runs must be byte-identical"
    );
}

/// PairingIndex is valid both pre- and post-apply (orphan-free).
#[test]
fn stale_reads_orphan_free_pre_and_post() {
    let mut msgs = vec![
        tool_use_msg("r0", "Read", obj(vec![("path", js("/x.rs"))])),
        tool_result_msg("r0", &big("contents")),
        tool_use_msg("r1", "Read", obj(vec![("path", js("/x.rs"))])),
        tool_result_msg("r1", &big("contents updated")),
    ];
    index(&msgs).validate().unwrap();
    apply(&mut msgs, &cfg(&[])).unwrap();
    index(&msgs)
        .validate()
        .expect("no orphans after stale_reads");
}

// ---- Needle tests ----

/// A needle in the KEPT (latest) Read result survives.
#[test]
fn needle_in_kept_latest_read_survives() {
    let needle = "NEEDLE_STALE_READS_KEEP_4f8a";
    let stale_content = big("stale version of the file");
    let fresh_content = format!(
        "fresh content with {needle} that must survive{}",
        "x".repeat(80)
    );

    let mut msgs = vec![
        tool_use_msg("r0", "Read", obj(vec![("path", js("/f.rs"))])),
        tool_result_msg("r0", &stale_content),
        tool_use_msg("r1", "Read", obj(vec![("path", js("/f.rs"))])),
        tool_result_msg("r1", &fresh_content),
    ];
    apply(&mut msgs, &cfg(&[])).unwrap();
    // Latest Read (r1) must still contain the needle.
    let kept = msgs[3]["content"][0]["content"].as_str().unwrap();
    assert!(
        kept.contains(needle),
        "needle must survive in the kept latest Read; got: {kept}"
    );
}

/// A needle ONLY in a stale (superseded) Read is elided — the file changed;
/// the model's fresh view (via Write/Edit) no longer contains that version.
///
/// # Design note
/// This is intentional and correct: once the file was overwritten by a
/// Write/Edit, the previous Read's content is no longer the ground truth.
/// Eliding it is equivalent to what the agent itself did (overwrote the file).
/// The model should use the new file state, not the pre-edit snapshot.
#[test]
fn needle_only_in_stale_read_is_elided_by_design() {
    let needle = "NEEDLE_STALE_READS_GONE_b7c3";
    let stale_content = format!(
        "content with {needle} that gets overwritten{}",
        "x".repeat(80)
    );

    let mut msgs = vec![
        tool_use_msg("r0", "Read", obj(vec![("path", js("/f.rs"))])),
        tool_result_msg("r0", &stale_content),
        // Agent wrote a completely new version — the stale Read is dead weight.
        tool_use_msg(
            "w0",
            "Write",
            obj(vec![
                ("file_path", js("/f.rs")),
                ("new_string", js("completely new content without the needle")),
            ]),
        ),
        tool_result_msg("w0", "wrote 42 bytes"),
    ];
    apply(&mut msgs, &cfg(&[])).unwrap();
    // The stale Read result no longer contains the needle (elided).
    let elided = msgs[1]["content"][0]["content"].as_str().unwrap();
    assert!(
        !elided.contains(needle),
        "needle in stale Read is correctly elided after Write; got: {elided}"
    );
    assert!(
        elided.starts_with("[trimwire: stale read"),
        "stale Read must carry the stub marker; got: {elided}"
    );
}

// ---- Multiple paths ----

/// Two different paths: each is tracked independently; only the stale Reads
/// for each path are elided.
#[test]
fn multiple_paths_tracked_independently() {
    let a_v1 = big("path A version 1");
    let a_v2 = big("path A version 2");
    let b_v1 = big("path B version 1 — never re-read");

    let mut msgs = vec![
        tool_use_msg("ra0", "Read", obj(vec![("path", js("/a.rs"))])),
        tool_result_msg("ra0", &a_v1),
        tool_use_msg("rb0", "Read", obj(vec![("path", js("/b.rs"))])),
        tool_result_msg("rb0", &b_v1),
        // Only /a.rs is re-read; /b.rs is never touched again.
        tool_use_msg("ra1", "Read", obj(vec![("path", js("/a.rs"))])),
        tool_result_msg("ra1", &a_v2),
    ];
    let stats = apply(&mut msgs, &cfg(&[])).unwrap();
    // Only the first Read of /a.rs is stale.
    assert_eq!(stats.stubbed, 1, "only the stale Read of /a.rs is elided");
    assert!(
        msgs[1]["content"][0]["content"]
            .as_str()
            .unwrap()
            .starts_with("[trimwire: stale read"),
        "/a.rs first Read should be elided"
    );
    // /b.rs is never re-read → its sole Read is kept.
    assert_eq!(
        msgs[3]["content"][0]["content"],
        js(b_v1.clone()),
        "/b.rs Read must be untouched"
    );
    // Latest /a.rs read kept.
    assert_eq!(
        msgs[5]["content"][0]["content"],
        js(a_v2.clone()),
        "latest /a.rs Read must be kept verbatim"
    );
    index(&msgs).validate().unwrap();
}

/// Read superseded by Edit (uses file_path field).
#[test]
fn read_superseded_by_edit() {
    let content = big("before edit");
    let mut msgs = vec![
        tool_use_msg("r0", "Read", obj(vec![("path", js("/f.rs"))])),
        tool_result_msg("r0", &content),
        tool_use_msg(
            "e0",
            "Edit",
            obj(vec![
                ("file_path", js("/f.rs")),
                ("old_string", js("x")),
                ("new_string", js("y")),
            ]),
        ),
        tool_result_msg("e0", "edit applied"),
    ];
    let stats = apply(&mut msgs, &cfg(&[])).unwrap();
    assert_eq!(stats.stubbed, 1, "Read superseded by Edit must be elided");
    assert!(
        msgs[1]["content"][0]["content"]
            .as_str()
            .unwrap()
            .starts_with("[trimwire: stale read")
    );
}

/// Read superseded by MultiEdit.
#[test]
fn read_superseded_by_multiedit() {
    let content = big("before multiedit");
    let mut msgs = vec![
        tool_use_msg("r0", "Read", obj(vec![("path", js("/f.rs"))])),
        tool_result_msg("r0", &content),
        tool_use_msg(
            "me0",
            "MultiEdit",
            obj(vec![("file_path", js("/f.rs")), ("edits", list(vec![]))]),
        ),
        tool_result_msg("me0", "multiedit applied"),
    ];
    let stats = apply(&mut msgs, &cfg(&[])).unwrap();
    assert_eq!(
        stats.stubbed, 1,
        "Read superseded by MultiEdit must be elided"
    );
}
