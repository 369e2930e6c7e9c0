use serde_json::Value;
use trimwire::json::Json;
use trimwire::sweep::backup::{backup_name, is_backup_of, newest, surplus, temp_name, BAK_RETAIN};
use trimwire::sweep::{
    changed_meanwhile, dry_run, first_uuids, is_sidechain_transcript, strip_empty_thinking, sweep,
    validate,
};

fn obj(members: Vec<(&str, Value)>) -> Value {
    Value::Object(members.into_iter().map(|(k, x)| (k.to_owned(), x)).collect())
}

fn list(items: Vec<Value>) -> Value {
    Value::Array(items)
}

fn js<T: Into<Value>>(x: T) -> Value {
    x.into()
}

fn to_json(value: &Value) -> Json {
    Json::parse(value.to_string().as_bytes()).unwrap()
}

fn to_value(json: &Json) -> Value {
    serde_json::from_str(&json.to_text()).unwrap()
}

fn strip(rec: &mut Value) -> usize {
    let mut item = to_json(rec);
    let n = strip_empty_thinking(&mut item);
    *rec = to_value(&item);
    n
}

#[test]
fn is_sidechain_transcript_matches_subagents_component_exactly() {
    // Top-level session transcript — NOT a sidechain.
    assert!(!is_sidechain_transcript(
        "/home/user/.agent/projects/-home-user-repo/abc123.jsonl"
    ));
    // Inside a subagents/ directory — a sidechain.
    assert!(is_sidechain_transcript(
        "/home/user/.agent/projects/-home-user-repo/abc123/subagents/agent-deadbeef.jsonl"
    ));
    // "subagents" must be a whole path component, not a substring of a name.
    assert!(!is_sidechain_transcript(
        "/home/user/.agent/projects/-home-user-repo/subagents-like-name.jsonl"
    ));
    // Relative sidechain paths match too.
    assert!(is_sidechain_transcript(
        "subagents/agent-cafebabe.jsonl"
    ));
}

fn rec_assistant(uuid: &str, content: Value) -> String {
    obj(vec![
        ("type", js("assistant")),
        ("uuid", js(uuid.clone())),
        ("message", obj(vec![("role", js("assistant")), ("content", js(content.clone()))])),
    ])
        .to_string()
}
fn rec_user(uuid: &str, content: Value) -> String {
    obj(vec![
        ("type", js("user")),
        ("uuid", js(uuid.clone())),
        ("message", obj(vec![("role", js("user")), ("content", js(content.clone()))])),
    ])
        .to_string()
}

/// A session with: an empty thinking block, a failed Bash call, and a
/// normal turn. Sweep drops the empty thinking + purges the failed input.
fn sample_session() -> String {
    [
        rec_assistant(
            "a1",
            list(vec![
                obj(vec![
                    ("type", js("thinking")),
                    ("thinking", js("")),
                    ("signature", js("sigonly")),
                ]),
                obj(vec![
                    ("type", js("tool_use")),
                    ("id", js("t1")),
                    ("name", js("Bash")),
                    ("input", obj(vec![("command", js("boom --very-long"))])),
                ]),
            ]),
        ),
        rec_user(
            "u1",
            list(vec![
                obj(vec![
                    ("type", js("tool_result")),
                    ("tool_use_id", js("t1")),
                    ("is_error", js(true)),
                    ("content", js("failed")),
                ]),
            ]),
        ),
        rec_assistant(
            "a2",
            list(vec![
                obj(vec![
                    ("type", js("thinking")),
                    ("thinking", js("real reasoning")),
                    ("signature", js("sig")),
                ]),
                obj(vec![
                    ("type", js("tool_use")),
                    ("id", js("t2")),
                    ("name", js("Read")),
                    ("input", obj(vec![("path", js("/ok"))])),
                ]),
            ]),
        ),
        rec_user("u2", list(vec![
            obj(vec![
                ("type", js("tool_result")),
                ("tool_use_id", js("t2")),
                ("content", js("ok")),
            ]),
        ])),
    ]
    .join("\n")
        + "\n"
}

#[test]
fn sweep_strips_empty_thinking_and_purges_failed_input() {
    let session = sample_session();
    let report = dry_run(session.as_bytes());
    assert_eq!(
        report.thinking_dropped, 1,
        "one empty thinking block dropped"
    );
    assert_eq!(report.inputs_purged, 1, "one failed input purged");
    assert!(report.saved() > 0);

    // No empty thinking, failed input cleared, real thinking kept.
    let out = sweep(session.as_bytes());
    assert!(out.mutated);
    let swept = String::from_utf8(out.bytes).unwrap();
    assert!(!swept.contains("sigonly"), "empty thinking block gone");
    assert!(swept.contains("real reasoning"), "real thinking kept");
    let a1: Value = serde_json::from_str(swept.lines().next().unwrap()).unwrap();
    assert_eq!(
        a1["message"]["content"][0]["input"],
        obj(vec![]),
        "failed input cleared"
    );
    // Successful Read input untouched.
    assert!(swept.contains("\"/ok\""));
    assert!(validate(swept.as_bytes()), "swept file validates");
}

#[test]
fn idempotent_second_sweep_is_noop() {
    let first = sweep(sample_session().as_bytes());
    let second = sweep(&first.bytes);
    assert_eq!(second.thinking_dropped, 0);
    assert_eq!(second.inputs_purged, 0);
    // Content unchanged on the second pass (only mutated lines re-serialize).
    assert_eq!(second.bytes, first.bytes);
}

#[test]
fn non_json_lines_preserved_verbatim() {
    let content = format!(
        "not json at all\n{}\n",
        rec_user("u1", list(vec![obj(vec![("type", js("text")), ("text", js("hi"))])]))
    );
    let swept = String::from_utf8(sweep(content.as_bytes()).bytes).unwrap();
    assert!(
        swept.starts_with("not json at all\n"),
        "garbage line kept verbatim"
    );
}

#[test]
fn validate_detects_orphan() {
    let bad = rec_user(
        "u1",
        list(vec![obj(vec![
            ("type", js("tool_result")),
            ("tool_use_id", js("ghost")),
            ("content", js("x")),
        ])]),
    ) + "\n";
    assert!(
        !validate(bad.as_bytes()),
        "orphaned tool_result fails validation"
    );
}

#[test]
fn backup_retention_keeps_three() {
    // Five backups, made one after another: the two oldest go.
    assert_eq!(surplus(&vec![10, 20, 30, 40, 50], BAK_RETAIN), vec![0, 1]);
    // In whatever order the directory lists them.
    assert_eq!(surplus(&vec![50, 10, 40, 20, 30], BAK_RETAIN), vec![1, 3]);
    assert_eq!(surplus(&vec![7, 7, 7, 7], BAK_RETAIN), vec![0]);
    assert!(surplus(&vec![1, 2, 3], BAK_RETAIN).is_empty());
    assert_eq!(BAK_RETAIN, 3);
}

#[test]
fn restore_backup_brings_back_pre_sweep_content() {
    // The latest backup is the one that is restored.
    assert_eq!(newest(&vec![10, 30, 20]), Some(1));
    assert_eq!(newest(&vec![30, 30, 20]), Some(0));
    let name = backup_name("s.jsonl", 42);
    assert!(name.contains(".bak."));
    assert!(is_backup_of(&name, "s.jsonl"));
    assert!(!is_backup_of(&name, "t.jsonl"));
    assert!(!is_backup_of("s.jsonl.tmp.1.42", "s.jsonl"));
}

#[test]
fn restore_backup_errors_when_none() {
    assert_eq!(newest(&vec![]), None, "no backup, nothing to restore");
}

#[test]
fn clean_file_resweep_is_true_noop_no_backup() {
    let first = sweep(sample_session().as_bytes());
    assert!(first.mutated);
    let report = dry_run(&first.bytes);
    assert_eq!(report.thinking_dropped, 0);
    assert_eq!(report.inputs_purged, 0);
    assert!(report.backup.is_none(), "no backup for a no-op sweep");
    assert_eq!(report.saved(), 0);
    let second = sweep(&first.bytes);
    assert!(!second.mutated, "nothing to write");
    assert_eq!(second.bytes, first.bytes, "file untouched");
}

#[test]
fn commit_aborts_and_leaves_file_untouched_when_changed_concurrently() {
    let stale_orig = sample_session();
    let live = sample_session()
        + &rec_user("u9", list(vec![obj(vec![("type", js("text")), ("text", js("appended"))])]));
    // Fewer records than are looked at: one more at the end is another prefix.
    assert_eq!(
        changed_meanwhile(stale_orig.as_bytes(), live.as_bytes()),
        Some("session prefix changed (compaction/rewrite?)")
    );
    let longer = sample_session() + &sample_session();
    let appended = longer.clone() + &rec_user("u9", list(vec![]));
    assert_eq!(
        changed_meanwhile(longer.as_bytes(), appended.as_bytes()),
        Some("file changed (active session?)")
    );
    // Another record at the head: the session was rewritten.
    let rewritten = rec_user("u0", list(vec![])) + "\n" + &sample_session();
    assert_eq!(
        changed_meanwhile(stale_orig.as_bytes(), rewritten.as_bytes()),
        Some("session prefix changed (compaction/rewrite?)")
    );
    assert_eq!(changed_meanwhile(live.as_bytes(), live.as_bytes()), None);
}

#[test]
fn dry_run_reports_without_writing() {
    let r = dry_run(sample_session().as_bytes());
    assert_eq!(r.thinking_dropped, 1);
    assert_eq!(r.inputs_purged, 1);
    assert_eq!(r.lines, 4);
    assert_eq!(r.orig_bytes, sample_session().len() as u64);
    assert!(r.backup.is_none());
}

#[test]
fn empty_thinking_only_record_is_not_emptied() {
    // An assistant record whose ONLY block is an empty thinking block must
    // not become `content: []` (API-rejectable). Leave it as-is.
    let mut rec: Value = serde_json::from_str(&rec_assistant(
        "a1",
        list(vec![
            obj(vec![
                ("type", js("thinking")),
                ("thinking", js("")),
                ("signature", js("s")),
            ]),
        ]),
    ))
    .unwrap();
    assert_eq!(strip(&mut rec), 0, "must not strip to empty");
    assert_eq!(
        rec["message"]["content"].as_array().unwrap().len(),
        1,
        "content not emptied"
    );
}

#[test]
fn blank_lines_and_no_trailing_newline_preserved_verbatim() {
    // Internal blank line + no trailing newline; only one record is mutable.
    let content = format!(
        "{}\n\n{}",
        rec_user("u1", list(vec![obj(vec![("type", js("text")), ("text", js("hi"))])])),
        rec_assistant(
            "a1",
            list(vec![
                obj(vec![("type", js("thinking")), ("thinking", js("")), ("signature", js("x"))]),
                obj(vec![("type", js("text")), ("text", js("bye"))]),
            ])
        )
    );
    let swept = sweep(content.as_bytes());
    assert_eq!(swept.thinking_dropped, 1);
    // Blank line preserved, no trailing newline added.
    assert!(swept.bytes.windows(2).any(|w| w == b"\n\n"), "blank line kept");
    assert_ne!(swept.bytes.last(), Some(&b'\n'), "no trailing newline added");
}

#[test]
fn unchanged_noncanonical_line_is_byte_identical() {
    // A valid-but-oddly-formatted line with no mutation must survive byte for byte.
    let weird = r#"{ "type":"user" ,  "uuid":"u1", "message":{"role":"user","content":[{"type":"text","text":"hi"}]} }"#;
    // Pair it with a record that DOES mutate so sweep actually rewrites.
    let content = format!(
        "{weird}\n{}\n",
        rec_assistant(
            "a1",
            list(vec![
                obj(vec![("type", js("thinking")), ("thinking", js("")), ("signature", js("x"))]),
                obj(vec![("type", js("text")), ("text", js("ok"))]),
            ])
        )
    );
    let swept = String::from_utf8(sweep(content.as_bytes()).bytes).unwrap();
    assert!(
        swept.lines().next().unwrap() == weird,
        "unchanged odd line preserved verbatim"
    );
}

#[test]
fn validate_failure_modes() {
    // parse error
    assert!(!validate(b"not json\n"), "parse error fails");
    // leftover empty thinking
    let p2 = rec_assistant(
        "a1",
        list(vec![obj(vec![
            ("type", js("thinking")),
            ("thinking", js("")),
            ("signature", js("s")),
        ])]),
    ) + "\n";
    assert!(!validate(p2.as_bytes()), "empty thinking fails");
    // empty content array
    let p3 = rec_assistant("a1", list(vec![])) + "\n";
    assert!(!validate(p3.as_bytes()), "empty content fails");
    // a lone tool_use with no result is NOT an orphan (only results can orphan)
    let p4 = rec_assistant(
        "a1",
        list(vec![obj(vec![
            ("type", js("tool_use")),
            ("id", js("t1")),
            ("name", js("Read")),
            ("input", obj(vec![])),
        ])]),
    ) + "\n";
    assert!(validate(p4.as_bytes()), "unpaired tool_use is fine");
}

#[test]
fn names_of_files_beside_a_record() {
    assert_eq!(backup_name("s.jsonl", 1_700_000_000_000_000_000), "s.jsonl.bak.1700000000000000000");
    assert_eq!(temp_name("s.jsonl", 77, 5), "s.jsonl.tmp.77.5");
}

#[test]
fn first_ids_of_a_record() {
    let session = sample_session();
    assert_eq!(first_uuids(session.as_bytes(), 2), vec!["a1", "u1"]);
    assert_eq!(first_uuids(session.as_bytes(), 9), vec!["a1", "u1", "a2", "u2"]);
    assert!(first_uuids(b"garbage\n\n", 3).is_empty());
}
