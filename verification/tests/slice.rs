use serde_json::Value;
use trimwire::json::Json;
use trimwire::pairing::PairingIndex;
use trimwire::summarizer::slice::{
    self, SummaryDecision, REASONING_BLOCK_CAP, TOOL_RESULT_BLOCK_CAP,
};

fn obj(members: Vec<(&str, Value)>) -> Value {
    Value::Object(members.into_iter().map(|(k, x)| (k.to_owned(), x)).collect())
}

fn list(items: Vec<Value>) -> Value {
    Value::Array(items)
}

fn js<T: Into<Value>>(x: T) -> Value {
    x.into()
}

fn to_json(value: &Value) -> Json {
    Json::parse(value.to_string().as_bytes()).unwrap()
}

fn to_value(json: &Json) -> Value {
    serde_json::from_str(&json.to_text()).unwrap()
}

fn to_jsons(values: &[Value]) -> Vec<Json> {
    values.iter().map(to_json).collect()
}

fn to_values(items: &[Json]) -> Vec<Value> {
    items.iter().map(to_value).collect()
}

fn index(messages: &[Value]) -> PairingIndex {
    PairingIndex::build(&to_jsons(messages))
}

fn decision(original: &[Value], start: usize, end: usize, summary: &str) -> Option<SummaryDecision> {
    SummaryDecision::new(&to_jsons(original), start, end, summary)
}

fn anchor_matches(original: &[Value], d: &SummaryDecision) -> bool {
    slice::anchor_matches(&to_jsons(original), d)
}

fn apply_summary(out: &mut Vec<Value>, original: &[Value], d: &SummaryDecision) -> bool {
    let mut items = to_jsons(out);
    let done = slice::apply_summary(&mut items, &to_jsons(original), d);
    *out = to_values(&items);
    done
}

fn apply_summaries(out: &mut Vec<Value>, original: &[Value], chain: &[SummaryDecision]) -> bool {
    let mut items = to_jsons(out);
    let done = slice::apply_summaries(&mut items, &to_jsons(original), chain);
    *out = to_values(&items);
    done
}

fn select_slice(messages: &[Value], keep: usize, max_end: usize) -> Option<(usize, usize)> {
    slice::select_slice(&to_jsons(messages), keep, max_end)
}

fn message_has_override_marker(message: &Value) -> bool {
    slice::message_has_override_marker(&to_json(message))
}

fn cap_slice_at_override(messages: &[Value], start: usize, end: usize) -> usize {
    slice::cap_slice_at_override(&to_jsons(messages), start, end)
}

fn eligible_starts_to(messages: &[Value], end: usize) -> Vec<usize> {
    slice::eligible_starts_to(&to_jsons(messages), end)
}

fn eligible_window_count(messages: &[Value], keep: usize, max_end: usize) -> usize {
    slice::eligible_window_count(&to_jsons(messages), keep, max_end)
}

fn serialize_slice(messages: &[Value], reasoning_cap: usize, tool_result_cap: usize) -> String {
    slice::serialize_slice(&to_jsons(messages), reasoning_cap, tool_result_cap)
}

fn cap_slice_start(
    messages: &[Value],
    start: usize,
    end: usize,
    reasoning_cap: usize,
    tool_result_cap: usize,
    budget: usize,
) -> usize {
    let items = to_jsons(messages);
    slice::cap_slice_start(&items, start, end, reasoning_cap, tool_result_cap, budget)
}

fn cap_slice_end(
    messages: &[Value],
    start: usize,
    max_end: usize,
    reasoning_cap: usize,
    tool_result_cap: usize,
    budget: usize,
) -> usize {
    let items = to_jsons(messages);
    slice::cap_slice_end(&items, start, max_end, reasoning_cap, tool_result_cap, budget)
}

fn densify_start(
    messages: &[Value],
    widest_start: usize,
    end: usize,
    num: u32,
    den: u32,
) -> Option<usize> {
    slice::densify_start(&to_jsons(messages), widest_start, end, num, den)
}

/// `turns` whole [assistant(tool_use), user(tool_result)] pairs, preceded by
/// an initial user turn (the real-conversation shape).
fn convo(turns: usize) -> Vec<Value> {
    let mut m = vec![obj(vec![
        ("role", js("user")),
        ("content", list(vec![obj(vec![("type", js("text")), ("text", js("start"))])])),
    ])];
    for i in 0..turns {
        let id = format!("t{i}");
        m.push(obj(vec![
            ("role", js("assistant")),
            ("content", list(vec![
                obj(vec![
                    ("type", js("tool_use")),
                    ("id", js(id.clone())),
                    ("name", js("Bash")),
                    ("input", obj(vec![("command", js(format!("run {i}")))])),
                ]),
            ])),
        ]));
        m.push(obj(vec![
            ("role", js("user")),
            ("content", list(vec![
                obj(vec![
                    ("type", js("tool_result")),
                    ("tool_use_id", js(id.clone())),
                    ("content", js(format!("out {i}"))),
                ]),
            ])),
        ]));
    }
    m
}

// --- B1 override-protection (O12 safety mitigation) ---
// convo(10): user@0, assistant@1,3,..,19, user@2,4,..,20. select_slice(_,2,len) = (1, 17).
#[test]
fn cap_slice_at_override_excludes_and_protects_override_turn() {
    // repeated stale (benign) + a later authoritative override (a USER turn @14): cap to the last
    // assistant-turn START before it (13) → the override turn is EXCLUDED, stays verbatim.
    let mut m = convo(10);
    m[14] = obj(vec![
        ("role", js("user")),
        ("content", list(vec![
            obj(vec![
                ("type", js("text")),
                ("text", js("AUTHORITATIVE OVERRIDE: store is SQLite, port 9090; do not resurrect 8080.")),
            ]),
        ])),
    ]);
    assert!(message_has_override_marker(&m[14]));
    let (start, end) = select_slice(&m, 2, m.len()).unwrap();
    assert!(
        start < 14 && 14 < end,
        "override must be inside the chosen slice for the test"
    );
    assert_eq!(
        cap_slice_at_override(&m, start, end),
        13,
        "cap = last assistant turn before override"
    );
}

#[test]
fn cap_slice_at_override_marker_on_assistant_turn_returns_j() {
    // Marker carried by an ASSISTANT turn @13 (agent restates the override). The inclusive upper
    // bound `..=j` must return j itself (an assistant index) so the marker turn is excluded.
    let mut m = convo(10);
    m[13] = obj(vec![
        ("role", js("assistant")),
        ("content", list(vec![
            obj(vec![
                ("type", js("text")),
                ("text", js("Understood — do not resurrect the in-memory store; current backend is SQLite.")),
            ]),
        ])),
    ]);
    assert!(message_has_override_marker(&m[13]));
    let (start, end) = select_slice(&m, 2, m.len()).unwrap();
    assert_eq!(
        cap_slice_at_override(&m, start, end),
        13,
        "assistant-turn marker → cap == j (..=j)"
    );
}

#[test]
fn cap_slice_at_override_first_marker_wins() {
    // Two markers; the cap is computed from the FIRST (proves .find, not .rfind).
    let mut m = convo(10);
    m[8] = obj(vec![
        ("role", js("user")),
        ("content", list(vec![
            obj(vec![
                ("type", js("text")),
                ("text", js("current ground truth: port is 9090")),
            ]),
        ])),
    ]);
    m[16] = obj(vec![
        ("role", js("user")),
        ("content", list(vec![
            obj(vec![
                ("type", js("text")),
                ("text", js("authoritative override: store is SQLite")),
            ]),
        ])),
    ]);
    let (start, end) = select_slice(&m, 2, m.len()).unwrap();
    assert!(start < 8 && 16 < end);
    assert_eq!(
        cap_slice_at_override(&m, start, end),
        7,
        "cap from the FIRST marker (7), not the second"
    );
}

#[test]
fn cap_slice_at_override_noop_without_marker() {
    let m = convo(10);
    let (start, end) = select_slice(&m, 2, m.len()).unwrap();
    assert_eq!(
        cap_slice_at_override(&m, start, end),
        end,
        "no marker → slice unchanged"
    );
}

#[test]
fn cap_slice_at_override_no_false_positive_on_dropped_words() {
    // Precision: bare 'obsolete' / 'supersedes' / 'correction:' are NOT markers — they collide
    // with benign prose, git commit messages, and tool/log output. None may cap the slice.
    for benign in [
        "note: the migration deprecates obsolete columns in the legacy table",
        "the new event-sourced schema supersedes the old CRUD design",
        "correction: fix typo in the readme",
        "correction: the index is 0-based, not 1-based",
        "git log: a1b2c3 correction: align table headers (tool output line)",
    ] {
        let mut m = convo(10);
        m[10] = obj(vec![
            ("role", js("user")),
            ("content", list(vec![obj(vec![("type", js("text")), ("text", js(benign.clone()))])])),
        ]);
        let (start, end) = select_slice(&m, 2, m.len()).unwrap();
        assert_eq!(
            cap_slice_at_override(&m, start, end),
            end,
            "benign text must NOT cap: {benign}"
        );
    }
}

#[test]
fn cap_slice_at_override_returns_start_sentinel_when_override_is_earliest() {
    // override at the slice head (no whole pair before it) → returns the `start` sentinel → the
    // caller's `< start + 4` guard skips summarization, leaving the region verbatim.
    let mut m = convo(10);
    m[2] = obj(vec![
        ("role", js("user")),
        ("content", list(vec![
            obj(vec![("type", js("text")), ("text", js("do not resurrect the old config"))]),
        ])),
    ]);
    let (start, end) = select_slice(&m, 2, m.len()).unwrap();
    let capped = cap_slice_at_override(&m, start, end);
    assert_eq!(
        capped, start,
        "no whole pair before head override → start sentinel"
    );
    assert!(
        capped < start + 4,
        "sentinel triggers the caller's skip guard"
    );
}

#[test]
fn splice_replaces_range_and_preserves_pairing() {
    let original = convo(6); // [user, (a,u)x6] = 13 messages
    // Summarize turns 1..=3 → message indices [1, 7).
    let d = decision(&original, 1, 7, "## Goal\nDo work").unwrap();
    let mut out = original.clone();
    assert!(apply_summary(&mut out, &original, &d));
    // 6 messages removed, 2 inserted → 13 - 6 + 2 = 9.
    assert_eq!(out.len(), 9);
    // Summary is an assistant text turn carrying the marker + text.
    let txt = out[1]["content"][0]["text"].as_str().unwrap();
    assert!(txt.contains("[trimwire: summarized turns"));
    assert!(txt.contains("## Goal"));
    assert_eq!(out[2]["role"], "user", "ack turn follows the summary");
    // Surviving tool pairs are intact; no orphans introduced.
    index(&out).validate().expect("no orphans");
    // The summarized tool_use ids are gone; the kept ones remain.
    let s = serde_json::to_string(&out).unwrap();
    assert!(!s.contains("\"t1\""), "summarized id t1 must be gone");
    assert!(s.contains("\"t5\""), "kept id t5 must remain");
}

#[test]
fn role_alternation_holds_after_splice() {
    let original = convo(5);
    let d = decision(&original, 1, 5, "summary").unwrap();
    let mut out = original.clone();
    assert!(apply_summary(&mut out, &original, &d));
    // Walk: roles must strictly alternate user/assistant from the top.
    let roles: Vec<&str> = out.iter().map(|m| m["role"].as_str().unwrap()).collect();
    for w in roles.windows(2) {
        assert_ne!(w[0], w[1], "adjacent roles must differ: {roles:?}");
    }
}

#[test]
fn anchor_mismatch_skips_substitution() {
    let original = convo(6);
    let d = decision(&original, 1, 7, "summary").unwrap();
    // Simulate a rewritten history: same indices, different content.
    let mut rewritten = original.clone();
    rewritten[3]["content"][0]["content"] = js("REWRITTEN");
    let mut out = rewritten.clone();
    assert!(
        !apply_summary(&mut out, &rewritten, &d),
        "anchor hash must not match rewritten history"
    );
    assert_eq!(out, rewritten, "out untouched on mismatch");
}

#[test]
fn out_of_range_or_empty_is_a_noop() {
    let original = convo(3);
    assert!(
        decision(&original, 2, 2, "x").is_none(),
        "empty"
    );
    assert!(
        decision(&original, 5, 3, "x").is_none(),
        "inverted"
    );
    assert!(
        decision(&original, 0, 999, "x").is_none(),
        "end past array"
    );
    // A decision whose end exceeds a (later, shorter) out is skipped safely.
    let d = decision(&original, 1, 7, "x").unwrap();
    let mut shorter = convo(1); // only 3 messages
    let snapshot = shorter.clone();
    assert!(!apply_summary(&mut shorter, &snapshot, &d));
    assert_eq!(shorter, snapshot);
}

#[test]
fn apply_summaries_chains_two_frozen_segments() {
    let original = convo(8); // [user, (a,u)x8] = 17 messages
    // Two contiguous frozen segments: [1..5) then [5..9).
    let seg0 = decision(&original, 1, 5, "## Seg0").unwrap();
    let seg1 = decision(&original, 5, 9, "## Seg1").unwrap();
    let mut out = original.clone();
    assert!(apply_summaries(&mut out, &original, &[seg0, seg1]));
    // 17 - (5-1) - (9-5) + 2 + 2 = 13.
    assert_eq!(out.len(), 13);
    // Both summaries present, in order, each followed by its ack.
    assert!(
        out[1]["content"][0]["text"]
            .as_str()
            .unwrap()
            .contains("## Seg0")
    );
    assert_eq!(out[2]["role"], "user");
    assert!(
        out[3]["content"][0]["text"]
            .as_str()
            .unwrap()
            .contains("## Seg1")
    );
    assert_eq!(out[4]["role"], "user");
    // Strict role alternation across the whole array (no Anthropic 400).
    let roles: Vec<&str> = out.iter().map(|m| m["role"].as_str().unwrap()).collect();
    for w in roles.windows(2) {
        assert_ne!(w[0], w[1], "adjacent roles must differ: {roles:?}");
    }
    // No orphaned tool pairs; summarized ids gone, later ids kept.
    index(&out).validate().expect("no orphans");
    let s = serde_json::to_string(&out).unwrap();
    for gone in ["\"t0\"", "\"t1\"", "\"t2\"", "\"t3\""] {
        assert!(!s.contains(gone), "summarized id {gone} must be gone");
    }
    assert!(s.contains("\"t7\""), "kept id t7 must remain");
}

#[test]
fn apply_summaries_is_all_or_nothing_on_a_stale_segment() {
    let original = convo(8);
    let seg0 = decision(&original, 1, 5, "## Seg0").unwrap();
    let seg1 = decision(&original, 5, 9, "## Seg1").unwrap();
    // Rewrite history inside seg1's range only → seg1 anchor goes stale.
    let mut rewritten = original.clone();
    rewritten[6]["content"][0]["content"] = js("REWRITTEN");
    let mut out = rewritten.clone();
    assert!(
        !apply_summaries(&mut out, &rewritten, &[seg0, seg1]),
        "one stale segment invalidates the whole chain"
    );
    assert_eq!(out, rewritten, "out left UNTOUCHED — no partial splice");
}

#[test]
fn apply_summaries_rejects_overlapping_or_misordered_segments() {
    let original = convo(8);
    let a = decision(&original, 1, 7, "A").unwrap();
    let b = decision(&original, 5, 9, "B").unwrap(); // overlaps a
    let mut out = original.clone();
    assert!(
        !apply_summaries(&mut out, &original, &[a, b]),
        "overlap rejected"
    );
    assert_eq!(out, original, "untouched on overlap");
    // Misordered (descending start) is also rejected by the prev_end guard.
    let s0 = decision(&original, 5, 9, "S0").unwrap();
    let s1 = decision(&original, 1, 5, "S1").unwrap();
    let mut out2 = original.clone();
    assert!(
        !apply_summaries(&mut out2, &original, &[s0, s1]),
        "misorder rejected"
    );
    assert_eq!(out2, original, "untouched on misorder");
}

#[test]
fn appending_a_segment_keeps_the_earlier_segments_prefix_byte_stable() {
    // The cache-stability invariant: growing the chain from [seg0] to
    // [seg0, seg1] must not disturb seg0's spliced region — the leading run is
    // byte-identical, so the prompt cache survives up to the new segment.
    let original = convo(8);
    let seg0 = decision(&original, 1, 5, "## Seg0").unwrap();
    let seg1 = decision(&original, 5, 9, "## Seg1").unwrap();

    let mut one = original.clone();
    assert!(apply_summaries(
        &mut one,
        &original,
        std::slice::from_ref(&seg0)
    ));
    let mut two = original.clone();
    assert!(apply_summaries(&mut two, &original, &[seg0, seg1]));

    // The frozen seg0 pair (indices 0..=2: user, summary, ack) is identical in
    // both; divergence begins only at seg1.
    assert_eq!(
        one[..3],
        two[..3],
        "seg0 region must be byte-stable across growth"
    );
    assert_ne!(one[3], two[3], "divergence starts at the appended segment");
}

#[test]
fn select_slice_snaps_to_whole_pairs_and_protects_recent() {
    let messages = convo(10); // [user, (a,u)x10] = 21 messages
    let (start, end) = select_slice(&messages, 2, usize::MAX).unwrap();
    // Starts at the first assistant (index 1, after the leading user turn).
    assert_eq!(start, 1);
    assert_eq!(messages[start]["role"], "assistant");
    // Ends on an assistant-turn start → whole pairs; the preceding msg is a
    // user (tool_result), so no pair is split.
    assert_eq!(messages[end]["role"], "assistant");
    assert_eq!(messages[end - 1]["role"], "user");
    // The last 2 assistant turns are protected: end is at/below their start.
    // 11 assistant indices are 1,3,5,...; keep=2 protects the last two
    // (indices 17, 19) → end must be ≤ 17.
    assert!(end <= 17, "recent turns must be protected, got end={end}");
    // The chosen slice substitutes cleanly (whole pairs, no orphans).
    let d = decision(&messages, start, end, "s").unwrap();
    let mut out = messages.clone();
    assert!(apply_summary(&mut out, &messages, &d));
    index(&out).validate().expect("no orphans");
}

#[test]
fn select_slice_caps_at_max_end() {
    let messages = convo(10);
    let (start, end) = select_slice(&messages, 2, 8).unwrap();
    assert_eq!(start, 1);
    assert!(
        end <= 8,
        "must not summarize past max_end (checkpoint), got {end}"
    );
    assert_eq!(messages[end]["role"], "assistant");
}

#[test]
fn select_slice_refuses_leading_assistant_transcript() {
    // A non-standard transcript whose messages[0] is an assistant turn: a
    // summary at index 0 would be a leading-assistant message (Anthropic 400).
    // select_slice must decline rather than produce it.
    let mut m = Vec::new();
    for i in 0..8 {
        let id = format!("t{i}");
        m.push(obj(vec![
            ("role", js("assistant")),
            ("content", list(vec![
                obj(vec![
                    ("type", js("tool_use")),
                    ("id", js(id.clone())),
                    ("name", js("Bash")),
                    ("input", obj(vec![("command", js("x"))])),
                ]),
            ])),
        ]));
        m.push(obj(vec![
            ("role", js("user")),
            ("content", list(vec![
                obj(vec![
                    ("type", js("tool_result")),
                    ("tool_use_id", js(id.clone())),
                    ("content", js("ok")),
                ]),
            ])),
        ]));
    }
    assert!(
        select_slice(&m, 2, usize::MAX).is_none(),
        "must not summarize from index 0 of a leading-assistant transcript"
    );
}

#[test]
fn anchor_matches_detects_rewrite() {
    let original = convo(6);
    let d = decision(&original, 1, 7, "s").unwrap();
    assert!(anchor_matches(&original, &d), "unchanged history anchors");
    let mut rewritten = original.clone();
    rewritten[3]["content"][0]["content"] = js("CHANGED");
    assert!(
        !anchor_matches(&rewritten, &d),
        "rewritten history must not anchor"
    );
}

#[test]
fn select_slice_none_when_too_short() {
    // Only 2 turns, keep_recent 2 → nothing old enough to summarize.
    assert!(select_slice(&convo(2), 2, usize::MAX).is_none());
    assert!(select_slice(&convo(3), 2, usize::MAX).is_none());
}

#[test]
fn eligible_window_count_signals_density_aware_choice() {
    // A long session has many viable start positions → density-aware selection
    // has a real choice (NOT a no-op).
    assert!(
        eligible_window_count(&convo(10), 2, usize::MAX) >= 2,
        "a long session should offer multiple eligible slice windows"
    );
}

#[test]
fn eligible_window_count_is_one_when_only_one_viable_slice() {
    // Just enough old history for a single ≥4-message slice: select_slice returns
    // Some, but there's only ONE viable start → density-aware would be a no-op.
    assert!(select_slice(&convo(4), 2, usize::MAX).is_some());
    assert_eq!(
        eligible_window_count(&convo(4), 2, usize::MAX),
        1,
        "a minimal prunable region admits exactly one slice (density-aware = no-op)"
    );
}

#[test]
fn eligible_window_count_is_zero_when_nothing_to_summarize() {
    // Mirrors select_slice returning None.
    assert_eq!(eligible_window_count(&convo(3), 2, usize::MAX), 0);
    assert!(select_slice(&convo(3), 2, usize::MAX).is_none());
}

// --- density-aware fallback (densify_start) ---

fn tool_frac(slice: &[Value]) -> f64 {
    let (mut total, mut tool) = (0usize, 0usize);
    for m in slice {
        if let Some(blocks) = m.get("content").and_then(Value::as_array) {
            for b in blocks {
                let len = b
                    .get("text")
                    .and_then(Value::as_str)
                    .map(str::len)
                    .or_else(|| b.get("content").and_then(Value::as_str).map(str::len))
                    .or_else(|| b.get("input").map(|v| v.to_string().len()))
                    .unwrap_or(0);
                total += len;
                if b.get("type").and_then(Value::as_str) == Some("tool_result") {
                    tool += len;
                }
            }
        }
    }
    if total == 0 {
        0.0
    } else {
        tool as f64 / total as f64
    }
}

/// 8 turns: turns 0-3 are tool-heavy (huge tool_result), turns 4-7 are
/// reasoning-dense (big assistant text, tiny tool_result). Assistant turns at
/// odd indices 1,3,5,7 (tool-heavy) and 9,11,13,15 (reasoning).
fn mixed_density_convo() -> Vec<Value> {
    let mut m = vec![obj(vec![
        ("role", js("user")),
        ("content", list(vec![obj(vec![("type", js("text")), ("text", js("start"))])])),
    ])];
    for i in 0..8 {
        let id = format!("t{i}");
        if i < 4 {
            m.push(obj(vec![
                ("role", js("assistant")),
                ("content", list(vec![
                    obj(vec![
                        ("type", js("tool_use")),
                        ("id", js(id.clone())),
                        ("name", js("Bash")),
                        ("input", obj(vec![("command", js("x"))])),
                    ]),
                ])),
            ]));
            m.push(obj(vec![
                ("role", js("user")),
                ("content", list(vec![
                    obj(vec![
                        ("type", js("tool_result")),
                        ("tool_use_id", js(id.clone())),
                        ("content", js("T".repeat(2000))),
                    ]),
                ])),
            ]));
        } else {
            m.push(obj(vec![
                ("role", js("assistant")),
                ("content", list(vec![
                    obj(vec![("type", js("text")), ("text", js("R".repeat(2000)))]),
                    obj(vec![
                        ("type", js("tool_use")),
                        ("id", js(id.clone())),
                        ("name", js("Bash")),
                        ("input", obj(vec![("command", js("x"))])),
                    ]),
                ])),
            ]));
            m.push(obj(vec![
                ("role", js("user")),
                ("content", list(vec![
                    obj(vec![
                        ("type", js("tool_result")),
                        ("tool_use_id", js(id.clone())),
                        ("content", js("ok")),
                    ]),
                ])),
            ]));
        }
    }
    m
}

#[test]
fn densify_start_rescues_a_tool_heavy_widest_slice() {
    let m = mixed_density_convo();
    let (start, end) = select_slice(&m, 2, usize::MAX).unwrap();
    // The widest slice is tool-dominated (would be SKIPPED by the 0.6 gate).
    assert!(
        tool_frac(&m[start..end]) > 0.6,
        "widest slice should be tool-heavy in this fixture"
    );
    // Density-aware fallback finds a denser sub-window that passes.
    let s = densify_start(&m, start, end, 3, 5)
        .expect("a reasoning-dense sub-window should be rescuable");
    assert!(
        s > start,
        "must advance the start forward, got {s} <= {start}"
    );
    assert!(
        tool_frac(&m[s..end]) <= 0.6,
        "the rescued sub-window must pass the density bound"
    );
    // It must remain a valid, orphan-free summarizable slice.
    let d = decision(&m, s, end, "## Goal\nrescued").unwrap();
    let mut out = m.clone();
    assert!(apply_summary(&mut out, &m, &d));
    index(&out)
        .validate()
        .expect("no orphans after rescue");
}

#[test]
fn densify_start_picks_the_widest_passing_window() {
    // The EARLIEST eligible start that passes (widest passing window), so the
    // start immediately before it must still FAIL the bound.
    let m = mixed_density_convo();
    let (start, end) = select_slice(&m, 2, usize::MAX).unwrap();
    let s = densify_start(&m, start, end, 3, 5).unwrap();
    let earlier: Vec<usize> = eligible_starts_to(&m, end)
        .into_iter()
        .filter(|&x| x > start && x < s)
        .collect();
    for e in earlier {
        assert!(
            tool_frac(&m[e..end]) > 0.6,
            "every start earlier than the chosen one must fail the bound (got {e})"
        );
    }
}

#[test]
fn densify_start_none_when_uniformly_tool_heavy() {
    // Every sub-window is tool-dominated → nothing to rescue.
    let m = convo(8); // all tiny, but make tool_results dominate
    let mut heavy = m.clone();
    for msg in heavy.iter_mut() {
        if let Some(c) = msg.get_mut("content").and_then(Value::as_array_mut) {
            for b in c {
                if b.get("type").and_then(Value::as_str) == Some("tool_result") {
                    b["content"] = js("T".repeat(3000));
                }
            }
        }
    }
    let (start, end) = select_slice(&heavy, 2, usize::MAX).unwrap();
    assert!(tool_frac(&heavy[start..end]) > 0.6);
    assert!(
        densify_start(&heavy, start, end, 3, 5).is_none(),
        "no eligible sub-window passes → None (caller skips, as before)"
    );
}

#[test]
fn serialize_slice_labels_and_caps() {
    let mut m = vec![obj(vec![
        ("role", js("assistant")),
        ("content", list(vec![
            obj(vec![("type", js("text")), ("text", js("thinking out loud"))]),
            obj(vec![
                ("type", js("tool_use")),
                ("id", js("t0")),
                ("name", js("Bash")),
                ("input", obj(vec![("command", js("ls"))])),
            ]),
        ])),
    ])];
    m.push(obj(vec![
        ("role", js("user")),
        ("content", list(vec![
            obj(vec![
                ("type", js("tool_result")),
                ("tool_use_id", js("t0")),
                ("content", js("X".repeat(500))),
            ]),
        ])),
    ]));
    let text = serialize_slice(&m, 8_000, 100);
    assert!(text.contains("### assistant"));
    assert!(text.contains("[tool_use Bash]"));
    assert!(text.contains("thinking out loud"));
    assert!(text.contains("[tool_result]"));
    assert!(text.contains("chars elided"), "long result must be capped");
    // The 500-char result is reduced well below its original size.
    assert!(
        text.len() < 600,
        "capped output stays small: {}",
        text.len()
    );
}

#[test]
fn serialize_slice_caps_tool_result_harder_than_reasoning() {
    // ~1.4K chars of reasoning + a 4K-char tool_result. With the production
    // asymmetry, reasoning survives in full but the tool_result is trimmed hard.
    let reasoning = "decided on approach B because the trait bound failed. ".repeat(26);
    let mut m = vec![obj(vec![
        ("role", js("assistant")),
        ("content", list(vec![obj(vec![("type", js("text")), ("text", js(reasoning.clone()))])])),
    ])];
    m.push(obj(vec![
        ("role", js("user")),
        ("content", list(vec![
            obj(vec![
                ("type", js("tool_result")),
                ("tool_use_id", js("t0")),
                ("content", js("X".repeat(4_000))),
            ]),
        ])),
    ]));
    let text = serialize_slice(&m, REASONING_BLOCK_CAP, TOOL_RESULT_BLOCK_CAP);
    assert!(
        text.contains(&reasoning),
        "reasoning under the reasoning cap must survive verbatim"
    );
    assert!(
        text.contains("chars elided"),
        "the 4K tool_result must be trimmed by the small tool_result cap"
    );
    // tool_result trimmed to ~TOOL_RESULT_BLOCK_CAP, far below its 4K original.
    let result_section = text.split("[tool_result]").nth(1).unwrap_or("");
    // Tight bound: < 2× the tool_result cap (≈ head+tail+elision), which a
    // reasoning_cap/tool_result_cap arg-swap (8000) would blow past.
    assert!(
        result_section.len() < TOOL_RESULT_BLOCK_CAP * 2,
        "tool_result section stays near its cap (arg-swap guard): {}",
        result_section.len()
    );
}

#[test]
fn cap_slice_start_narrows_oversized_reasoning_slice() {
    // 12 reasoning-dense pairs (~6.3K-char text each, under the 8K cap so they
    // survive) → the full slice far exceeds a 30K budget and must be narrowed.
    let mut m = vec![obj(vec![
        ("role", js("user")),
        ("content", list(vec![obj(vec![("type", js("text")), ("text", js("go"))])])),
    ])];
    for i in 0..12 {
        let prose =
            format!("analysed failure {i} and chose approach B for case {i}. ").repeat(110);
        m.push(obj(vec![
            ("role", js("assistant")),
            ("content", list(vec![obj(vec![("type", js("text")), ("text", js(prose.clone()))])])),
        ]));
        m.push(obj(vec![
            ("role", js("user")),
            ("content", list(vec![obj(vec![("type", js("text")), ("text", js(prose.clone()))])])),
        ]));
    }
    let (start, end) = (1, m.len());
    let budget = 30_000;
    let full =
        serialize_slice(&m[start..end], REASONING_BLOCK_CAP, TOOL_RESULT_BLOCK_CAP).len();
    assert!(
        full > budget,
        "precondition: full slice exceeds the budget ({full})"
    );
    let narrowed = cap_slice_start(
        &m,
        start,
        end,
        REASONING_BLOCK_CAP,
        TOOL_RESULT_BLOCK_CAP,
        budget,
    );
    assert!(
        narrowed > start,
        "must advance the start to shrink the slice"
    );
    assert!(
        (narrowed - start) % 2 == 0,
        "narrowed start stays on an assistant-turn boundary"
    );
    let capped = serialize_slice(
        &m[narrowed..end],
        REASONING_BLOCK_CAP,
        TOOL_RESULT_BLOCK_CAP,
    )
    .len();
    assert!(
        capped <= budget,
        "narrowed slice must fit the budget ({capped} <= {budget})"
    );
    assert!(end >= narrowed + 4, "keeps at least ~2 pairs");
}

#[test]
fn cap_slice_start_keeps_start_when_slice_fits() {
    let mut m = vec![obj(vec![
        ("role", js("user")),
        ("content", list(vec![obj(vec![("type", js("text")), ("text", js("go"))])])),
    ])];
    for i in 0..3 {
        let id = format!("t{i}");
        m.push(obj(vec![
            ("role", js("assistant")),
            ("content", list(vec![
                obj(vec![
                    ("type", js("tool_use")),
                    ("id", js(id.clone())),
                    ("name", js("Bash")),
                    ("input", obj(vec![("command", js("x"))])),
                ]),
            ])),
        ]));
        m.push(obj(vec![
            ("role", js("user")),
            ("content", list(vec![
                obj(vec![
                    ("type", js("tool_result")),
                    ("tool_use_id", js(id.clone())),
                    ("content", js("small")),
                ]),
            ])),
        ]));
    }
    let end = m.len();
    assert_eq!(
        cap_slice_start(
            &m,
            1,
            end,
            REASONING_BLOCK_CAP,
            TOOL_RESULT_BLOCK_CAP,
            40_000
        ),
        1,
        "a slice already under budget keeps its original start"
    );
}

#[test]
fn cap_slice_end_narrows_an_oversized_delta_to_a_fitting_whole_pair_chunk() {
    // 12 reasoning-dense pairs: the full delta [1..end] far exceeds a 30K budget,
    // so the accumulator must cap the END to a budget-sized contiguous chunk.
    let mut m = vec![obj(vec![
        ("role", js("user")),
        ("content", list(vec![obj(vec![("type", js("text")), ("text", js("go"))])])),
    ])];
    for i in 0..12 {
        let prose =
            format!("analysed failure {i} and chose approach B for case {i}. ").repeat(110);
        m.push(obj(vec![
            ("role", js("assistant")),
            ("content", list(vec![obj(vec![("type", js("text")), ("text", js(prose.clone()))])])),
        ]));
        m.push(obj(vec![
            ("role", js("user")),
            ("content", list(vec![obj(vec![("type", js("text")), ("text", js(prose.clone()))])])),
        ]));
    }
    let (start, max_end) = (1, m.len());
    let budget = 30_000;
    let full = serialize_slice(
        &m[start..max_end],
        REASONING_BLOCK_CAP,
        TOOL_RESULT_BLOCK_CAP,
    )
    .len();
    assert!(
        full > budget,
        "precondition: full delta exceeds the budget ({full})"
    );
    let capped_end = cap_slice_end(
        &m,
        start,
        max_end,
        REASONING_BLOCK_CAP,
        TOOL_RESULT_BLOCK_CAP,
        budget,
    );
    assert!(capped_end > start + 3, "must keep at least ~2 pairs");
    assert!(
        capped_end < max_end,
        "must narrow the end below the full delta"
    );
    assert!(
        (capped_end - start) % 2 == 0,
        "capped end stays on an assistant-turn boundary"
    );
    let chunk = serialize_slice(
        &m[start..capped_end],
        REASONING_BLOCK_CAP,
        TOOL_RESULT_BLOCK_CAP,
    )
    .len();
    assert!(
        chunk <= budget,
        "capped chunk must fit the budget ({chunk} <= {budget})"
    );
    // The next end up would overflow (it returned the LARGEST fitting end).
    if let Some(next) = (capped_end + 1..=max_end).find(|&e| {
        m.get(e).and_then(|x| x.get("role")).and_then(Value::as_str) == Some("assistant")
    }) {
        let bigger =
            serialize_slice(&m[start..next], REASONING_BLOCK_CAP, TOOL_RESULT_BLOCK_CAP).len();
        assert!(
            bigger > budget,
            "cap_slice_end returns the LARGEST fitting chunk"
        );
    }
}

#[test]
fn cap_slice_end_returns_max_end_when_the_whole_delta_fits() {
    let mut m = vec![obj(vec![
        ("role", js("user")),
        ("content", list(vec![obj(vec![("type", js("text")), ("text", js("go"))])])),
    ])];
    for i in 0..4 {
        let id = format!("t{i}");
        m.push(obj(vec![
            ("role", js("assistant")),
            ("content", list(vec![
                obj(vec![
                    ("type", js("tool_use")),
                    ("id", js(id.clone())),
                    ("name", js("Bash")),
                    ("input", obj(vec![("command", js("x"))])),
                ]),
            ])),
        ]));
        m.push(obj(vec![
            ("role", js("user")),
            ("content", list(vec![
                obj(vec![
                    ("type", js("tool_result")),
                    ("tool_use_id", js(id.clone())),
                    ("content", js("small")),
                ]),
            ])),
        ]));
    }
    // max_end must be an assistant-turn index; use the start of the last pair.
    let max_end = m.len() - 2;
    assert_eq!(
        cap_slice_end(
            &m,
            1,
            max_end,
            REASONING_BLOCK_CAP,
            TOOL_RESULT_BLOCK_CAP,
            40_000
        ),
        max_end,
        "a delta already under budget summarizes the whole thing"
    );
}

#[test]
fn cap_slice_end_returns_start_when_no_two_pair_end_fits() {
    // Documented edge: when the available range can't hold even ~2 pairs (no
    // assistant-aligned end ≥ start+4 exists ≤ max_end), there are no candidates →
    // return `start`, so the caller's `end >= start + 4` guard skips (too little to
    // summarize) rather than building a degenerate 1-pair segment.
    let m = convo(8); // assistant indices 1,3,5,...
    // start=1, max_end=3 → the candidate range start+4..=max_end (5..=3) is empty.
    assert_eq!(
        cap_slice_end(&m, 1, 3, REASONING_BLOCK_CAP, TOOL_RESULT_BLOCK_CAP, 40_000),
        1,
        "no ≥2-pair end in range → returns start (caller then skips)"
    );
}
