use serde_json::Value;
use trimwire::config::{Config, SummarizerConfig};
use trimwire::json::Json;
use trimwire::summarizer::local::strip_think_blocks;
use trimwire::summarizer::slice::SummaryDecision;
use trimwire::summarizer::{
    self, build_prompt, effective_char_budget, engages, is_disqualified, local_char_budget,
    num_ctx_for, num_predict_for, API_SLICE_CHAR_BUDGET, APPROVED_MODELS, DISQUALIFIED_MODELS,
    MAX_NUM_CTX_CEILING, MAX_NUM_PREDICT, SUMMARY_SYSTEM_PROMPT, WARN_MODELS,
};

fn obj(members: Vec<(&str, Value)>) -> Value {
    Value::Object(members.into_iter().map(|(k, x)| (k.to_owned(), x)).collect())
}

fn list(items: Vec<Value>) -> Value {
    Value::Array(items)
}

fn js<T: Into<Value>>(x: T) -> Value {
    x.into()
}

fn to_json(value: &Value) -> Json {
    Json::parse(value.to_string().as_bytes()).unwrap()
}

fn to_value(json: &Json) -> Value {
    serde_json::from_str(&json.to_text()).unwrap()
}

fn to_jsons(values: &[Value]) -> Vec<Json> {
    values.iter().map(to_json).collect()
}

fn to_values(items: &[Json]) -> Vec<Value> {
    items.iter().map(to_value).collect()
}

/// Everything is on but what has to be asked for.
fn profile_baseline() -> Config {
    let mut c = Config::default();
    c.strategies.failed_input_purge.enabled = true;
    c.strategies.stale_input_cap.enabled = true;
    c.strategies.cross_turn_dedup.enabled = true;
    c.strategies.stale_reads.enabled = true;
    c.strategies.bloat_cap.enabled = true;
    c.strategies.sliding_window.enabled = true;
    c.strategies.image_strip.enabled = true;
    c.strategies.thinking_strip.enabled = true;
    c
}

fn decision(original: &[Value], start: usize, end: usize, summary: &str) -> Option<SummaryDecision> {
    SummaryDecision::new(&to_jsons(original), start, end, summary)
}

fn summary_is_smaller(
    summary: &[Json],
    messages: &[Value],
    start: usize,
    end: usize,
    cfg: &Config,
) -> bool {
    summarizer::summary_is_smaller(summary, &to_jsons(messages), start, end, cfg)
}

fn tool_result_fraction(messages: &[Value]) -> f64 {
    let share = summarizer::tool_result_share(&to_jsons(messages));
    share.tool as f64 / share.total as f64
}

#[test]
fn strip_think_blocks_removes_all_and_preserves_unpaired() {
    // single block
    assert_eq!(
        strip_think_blocks("<think>x</think>summary".into()),
        "summary"
    );
    // MULTIPLE blocks (the bug: only the first used to be stripped)
    assert_eq!(
        strip_think_blocks("<think>a</think>keep1<think>b</think>keep2".into()),
        "keep1keep2"
    );
    // no blocks → untouched
    assert_eq!(strip_think_blocks("plain summary".into()), "plain summary");
    // unpaired/malformed (close before open) → left intact, no infinite loop
    assert_eq!(
        strip_think_blocks("</think>oops<think>".into()),
        "</think>oops<think>"
    );
}

/// Build a full conversation: `old` bulky tool pairs followed by `recent`
/// pairs, so the model-free strategies treat the leading slice as OLD (as in
/// production) rather than "recent within an isolated slice".
fn bash_convo(old: usize, recent: usize, big: &str) -> Vec<serde_json::Value> {
    let mut m = Vec::new();
    for i in 0..(old + recent) {
        let id = format!("a{i}");
        m.push(obj(vec![
            ("role", js("assistant")),
            ("content", list(vec![
                obj(vec![
                    ("type", js("tool_use")),
                    ("id", js(id.clone())),
                    ("name", js("Bash")),
                    ("input", obj(vec![("command", js(format!("cmd {i}")))])),
                ]),
            ])),
        ]));
        m.push(obj(vec![
            ("role", js("user")),
            ("content", list(vec![
                obj(vec![
                    ("type", js("tool_result")),
                    ("tool_use_id", js(id.clone())),
                    ("content", js(big.clone())),
                ]),
            ])),
        ]));
    }
    m
}

#[test]
fn summary_gate_rejects_when_model_free_is_smaller() {
    let cfg = profile_baseline();
    // 4 OLD bulky pairs + 3 recent: in FULL context the default strategies
    // (dedup + bloat_cap) crush the old pairs hard.
    let big = "X".repeat(20_000);
    let messages = bash_convo(4, 3, &big);
    let (start, end) = (0, 8); // the 4 old pairs
    let d =
        decision(&messages, start, end, &"summary ".repeat(2_000)).unwrap();
    assert!(
        !summary_is_smaller(&d.messages, &messages, start, end, &cfg),
        "a verbose summary must lose to aggressive model-free pruning in full context"
    );
}

#[test]
fn summary_gate_keeps_when_summary_is_smaller() {
    let cfg = profile_baseline();
    // Reasoning-dense TEXT turns model-free barely touches, made old by recent
    // turns after them; a tiny summary beats the un-prunable prose.
    let prose = "We analysed the failure and decided on approach B. ".repeat(60);
    let mut messages = vec![
        obj(vec![
            ("role", js("assistant")),
            ("content", list(vec![obj(vec![("type", js("text")), ("text", js(prose.clone()))])])),
        ]),
        obj(vec![
            ("role", js("user")),
            ("content", list(vec![obj(vec![("type", js("text")), ("text", js(prose.clone()))])])),
        ]),
        obj(vec![
            ("role", js("assistant")),
            ("content", list(vec![obj(vec![("type", js("text")), ("text", js(prose.clone()))])])),
        ]),
        obj(vec![
            ("role", js("user")),
            ("content", list(vec![obj(vec![("type", js("text")), ("text", js(prose.clone()))])])),
        ]),
    ];
    messages.extend(bash_convo(0, 3, "ok"));
    let (start, end) = (0, 4);
    let d = decision(&messages, start, end, "approach B chosen").unwrap();
    assert!(
        summary_is_smaller(&d.messages, &messages, start, end, &cfg),
        "a tiny summary must beat un-prunable reasoning text"
    );
}

#[test]
fn effective_char_budget_small_for_local_large_for_api_only() {
    // Explicit override always wins.
    let s = SummarizerConfig {
        slice_char_budget: Some(12_345),
        ..Default::default()
    };
    assert_eq!(effective_char_budget(&s), 12_345);
    // Local primary → small num_ctx-safe budget.
    let s = SummarizerConfig {
        engine: "local".to_owned(),
        ..Default::default()
    };
    assert_eq!(
        effective_char_budget(&s),
        local_char_budget(s.local.max_num_ctx)
    );
    // API primary but local in FALLBACK → still small (slice must fit local).
    let s = SummarizerConfig {
        engine: "myapi".to_owned(),
        fallback: vec!["local".to_owned()],
        ..Default::default()
    };
    assert_eq!(
        effective_char_budget(&s),
        local_char_budget(s.local.max_num_ctx)
    );
    // API-ONLY chain (no local anywhere) → large budget.
    let s = SummarizerConfig {
        engine: "myapi".to_owned(),
        fallback: vec!["model-free".to_owned()],
        ..Default::default()
    };
    assert_eq!(effective_char_budget(&s), API_SLICE_CHAR_BUDGET);
}

#[test]
fn num_predict_is_proportional_then_flat_capped() {
    // Small/mid window → proportional (num_ctx/4), above the 200 floor, below the cap.
    assert_eq!(num_predict_for(12_288), 3_072);
    assert_eq!(num_predict_for(8_192), 2_048);
    // Tiny window → floored at 200, never below.
    assert_eq!(num_predict_for(400), 200);
    // Large window → FLAT-capped, NOT num_ctx/4 (the runaway this guards).
    assert_eq!(num_predict_for(40_000), MAX_NUM_PREDICT);
    assert_eq!(num_predict_for(131_072), MAX_NUM_PREDICT);
    assert!(
        num_predict_for(131_072) < 131_072 / 4,
        "cap must bite the big case"
    );
}

#[test]
fn accept_ratio_keeps_slightly_larger_summary_when_relaxed() {
    // Two reasoning-text turns no strategy touches → model-free leaves them as-is,
    // so the model-free slice ≈ the original (~4 KB).
    let big = "A".repeat(2000);
    let mut messages = vec![
        obj(vec![
            ("role", js("assistant")),
            ("content", list(vec![obj(vec![("type", js("text")), ("text", js(big.clone()))])])),
        ]),
        obj(vec![
            ("role", js("user")),
            ("content", list(vec![obj(vec![("type", js("text")), ("text", js(big.clone()))])])),
        ]),
    ];
    messages.extend(bash_convo(0, 3, "ok"));
    let (start, end) = (0, 2);
    // A summary slightly LARGER than the model-free slice.
    let summary = "B".repeat(4700);
    let d = decision(&messages, start, end, &summary).unwrap();

    // Strict gate (default 1.0): reject (summary not smaller than model-free).
    let mut strict = profile_baseline();
    strict.summarizer.accept_ratio = 1000;
    assert!(
        !summary_is_smaller(&d.messages, &messages, start, end, &strict),
        "strict gate must reject a summary larger than model-free"
    );
    // Relaxed gate (1.5): keep the higher-fidelity summary (within ratio + abs cap).
    let mut relaxed = profile_baseline();
    relaxed.summarizer.accept_ratio = 1500;
    assert!(
        summary_is_smaller(&d.messages, &messages, start, end, &relaxed),
        "relaxed accept_ratio must keep a slightly-larger higher-fidelity summary"
    );
}

#[test]
fn prompt_embeds_excerpt_in_delimiters() {
    let p = build_prompt("role=user: hello");
    assert!(p.contains("<excerpt>\nrole=user: hello\n</excerpt>"));
    assert!(p.contains("Compact the excerpt above"));
}

#[test]
fn system_prompt_is_facts_first() {
    assert!(SUMMARY_SYSTEM_PROMPT.contains("GOAL:"));
    assert!(SUMMARY_SYSTEM_PROMPT.contains("NEXT:"));
    assert!(SUMMARY_SYSTEM_PROMPT.contains("VERBATIM"));
    // The old rambling-inducing wording must be gone.
    assert!(!SUMMARY_SYSTEM_PROMPT.contains("a long summary is fine"));
    // Anti-overstatement rule (harm-gate finding: the summarizer can claim
    // findings "fixed" when only some were done at the cut). FACTS/DECIDED must
    // not mark still-open work complete; partial progress is "N of M complete".
    assert!(
        SUMMARY_SYSTEM_PROMPT.contains("Do NOT mark work finished"),
        "prompt must forbid claiming unfinished work as done"
    );
    assert!(
        SUMMARY_SYSTEM_PROMPT.contains("N of M complete"),
        "prompt must prescribe the N-of-M partial-progress form"
    );
    // Rule 6 (active anti-false-done): enumerate announced-but-unconfirmed tasks
    // before NEXT. Validated to fix the truncated-session false-done that the
    // passive rule 5 missed (qwen3.5:4b on the b_s2 slice).
    assert!(
        SUMMARY_SYSTEM_PROMPT.contains("ANNOUNCED or STARTED"),
        "prompt must actively enumerate announced-but-unconfirmed tasks (rule 6)"
    );
    assert!(
        SUMMARY_SYSTEM_PROMPT.contains("only located"),
        "rule 6 must treat a located-but-unedited task as OPEN"
    );
    assert!(
        SUMMARY_SYSTEM_PROMPT.contains("actually targeted"),
        "FILES must list only edited/written files, not merely referenced ones"
    );
    assert!(
        SUMMARY_SYSTEM_PROMPT.contains("omit it rather than guess"),
        "FILES garble guard: omit a path you can't copy verbatim, never guess it"
    );
}

#[test]
fn tier_search_disqualifications_are_pinned() {
    for bad in [
        "granite4.1:3b",
        "granite4.1:8b",
        "qwen2.5-coder:3b",
        "ministral-3:3b",
        "gemma3:4b",
        "qwen3.5:0.8b",
    ] {
        assert!(
            DISQUALIFIED_MODELS.contains(&bad),
            "{bad} must be in DISQUALIFIED_MODELS"
        );
        assert!(
            !APPROVED_MODELS.contains(&bad),
            "{bad} must never be APPROVED"
        );
    }
    // Approved: 4b default, q8_0 higher-fidelity MEDIUM upgrade, 9b PRO, 2b warned
    // opt-down. gemma3:4b disqualified (fabrication/false-done). qwen3:8b NOT approved
    // (misdirected-NEXT) but not refused — unlisted (warn-on-use).
    assert_eq!(
        &APPROVED_MODELS[..],
        &["qwen3.5:4b", "qwen3.5:4b-q8_0", "qwen3.5:9b", "qwen3.5:2b"]
    );
    assert!(
        !APPROVED_MODELS.contains(&"qwen3:8b"),
        "qwen3:8b is not approved"
    );
    assert!(
        !DISQUALIFIED_MODELS.contains(&"qwen3:8b"),
        "but qwen3:8b is not refused"
    );
}

#[test]
fn is_disqualified_matches_family_and_exact() {
    // exact tags the gut-read enumerated stay refused
    assert!(is_disqualified("granite4.1:8b"));
    assert!(is_disqualified("qwen2.5-coder:3b"));
    assert!(is_disqualified("qwen3.5:0.8b")); // size-specific exact entry
    // FAMILY: any granite4.1 variant the list never enumerated (the fixed nit)
    assert!(is_disqualified("granite4.1:latest"));
    assert!(is_disqualified("granite4.1:2b"));
    // qwen3.5 is NOT a family — the approved 4b (and warned 2b) must stay allowed
    assert!(!is_disqualified("qwen3.5:4b"));
    assert!(!is_disqualified("qwen3.5:2b"));
    assert!(!is_disqualified("llama3.1:8b"));
}

#[test]
fn warn_models_is_approved_subset_disjoint_from_disqualified() {
    // The warned-but-weaker set must be allowed (a subset of APPROVED) and never
    // overlap the refused set — otherwise the guard ordering would be incoherent.
    for m in &WARN_MODELS {
        assert!(
            APPROVED_MODELS.contains(m),
            "{m} must be APPROVED to be merely warned"
        );
        assert!(
            !DISQUALIFIED_MODELS.contains(m),
            "{m} cannot be both warned and disqualified"
        );
    }
    assert!(
        WARN_MODELS.contains(&"qwen3.5:2b"),
        "the harm-failing opt-down must be warned"
    );
}

#[test]
fn engages_requires_both_non_model_free_engine_and_reprune() {
    let mut c = profile_baseline();
    c.summarizer.engine = "model-free".to_owned();
    c.reprune.enabled = true;
    assert!(!engages(&c), "model-free engine never engages");
    c.summarizer.engine = "local".to_owned();
    c.reprune.enabled = false;
    assert!(
        !engages(&c),
        "local engine without reprune is a SILENT NO-OP — must not engage"
    );
    c.reprune.enabled = true;
    assert!(engages(&c), "local engine + reprune → engages");
    // A provider id (not "model-free"): engages() is true (the summarizer IS
    // configured) — the fallback is handled at maybe_spawn, not at this gate.
    c.summarizer.engine = "my-api-provider".to_owned();
    assert!(
        engages(&c),
        "provider id (not model-free) + reprune → engages"
    );
}

#[test]
fn tool_result_fraction_distinguishes_tool_vs_reasoning() {
    let tool_heavy = vec![
        obj(vec![
            ("role", js("assistant")),
            ("content", list(vec![obj(vec![("type", js("text")), ("text", js("short reason"))])])),
        ]),
        obj(vec![
            ("role", js("user")),
            ("content", list(vec![
                obj(vec![
                    ("type", js("tool_result")),
                    ("tool_use_id", js("t")),
                    ("content", js("X".repeat(2000))),
                ]),
            ])),
        ]),
    ];
    assert!(
        tool_result_fraction(&tool_heavy) > 0.9,
        "bulky tool_result dominates"
    );
    let reasoning_heavy = vec![
        obj(vec![
            ("role", js("assistant")),
            ("content", list(vec![obj(vec![("type", js("text")), ("text", js("Y".repeat(2000)))])])),
        ]),
        obj(vec![
            ("role", js("user")),
            ("content", list(vec![
                obj(vec![
                    ("type", js("tool_result")),
                    ("tool_use_id", js("t")),
                    ("content", js("ok")),
                ]),
            ])),
        ]),
    ];
    assert!(
        tool_result_fraction(&reasoning_heavy) < 0.05,
        "reasoning dominates"
    );
}

#[test]
fn num_ctx_for_floors_and_clamps() {
    let cap = 25_600; // the default local.max_num_ctx
    assert_eq!(num_ctx_for(100, cap), 4096, "tiny prompt floors at 4096");
    assert_eq!(num_ctx_for(20_000, cap), 8000, "len/2.5 in the mid-range");
    assert_eq!(
        num_ctx_for(1_000_000, cap),
        cap,
        "huge prompt clamps to the configured cap"
    );
    assert_eq!(
        num_ctx_for(10_000_000, 1_000_000),
        MAX_NUM_CTX_CEILING,
        "a stray huge cap is itself clamped to the hard ceiling"
    );
}
