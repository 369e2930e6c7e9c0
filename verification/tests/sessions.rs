use serde_json::Value;
use trimwire::config::{Config, SummarizerConfig, SummarizerLocalConfig, SummarizerProviderConfig};
use trimwire::json::Json;
use trimwire::pairing::PairingIndex;
use trimwire::summarizer::api::{api_reply, api_request};
use trimwire::summarizer::cascade::{
    cascade_chain, cascade_reply, cascade_step, CascadeEnd, CascadeStep,
};
use trimwire::summarizer::gate::{
    decide_for_request, judge_summary, preview_slice, preview_summary, summary_prompt,
    SessionSummaries, SummaryJob, SummaryOutcome, SummarySlot,
};
use trimwire::summarizer::slice::{apply_summaries, SummaryDecision};
use trimwire::summarizer::local::{local_reply, local_request, local_url};
use trimwire::summarizer::{check_status, model_standing, CompactorError, ModelStanding};

fn obj(members: Vec<(&str, Value)>) -> Value {
    Value::Object(members.into_iter().map(|(k, x)| (k.to_owned(), x)).collect())
}

fn list(items: Vec<Value>) -> Value {
    Value::Array(items)
}

fn js<T: Into<Value>>(x: T) -> Value {
    x.into()
}

fn to_json(value: &Value) -> Json {
    Json::parse(value.to_string().as_bytes()).unwrap()
}

fn to_value(json: &Json) -> Value {
    serde_json::from_str(&json.to_text()).unwrap()
}

fn to_jsons(values: &[Value]) -> Vec<Json> {
    values.iter().map(to_json).collect()
}

fn to_values(items: &[Json]) -> Vec<Value> {
    items.iter().map(to_value).collect()
}

/// Everything is on but what has to be asked for.
fn profile_baseline() -> Config {
    let mut c = Config::default();
    c.strategies.failed_input_purge.enabled = true;
    c.strategies.stale_input_cap.enabled = true;
    c.strategies.cross_turn_dedup.enabled = true;
    c.strategies.stale_reads.enabled = true;
    c.strategies.bloat_cap.enabled = true;
    c.strategies.sliding_window.enabled = true;
    c.strategies.image_strip.enabled = true;
    c.strategies.thinking_strip.enabled = true;
    c
}

fn text_turn(role: &str, text: &str) -> Value {
    obj(vec![
        ("role", js(role)),
        ("content", list(vec![obj(vec![("type", js("text")), ("text", js(text))])])),
    ])
}

fn prose_convo(pairs: usize) -> Vec<Value> {
    let mut m = vec![text_turn("user", "start the task")];
    for i in 0..pairs {
        let prose =
            format!("We analysed failure {i} and chose approach B for case {i}. ").repeat(40);
        m.push(text_turn("assistant", &prose));
        m.push(text_turn("user", &prose));
    }
    m
}

fn tool_pair(i: usize, big: &str) -> Vec<Value> {
    let id = format!("t{i}");
    vec![
        obj(vec![
            ("role", js("assistant")),
            ("content", list(vec![obj(vec![
                ("type", js("tool_use")),
                ("id", js(id.clone())),
                ("name", js("Bash")),
                ("input", obj(vec![("command", js(format!("run {i}")))])),
            ])])),
        ]),
        obj(vec![
            ("role", js("user")),
            ("content", list(vec![obj(vec![
                ("type", js("tool_result")),
                ("tool_use_id", js(id)),
                ("content", js(big)),
            ])])),
        ]),
    ]
}

fn tool_convo(pairs: usize, big: &str) -> Vec<Value> {
    let mut m = vec![text_turn("user", "go")];
    for i in 0..pairs {
        m.extend(tool_pair(i, big));
    }
    m
}

fn tool_then_prose_convo(tool_pairs: usize, prose_pairs: usize) -> Vec<Value> {
    let mut m = tool_convo(tool_pairs, &"X".repeat(3000));
    for i in 0..prose_pairs {
        let prose = format!("Reasoning {i}: chose approach B for constraint {i}. ").repeat(40);
        m.push(text_turn("assistant", &prose));
        m.push(text_turn("user", "ok"));
    }
    m
}

fn spawn_cfg(model: &str) -> Config {
    let mut cfg = profile_baseline();
    cfg.reprune.enabled = true;
    cfg.summarizer = SummarizerConfig {
        engine: "local".to_owned(),
        trigger_bytes: 10,
        keep_recent_turns: 2,
        timeout_secs: 5,
        local: SummarizerLocalConfig {
            model: model.to_owned(),
            ..Default::default()
        },
        ..Default::default()
    };
    cfg
}

fn body(messages: &[Value]) -> Vec<u8> {
    obj(vec![("messages", js(messages.to_vec()))]).to_string().into_bytes()
}

/// A session whose checkpoint covers the whole transcript.
fn warmed(messages: &[Value]) -> SessionSummaries {
    let mut session = SessionSummaries::new();
    session.initialized = true;
    session.checkpoint_len = messages.len();
    session
}

/// One round: decide, ask, judge and record. The answer stands for what the summarizers gave.
fn round(
    cfg: &Config,
    messages: &[Value],
    session: &mut SessionSummaries,
    epoch: u64,
    answer: Option<&str>,
) -> Option<(char, bool)> {
    session.checkpoint_len = messages.len();
    let (all, job) = decide_for_request(&body(messages), cfg, session)?;
    session.slot.begin(epoch);
    assert!(
        decide_for_request(&body(messages), cfg, session).is_none(),
        "one attempt at a time"
    );
    let outcome = judge_summary(&all, job, answer, cfg);
    let said = session.conclude(epoch, job.append, outcome, &cfg.summarizer);
    session.slot.end_if(epoch);
    assert!(!session.slot.in_flight());
    said
}

fn ends(session: &SessionSummaries) -> Vec<usize> {
    session.chain.iter().map(|d| d.end).collect()
}

#[test]
fn maybe_spawn_skips_disqualified_model_without_calling_it() {
    let cfg = spawn_cfg("qwen2.5-coder:3b");
    let m = prose_convo(6);
    assert!(decide_for_request(&body(&m), &cfg, &warmed(&m)).is_none());
    // With a provider that can be asked there is something to do.
    let mut cfg = spawn_cfg("qwen2.5-coder:3b");
    cfg.summarizer.fallback = vec!["p".to_owned()];
    cfg.summarizer.providers = vec![provider("p")];
    assert!(decide_for_request(&body(&m), &cfg, &warmed(&m)).is_some());
}

#[test]
fn maybe_spawn_skips_under_trigger_bytes() {
    let mut cfg = spawn_cfg("qwen3.5:4b");
    cfg.summarizer.trigger_bytes = usize::MAX;
    let m = prose_convo(6);
    assert!(decide_for_request(&body(&m), &cfg, &warmed(&m)).is_none());
}

#[test]
fn a_request_is_left_alone_unless_all_is_in_order() {
    let m = prose_convo(6);
    let cfg = spawn_cfg("qwen3.5:4b");
    assert!(decide_for_request(b"not json, but long enough", &cfg, &warmed(&m)).is_none());
    assert!(decide_for_request(br#"{"messages":"long enough"}"#, &cfg, &warmed(&m)).is_none());
    let mut fresh = warmed(&m);
    fresh.initialized = false;
    assert!(decide_for_request(&body(&m), &cfg, &fresh).is_none());
    let mut off = spawn_cfg("qwen3.5:4b");
    off.reprune.enabled = false;
    assert!(decide_for_request(&body(&m), &off, &warmed(&m)).is_none());
    off = spawn_cfg("qwen3.5:4b");
    off.summarizer.engine = "model-free".to_owned();
    assert!(decide_for_request(&body(&m), &off, &warmed(&m)).is_none());
}

#[test]
fn maybe_spawn_installs_summary_on_happy_path() {
    let cfg = spawn_cfg("qwen3.5:4b");
    let m = prose_convo(6);
    let mut session = warmed(&m);
    let said = round(&cfg, &m, &mut session, 1, Some("GOAL: approach B chosen for the ledger."));
    assert_eq!(said, Some(('a', false)));
    assert_eq!(ends(&session), vec![9], "a tiny summary installs over the old prose");
    assert_eq!(session.chain[0].start, 1);
}

#[test]
fn maybe_spawn_proceeds_for_unverified_nonapproved_model() {
    assert_eq!(model_standing("llama3.2:3b"), ModelStanding::Unverified);
    let cfg = spawn_cfg("llama3.2:3b");
    let m = prose_convo(6);
    assert!(decide_for_request(&body(&m), &cfg, &warmed(&m)).is_some());
}

#[test]
fn maybe_spawn_warns_but_proceeds_for_harm_failing_opt_down() {
    assert_eq!(model_standing("qwen3.5:2b"), ModelStanding::Weak);
    assert_eq!(model_standing("qwen3.5:4b"), ModelStanding::Approved);
    assert_eq!(model_standing("granite4.1:latest"), ModelStanding::Disqualified);
    let cfg = spawn_cfg("qwen3.5:2b");
    let m = prose_convo(6);
    assert!(decide_for_request(&body(&m), &cfg, &warmed(&m)).is_some());
}

fn two_rounds(accumulator: bool) -> (SessionSummaries, Vec<Value>) {
    let mut cfg = spawn_cfg("qwen3.5:4b");
    cfg.summarizer.resummarize_after_bytes = 200;
    cfg.summarizer.accumulator = accumulator;
    let first = prose_convo(8);
    let mut session = warmed(&first);
    let said = round(&cfg, &first, &mut session, 1, Some("GOAL: GOAL_SEG0_FACT ledger"));
    assert_eq!(said, Some(('a', false)));
    assert_eq!(session.chain.len(), 1, "round 1 installs exactly one segment");
    let grown = prose_convo(16);
    let said = round(&cfg, &grown, &mut session, 2, Some("GOAL: GOAL_SEG1_FACT writer"));
    assert_eq!(said, Some(('a', false)));
    let mut out = to_jsons(&grown);
    assert!(apply_summaries(&mut out, &to_jsons(&grown), &session.chain));
    (session, to_values(&out))
}

#[test]
fn accumulator_appends_and_preserves_the_oldest_segments_fact() {
    let (session, replayed) = two_rounds(true);
    assert_eq!(session.chain.len(), 2, "accumulator mode APPENDS the delta");
    assert_eq!(session.chain[0].end, session.chain[1].start);
    PairingIndex::build(&to_jsons(&replayed)).validate().unwrap();
    let roles: Vec<&str> = replayed.iter().map(|m| m["role"].as_str().unwrap()).collect();
    for w in roles.windows(2) {
        assert_ne!(w[0], w[1], "roles must alternate after multi-segment splice");
    }
    let s = serde_json::to_string(&replayed).unwrap();
    assert!(s.contains("GOAL_SEG0_FACT"), "oldest segment's fact must persist");
    assert!(s.contains("GOAL_SEG1_FACT"), "the appended delta's fact must be present");
    assert_eq!(
        s.matches("local-model compaction of original turns").count(),
        2,
        "both frozen segments appear in the replay"
    );
}

#[test]
fn default_replace_drops_the_oldest_fact_demonstrating_the_drift() {
    let (session, replayed) = two_rounds(false);
    assert_eq!(session.chain.len(), 1, "replace mode keeps a single segment");
    let s = serde_json::to_string(&replayed).unwrap();
    assert!(s.contains("GOAL_SEG1_FACT"), "latest summary present");
    assert!(!s.contains("GOAL_SEG0_FACT"), "replace mode drops the oldest fact");
}

#[test]
fn a_full_chain_gives_way_to_a_single_summary() {
    let mut cfg = spawn_cfg("qwen3.5:4b");
    cfg.summarizer.resummarize_after_bytes = 200;
    cfg.summarizer.accumulator = true;
    cfg.summarizer.max_summary_segments = 1;
    let first = prose_convo(8);
    let mut session = warmed(&first);
    round(&cfg, &first, &mut session, 1, Some("GOAL: one"));
    let grown = prose_convo(16);
    let said = round(&cfg, &grown, &mut session, 2, Some("GOAL: two"));
    assert_eq!(said, Some(('a', true)));
    assert_eq!(session.chain.len(), 1);
}

#[test]
fn density_aware_rescues_tool_heavy_widest_with_a_dense_tail() {
    let cfg = spawn_cfg("qwen3.5:4b");
    let rescue = tool_then_prose_convo(4, 4);
    let mut session = warmed(&rescue);
    let said = round(&cfg, &rescue, &mut session, 1, Some("GOAL: rescued reasoning summary"));
    assert_eq!(said, Some(('a', false)), "the dense tail is summarized");
    assert_eq!(session.chain.len(), 1);
    assert!(session.chain[0].start > 1, "the beginning moved forward");
    // Nothing but tool output: still skipped.
    let control = tool_convo(8, &"X".repeat(3000));
    assert!(decide_for_request(&body(&control), &cfg, &warmed(&control)).is_none());
}

#[test]
fn maybe_spawn_skips_when_delta_below_byte_threshold() {
    let mut cfg = spawn_cfg("qwen3.5:4b");
    cfg.summarizer.resummarize_after_bytes = usize::MAX;
    let m = prose_convo(6);
    let mut session = warmed(&m);
    let prior = SummaryDecision::new(&to_jsons(&m), 1, 5, "prior summary").unwrap();
    assert!(!session.install(prior, true), "there is nothing to go behind");
    assert_eq!(ends(&session), vec![5]);
    assert!(decide_for_request(&body(&m), &cfg, &session).is_none());
    // A summary whose messages were rewritten does not hold the next one back.
    let mut rewritten = prose_convo(6);
    rewritten[2] = text_turn("user", "rewritten");
    assert!(decide_for_request(&body(&rewritten), &cfg, &session).is_some());
}

#[test]
fn maybe_spawn_skips_tool_heavy_slice_without_calling_model() {
    let cfg = spawn_cfg("qwen3.5:4b");
    let m = tool_convo(6, &"X".repeat(3000));
    assert!(decide_for_request(&body(&m), &cfg, &warmed(&m)).is_none());
}

#[test]
fn maybe_spawn_rejects_summary_larger_than_model_free() {
    let cfg = spawn_cfg("qwen3.5:4b");
    let m = prose_convo(6);
    let mut session = warmed(&m);
    let said = round(&cfg, &m, &mut session, 1, Some(&"x ".repeat(50_000)));
    assert_eq!(said, Some(('r', false)));
    assert!(session.chain.is_empty(), "an oversized summary is rejected");
    // And where no summarizer gave one, that is said too.
    let said = round(&cfg, &m, &mut session, 2, None);
    assert_eq!(said, Some(('e', false)));
    assert!(session.chain.is_empty());
}

#[test]
fn inflight_guard_clears_flag_on_drop() {
    let mut slot = SummarySlot::new();
    slot.begin(7);
    assert!(slot.in_flight());
    slot.end_if(7);
    assert!(!slot.in_flight(), "the attempt ends");
}

#[test]
fn inflight_guard_does_not_disturb_a_recycled_entry() {
    let stale_epoch = 7;
    let mut fresh = SessionSummaries::new();
    fresh.slot.begin(8);
    assert!(!fresh.slot.is_active(stale_epoch), "stale epoch is not active");
    fresh.slot.end_if(stale_epoch);
    assert!(fresh.slot.in_flight(), "a stale attempt must not end a newer one");
    // Nor is what it found taken in.
    let m = prose_convo(6);
    let d = SummaryDecision::new(&to_jsons(&m), 1, 5, "stale").unwrap();
    let cfg = SummarizerConfig::default();
    let said = fresh.conclude(stale_epoch, false, SummaryOutcome::Accepted(d), &cfg);
    assert_eq!(said, None);
    assert!(fresh.chain.is_empty());
}

fn provider(id: &str) -> SummarizerProviderConfig {
    SummarizerProviderConfig {
        id: id.to_owned(),
        style: "anthropic".to_owned(),
        base_url: "http://host".to_owned(),
        full_url: None,
        model: "m".to_owned(),
        api_key_env: "K".to_owned(),
        timeout_secs: 5,
    }
}

fn cascade_cfg(engine: &str, fallback: &[&str], providers: &[&str]) -> SummarizerConfig {
    SummarizerConfig {
        engine: engine.to_owned(),
        fallback: fallback.iter().map(|s| (*s).to_owned()).collect(),
        providers: providers.iter().map(|p| provider(p)).collect(),
        ..Default::default()
    }
}

/// Who is asked, in order, if the first `failures` of them fail.
fn asked(cfg: &SummarizerConfig, failures: usize) -> Vec<String> {
    let chain = cascade_chain(cfg);
    let mut at = 0;
    let mut names = Vec::new();
    loop {
        let (name, next) = match cascade_step(cfg, &chain, at) {
            CascadeStep::Stop => return names,
            CascadeStep::Local { next } => ("local".to_owned(), next),
            CascadeStep::Provider { index, next } => (cfg.providers[index].id.clone(), next),
        };
        names.push(name);
        if names.len() > failures {
            return names;
        }
        at = next;
    }
}

#[test]
fn cascade_api_success_returns_some_and_does_not_call_local() {
    let cfg = cascade_cfg("test-api", &["local"], &["test-api"]);
    assert_eq!(asked(&cfg, 0), vec!["test-api"]);
}

#[test]
fn cascade_skips_disqualified_local_and_tries_next_engine() {
    let mut cfg = cascade_cfg("local", &["test-api"], &["test-api"]);
    cfg.local.model = "granite4.1:8b".to_owned();
    assert_eq!(asked(&cfg, 9), vec!["test-api"]);
}

#[test]
fn cascade_api_error_falls_to_local() {
    let cfg = cascade_cfg("test-api", &["local"], &["test-api"]);
    assert_eq!(asked(&cfg, 1), vec!["test-api", "local"]);
}

#[test]
fn cascade_model_free_terminal_returns_none() {
    let cfg = cascade_cfg("model-free", &[], &[]);
    assert!(asked(&cfg, 9).is_empty());
    assert_eq!(cascade_chain(&cfg), vec!["model-free"]);
}

#[test]
fn cascade_model_free_in_fallback_truncates_chain_and_returns_none() {
    let cfg = cascade_cfg("test-api", &["model-free", "local"], &["test-api"]);
    assert_eq!(asked(&cfg, 9), vec!["test-api"]);
    assert_eq!(cascade_chain(&cfg), vec!["test-api", "model-free"]);
}

#[test]
fn cascade_deduplicates_repeated_engines() {
    let cfg = cascade_cfg("local", &["local"], &[]);
    assert_eq!(asked(&cfg, 9), vec!["local"]);
}

#[test]
fn cascade_passes_over_an_unknown_provider() {
    let cfg = cascade_cfg("nobody", &["b", "local"], &["a", "b"]);
    assert_eq!(asked(&cfg, 9), vec!["b", "local"]);
}

#[test]
fn multi_provider_both_fail_falls_to_local() {
    let cfg = cascade_cfg("anthropic", &["openai", "local"], &["anthropic", "openai"]);
    assert_eq!(asked(&cfg, 2), vec!["anthropic", "openai", "local"]);
}

#[test]
fn multi_provider_cascade_order_preserved() {
    let cfg = cascade_cfg("anthropic", &["openai", "third"], &["third", "openai", "anthropic"]);
    assert_eq!(asked(&cfg, 9), vec!["anthropic", "openai", "third"]);
}

const ANTHROPIC_OK: &str =
    "{\"content\": [{\"type\": \"text\", \"text\": \"GOAL: approach B chosen for the ledger.\"}]}";
const LOCAL_OK: &str = "{\"message\": {\"content\": \"GOAL: approach B chosen for the ledger.\"}}";

fn openai_ok(text: &str) -> String {
    let said = obj(vec![("role", js("assistant")), ("content", js(text))]);
    obj(vec![("choices", list(vec![obj(vec![("message", said)])]))]).to_string()
}

fn keyed(id: &str, style: &str, base_url: &str, model: &str, key: &str) -> SummarizerProviderConfig {
    SummarizerProviderConfig {
        id: id.to_owned(),
        style: style.to_owned(),
        base_url: base_url.to_owned(),
        full_url: None,
        model: model.to_owned(),
        api_key_env: key.to_owned(),
        timeout_secs: 5,
    }
}

fn multi_provider_cfg(
    providers: Vec<SummarizerProviderConfig>,
    local_base: &str,
    engine: &str,
    fallback: &[&str],
) -> SummarizerConfig {
    SummarizerConfig {
        engine: engine.to_owned(),
        fallback: fallback.iter().map(|s| (*s).to_owned()).collect(),
        trigger_bytes: 10,
        keep_recent_turns: 2,
        timeout_secs: 5,
        local: SummarizerLocalConfig {
            endpoint: local_base.to_owned(),
            model: "qwen3.5:4b".to_owned(),
            ..Default::default()
        },
        providers,
        ..Default::default()
    }
}

/// Runs a cascade over servers that answer a URL with a status and a body; an address that is not
/// among them does not answer. Gives the summary, and the URLs that were called.
fn run_cascade(
    cfg: &SummarizerConfig,
    keys: &[(&str, &str)],
    servers: &[(&str, u16, String)],
) -> (Option<String>, Vec<String>) {
    let mut called = Vec::new();
    let mut call = |url: String| -> Result<Vec<u8>, CompactorError> {
        let server = servers.iter().find(|s| s.0 == url);
        called.push(url);
        match server {
            Some((_, status, body)) => {
                check_status(*status)?;
                Ok(body.clone().into_bytes())
            }
            None => Err(CompactorError::Unreachable("connection refused".to_owned())),
        }
    };
    let chain = cascade_chain(cfg);
    let mut at = 0;
    let summary = loop {
        let step = cascade_step(cfg, &chain, at);
        let reply = match step {
            CascadeStep::Stop => break None,
            CascadeStep::Local { .. } => local_request(&cfg.local, "prompt")
                .and_then(|_| call(local_url(&cfg.local)))
                .and_then(|body| local_reply(&body)),
            CascadeStep::Provider { index, .. } => {
                let api = &cfg.providers[index];
                let key = keys.iter().find(|k| k.0 == api.api_key_env).map(|k| k.1);
                api_request(api, key, "prompt").and_then(|request| {
                    let body = call(request.url)?;
                    api_reply(request.style, &body)
                })
            }
        };
        match cascade_reply(step, reply) {
            CascadeEnd::Summary(text, _) => break Some(text),
            CascadeEnd::GoOn(next) => at = next,
            CascadeEnd::Without => break None,
        }
    };
    (summary, called)
}

fn two_providers(key_a: &str, key_b: &str) -> Vec<SummarizerProviderConfig> {
    vec![
        keyed("anthropic", "anthropic", "http://a", "haiku-4-20250514", key_a),
        keyed("openai", "openai", "http://b", "gpt-4o-mini", key_b),
    ]
}

#[test]
fn cascade_missing_api_key_falls_to_local() {
    let cfg = multi_provider_cfg(
        vec![keyed(
            "test-api",
            "anthropic",
            "http://127.0.0.1:1",
            "test-model",
            "CASCADE_MISSING_KEY_ENV",
        )],
        "http://local",
        "test-api",
        &["local"],
    );
    let (result, called) =
        run_cascade(&cfg, &[], &[("http://local/api/chat", 200, LOCAL_OK.to_owned())]);
    assert!(result.is_some(), "local fallback after missing api key");
    assert_eq!(called, vec!["http://local/api/chat"]);
}

#[test]
fn multi_provider_primary_ok_skips_fallbacks() {
    let cfg = multi_provider_cfg(
        two_providers("MULTI_PRIMARY_OK_A", "MULTI_PRIMARY_OK_B"),
        "http://127.0.0.1:1",
        "anthropic",
        &["openai"],
    );
    let (result, called) = run_cascade(
        &cfg,
        &[("MULTI_PRIMARY_OK_A", "key-a"), ("MULTI_PRIMARY_OK_B", "key-b")],
        &[
            ("http://a/v1/messages", 200, ANTHROPIC_OK.to_owned()),
            ("http://b/v1/messages", 200, ANTHROPIC_OK.to_owned()),
        ],
    );
    assert!(result.is_some(), "primary success must return Some");
    assert_eq!(called, vec!["http://a/v1/messages"]);
}

#[test]
fn multi_provider_primary_500_falls_to_second() {
    let cfg = multi_provider_cfg(
        two_providers("MULTI_500_A", "MULTI_500_B"),
        "http://127.0.0.1:1",
        "anthropic",
        &["openai"],
    );
    let (result, called) = run_cascade(
        &cfg,
        &[("MULTI_500_A", "key-a"), ("MULTI_500_B", "key-b")],
        &[
            ("http://a/v1/messages", 500, String::new()),
            ("http://b/v1/chat/completions", 200, openai_ok("GOAL: fallback summary")),
        ],
    );
    assert!(
        result.is_some(),
        "fallback provider must return Some after primary 500"
    );
    assert_eq!(result.unwrap(), "GOAL: fallback summary");
    assert_eq!(called, vec!["http://a/v1/messages", "http://b/v1/chat/completions"]);
}

#[test]
fn multi_provider_all_fail_returns_none() {
    let mut providers = two_providers("MULTI_ALL_FAIL_A", "");
    providers.truncate(1);
    let cfg = multi_provider_cfg(providers, "http://local", "anthropic", &["local"]);
    let (result, called) = run_cascade(
        &cfg,
        &[("MULTI_ALL_FAIL_A", "key-a")],
        &[
            ("http://a/v1/messages", 500, String::new()),
            ("http://local/api/chat", 500, String::new()),
        ],
    );
    assert!(result.is_none(), "all engines errored → must return None");
    assert_eq!(called, vec!["http://a/v1/messages", "http://local/api/chat"]);
}

#[test]
fn multi_provider_key_missing_skips_no_call() {
    let cfg = multi_provider_cfg(
        two_providers("MULTI_KEY_MISSING_A", "MULTI_KEY_MISSING_B"),
        "http://127.0.0.1:1",
        "anthropic",
        &["openai"],
    );
    let (result, called) = run_cascade(
        &cfg,
        &[("MULTI_KEY_MISSING_B", "key-b")],
        &[
            ("http://a/v1/messages", 200, ANTHROPIC_OK.to_owned()),
            ("http://b/v1/chat/completions", 200, openai_ok("GOAL: second provider ok")),
        ],
    );
    assert!(
        result.is_some(),
        "provider B must succeed when provider A key is missing"
    );
    assert_eq!(called, vec!["http://b/v1/chat/completions"]);
}

#[test]
fn multi_provider_gateway_cascade_installs_on_fallback_success() {
    let mut cfg = spawn_cfg("qwen3.5:4b");
    cfg.summarizer = multi_provider_cfg(
        vec![
            keyed("prov_a", "anthropic", "http://a", "haiku-4-20250514", "SMOKE_GATEWAY_A"),
            keyed("prov_b", "openai", "http://b", "gpt-4o-mini", "SMOKE_GATEWAY_B"),
        ],
        "http://127.0.0.1:1",
        "prov_a",
        &["prov_b"],
    );
    cfg.summarizer.resummarize_after_bytes = 1;
    let messages = prose_convo(8);
    let mut session = warmed(&messages);
    let (answer, called) = run_cascade(
        &cfg.summarizer,
        &[("SMOKE_GATEWAY_A", "key-a"), ("SMOKE_GATEWAY_B", "key-b")],
        &[
            ("http://a/v1/messages", 500, String::new()),
            (
                "http://b/v1/chat/completions",
                200,
                openai_ok("GOAL: the gateway fallback smoke test confirmed."),
            ),
        ],
    );
    assert_eq!(called, vec!["http://a/v1/messages", "http://b/v1/chat/completions"]);
    let said = round(&cfg, &messages, &mut session, 1, answer.as_deref());
    assert_eq!(said.map(|s| s.0), Some('a'));
    assert!(
        !session.chain.is_empty(),
        "provider B's fallback summary must be installed (ledger outcome = 'a')"
    );
}

#[test]
fn a_status_of_success_is_told_from_the_others() {
    for status in [200u16, 204, 299] {
        assert!(check_status(status).is_ok());
    }
    for status in [0u16, 199, 300, 404, 500] {
        assert!(matches!(check_status(status), Err(CompactorError::HttpStatus(s)) if s == status));
    }
}

#[test]
fn preview_summary_local_engine_returns_accepted_reduction() {
    let cfg = spawn_cfg("qwen3.5:4b");
    let messages = to_jsons(&prose_convo(6));
    let (start, end) = preview_slice(&messages, &cfg).unwrap();
    let prompt = summary_prompt(&messages, start, end);
    assert!(prompt.starts_with("<excerpt>\n\n### assistant\nWe analysed"));
    let text = "GOAL: approach B chosen for the ledger.";
    let ps = preview_summary(&messages, &cfg, start, end, text, "local").unwrap();
    assert!(
        ps.slice_after < ps.slice_before,
        "accepted summary must be smaller than the baseline"
    );
    assert_eq!(ps.engine_kind, "local");
    assert_eq!((ps.start, ps.end), (start, end));
    let long = "x ".repeat(50_000);
    assert!(preview_summary(&messages, &cfg, start, end, &long, "local").is_none());
}

#[test]
fn preview_summary_model_free_returns_none() {
    let mut cfg = spawn_cfg("qwen3.5:4b");
    cfg.summarizer.engine = "model-free".to_owned();
    assert!(preview_slice(&to_jsons(&prose_convo(6)), &cfg).is_none());
}

#[test]
fn preview_summary_no_eligible_slice_returns_none() {
    let mut cfg = spawn_cfg("qwen3.5:4b");
    cfg.summarizer.keep_recent_turns = 6;
    assert!(preview_slice(&to_jsons(&prose_convo(2)), &cfg).is_none());
}

#[test]
fn a_summary_is_judged_for_its_job() {
    let cfg = spawn_cfg("qwen3.5:4b");
    let messages = to_jsons(&prose_convo(6));
    let job = SummaryJob { start: 1, end: 5, append: false };
    match judge_summary(&messages, job, Some("GOAL: short"), &cfg) {
        SummaryOutcome::Accepted(d) => {
            assert_eq!((d.start, d.end), (1, 5));
            assert_eq!(d.slice_hash.len(), 64);
            assert!(d.slice_hash.chars().all(|c| c.is_ascii_hexdigit()));
        }
        _ => panic!("a short summary is kept"),
    }
    let none = SummaryJob { start: 5, end: 5, append: false };
    assert!(matches!(
        judge_summary(&messages, none, Some("GOAL: short"), &cfg),
        SummaryOutcome::Rejected
    ));
}

#[test]
fn the_first_summary_ends_the_cascade() {
    let cfg = cascade_cfg("anthropic", &["local"], &["anthropic"]);
    let chain = cascade_chain(&cfg);
    let first = cascade_step(&cfg, &chain, 0);
    assert_eq!(first, CascadeStep::Provider { index: 0, next: 1 });
    match cascade_reply(first, Ok("said".to_owned())) {
        CascadeEnd::Summary(text, kind) => assert_eq!((text.as_str(), kind), ("said", "api")),
        end => panic!("unexpected end: {end:?}"),
    }
    assert!(matches!(
        cascade_reply(first, Err(CompactorError::Timeout)),
        CascadeEnd::GoOn(1)
    ));
    let second = cascade_step(&cfg, &chain, 1);
    match cascade_reply(second, Ok("said".to_owned())) {
        CascadeEnd::Summary(_, kind) => assert_eq!(kind, "local"),
        end => panic!("unexpected end: {end:?}"),
    }
    let third = cascade_step(&cfg, &chain, 2);
    assert_eq!(third, CascadeStep::Stop);
    assert!(matches!(
        cascade_reply(third, Err(CompactorError::EmptyResponse)),
        CascadeEnd::Without
    ));
}

#[test]
fn a_correction_and_what_follows_it_is_not_summarized() {
    let cfg = spawn_cfg("qwen3.5:4b");
    let mut m = prose_convo(8);
    m[10] = text_turn("user", "AUTHORITATIVE OVERRIDE: the port is 9000");
    let job = decide_for_request(&body(&m), &cfg, &warmed(&m)).unwrap().1;
    assert_eq!((job.start, job.end), (1, 9));
    assert_eq!(preview_slice(&to_jsons(&m), &cfg), Some((1, 9)));
    // Too little is left before it.
    m[4] = text_turn("user", "Current Ground Truth: use the new table");
    assert!(decide_for_request(&body(&m), &cfg, &warmed(&m)).is_none());
    assert_eq!(preview_slice(&to_jsons(&m), &cfg), None);
}
