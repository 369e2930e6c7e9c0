use serde_json::Value;
use trimwire::config::{SummarizerLocalConfig, SummarizerProviderConfig};
use trimwire::json::Json;
use trimwire::summarizer::api::{
    api_reply, api_request, extract_anthropic_text, finalize_text, openai_text, ApiStyle,
    API_MAX_TOKENS,
};
use trimwire::summarizer::local::{local_reply, local_request, local_text, local_url};
use trimwire::summarizer::{
    build_prompt, fact_retention, normalize_fact, num_ctx_for, num_predict_for, CompactorError,
    SUMMARY_SYSTEM_PROMPT,
};

fn anthropic_cfg(base_url: &str) -> SummarizerProviderConfig {
    SummarizerProviderConfig {
        id: "test-anthropic".to_owned(),
        style: "anthropic".to_owned(),
        base_url: base_url.to_owned(),
        full_url: None,
        model: "haiku-4-20250514".to_owned(),
        api_key_env: "TEST_ANTHROPIC_API_KEY".to_owned(),
        timeout_secs: 5,
    }
}

fn openai_cfg(base_url: &str) -> SummarizerProviderConfig {
    SummarizerProviderConfig {
        id: "test-openai".to_owned(),
        style: "openai".to_owned(),
        base_url: base_url.to_owned(),
        full_url: None,
        model: "gpt-4o-mini".to_owned(),
        api_key_env: "TEST_OPENAI_API_KEY".to_owned(),
        timeout_secs: 5,
    }
}

fn unreachable_text(cfg: &SummarizerProviderConfig, key: Option<&str>) -> String {
    match api_request(cfg, key, "p") {
        Err(CompactorError::Unreachable(why)) => why,
        Err(e) => panic!("unexpected error: {}", e.message()),
        Ok(_) => panic!("expected an error"),
    }
}

fn body_of(cfg: &SummarizerProviderConfig, prompt: &str) -> Value {
    serde_json::from_str(&api_request(cfg, Some("key"), prompt).ok().unwrap().body).unwrap()
}

#[test]
fn anthropic_happy_path_parses_content_blocks() {
    let reply = br#"{"id":"msg_1","type":"message","role":"assistant",
        "content":[{"type":"text","text":"  GOAL: do it\nNEXT: more  "}]}"#;
    assert_eq!(
        api_reply(ApiStyle::Anthropic, reply).unwrap(),
        "GOAL: do it\nNEXT: more"
    );
}

#[test]
fn anthropic_concatenates_multiple_text_blocks() {
    let reply = br#"{"content":[{"type":"text","text":"part one "},{"type":"text","text":"part two"}]}"#;
    assert_eq!(
        api_reply(ApiStyle::Anthropic, reply).unwrap(),
        "part one part two"
    );
}

#[test]
fn anthropic_request_has_correct_headers_and_no_ollama_fields() {
    let cfg = anthropic_cfg("http://host");
    let call = api_request(&cfg, Some("sk-ant-test"), "p").ok().unwrap();
    assert!(call.style == ApiStyle::Anthropic);
    assert_eq!(call.url, "http://host/v1/messages");
    assert_eq!(
        call.headers,
        vec![
            ("x-api-key", "sk-ant-test".to_owned()),
            ("anthropic-version", "2023-06-01".to_owned()),
            ("content-type", "application/json".to_owned()),
        ]
    );
    let body: Value = serde_json::from_str(&call.body).unwrap();
    assert_eq!(body["model"], "haiku-4-20250514");
    assert_eq!(body["max_tokens"], API_MAX_TOKENS);
    assert_eq!(body["system"], SUMMARY_SYSTEM_PROMPT);
    assert_eq!(body["stream"], false);
    assert_eq!(body["messages"].as_array().unwrap().len(), 1);
    assert_eq!(body["messages"][0]["role"], "user");
    assert_eq!(body["messages"][0]["content"], "p");
    for field in ["keep_alive", "num_ctx", "think", "options"] {
        assert!(body.get(field).is_none(), "{field} must be absent");
    }
}

#[test]
fn openai_happy_path_parses_choices_message_content() {
    let reply = br#"{"id":"chatcmpl-1","object":"chat.completion","choices":[{"index":0,
        "message":{"role":"assistant","content":"GOAL: approach B chosen\nNEXT: wire the writer"},
        "finish_reason":"stop"}],
        "usage":{"prompt_tokens":10,"completion_tokens":20,"total_tokens":30}}"#;
    assert_eq!(
        api_reply(ApiStyle::OpenAi, reply).unwrap(),
        "GOAL: approach B chosen\nNEXT: wire the writer"
    );
}

#[test]
fn openai_request_has_bearer_and_no_ollama_fields() {
    let cfg = openai_cfg("http://host");
    let call = api_request(&cfg, Some("sk-openai-test"), "p").ok().unwrap();
    assert_eq!(call.url, "http://host/v1/chat/completions");
    assert_eq!(
        call.headers,
        vec![
            ("authorization", "Bearer sk-openai-test".to_owned()),
            ("content-type", "application/json".to_owned()),
        ]
    );
    let body: Value = serde_json::from_str(&call.body).unwrap();
    assert_eq!(body["messages"][0]["role"], "system");
    assert_eq!(body["messages"][0]["content"], SUMMARY_SYSTEM_PROMPT);
    assert_eq!(body["messages"][1]["role"], "user");
    assert_eq!(body["messages"][1]["content"], "p");
    for field in ["keep_alive", "num_ctx", "think", "options", "system"] {
        assert!(body.get(field).is_none(), "{field} must be absent");
    }
}

#[test]
fn openrouter_is_told_which_application_asks() {
    let cfg = openai_cfg("https://openrouter.ai/api");
    let call = api_request(&cfg, Some("k"), "p").ok().unwrap();
    assert_eq!(call.url, "https://openrouter.ai/api/v1/chat/completions");
    assert_eq!(call.headers.len(), 4);
    assert_eq!(call.headers[2].0, "HTTP-Referer");
    assert_eq!(call.headers[3], ("X-Title", "trimwire".to_owned()));
}

#[test]
fn full_url_overrides_the_v1_path() {
    let mut cfg = openai_cfg("https://unused.example");
    cfg.full_url = Some("http://host/paas/v4/chat/completions".to_owned());
    let call = api_request(&cfg, Some("sk-z"), "p").ok().unwrap();
    assert_eq!(call.url, "http://host/paas/v4/chat/completions");
    assert_eq!(call.headers[0], ("authorization", "Bearer sk-z".to_owned()));
    // A blank one does not count.
    cfg.full_url = Some("  ".to_owned());
    let call = api_request(&cfg, Some("sk-z"), "p").ok().unwrap();
    assert_eq!(call.url, "https://unused.example/v1/chat/completions");
}

#[test]
fn anthropic_empty_content_array_is_empty_response_error() {
    let r = api_reply(ApiStyle::Anthropic, br#"{"content":[]}"#);
    assert!(matches!(r, Err(CompactorError::EmptyResponse)));
}

#[test]
fn openai_empty_content_is_empty_response_error() {
    let r = api_reply(ApiStyle::OpenAi, br#"{"choices":[{"message":{"content":"   "}}]}"#);
    assert!(matches!(r, Err(CompactorError::EmptyResponse)));
}

#[test]
fn anthropic_malformed_json_is_malformed_error() {
    let r = api_reply(ApiStyle::Anthropic, b"not json");
    assert!(matches!(r, Err(CompactorError::Malformed(_))));
    match api_reply(ApiStyle::Anthropic, br#"{"content":"text"}"#) {
        Err(CompactorError::Malformed(e)) => {
            assert_eq!(e, "missing or non-array 'content' field")
        }
        _ => panic!("expected a malformed reply"),
    }
}

#[test]
fn openai_malformed_json_is_malformed_error() {
    let r = api_reply(ApiStyle::OpenAi, b"not json");
    assert!(matches!(r, Err(CompactorError::Malformed(_))));
}

#[test]
fn missing_api_key_env_name_errors_without_network() {
    let mut cfg = anthropic_cfg("http://127.0.0.1:1");
    cfg.api_key_env = String::new();
    assert_eq!(
        unreachable_text(&cfg, None),
        "summarizer provider api_key_env is not set"
    );
}

#[test]
fn provider_id_not_sent_in_request() {
    let mut cfg = anthropic_cfg("http://host");
    cfg.id = "my-provider-id".to_owned();
    let call = api_request(&cfg, Some("sk-test"), "p").ok().unwrap();
    assert!(
        !call.body.contains("my-provider-id"),
        "provider id must not appear in the HTTP body"
    );
}

#[test]
fn unset_api_key_env_var_errors_without_network() {
    let cfg = anthropic_cfg("http://127.0.0.1:1");
    assert_eq!(
        unreachable_text(&cfg, None),
        "env var TEST_ANTHROPIC_API_KEY is not set"
    );
}

#[test]
fn empty_api_key_env_var_errors_without_network() {
    let cfg = anthropic_cfg("http://127.0.0.1:1");
    assert_eq!(
        unreachable_text(&cfg, Some("")),
        "env var TEST_ANTHROPIC_API_KEY is set but empty"
    );
    assert_eq!(
        unreachable_text(&cfg, Some(" \t")),
        "env var TEST_ANTHROPIC_API_KEY is set but empty"
    );
}

#[test]
fn unfilled_provider_settings_are_named() {
    let mut cfg = openai_cfg(" ");
    assert_eq!(
        unreachable_text(&cfg, Some("k")),
        "summarizer provider \"test-openai\": base_url is not set (or set full_url)"
    );
    cfg.base_url = "http://host".to_owned();
    cfg.model = String::new();
    assert_eq!(
        unreachable_text(&cfg, Some("k")),
        "summarizer provider \"test-openai\": model is not set"
    );
    cfg.model = "m".to_owned();
    cfg.style = "other\n".to_owned();
    assert_eq!(
        unreachable_text(&cfg, Some("k")),
        "summarizer provider \"test-openai\": unknown style \"other\\n\" (expected \"anthropic\" or \"openai\")"
    );
}

#[test]
fn anthropic_trailing_slash_stripped_from_base_url() {
    let cfg = anthropic_cfg("http://host//");
    let call = api_request(&cfg, Some("key"), "p").ok().unwrap();
    assert_eq!(call.url, "http://host/v1/messages");
}

#[test]
fn anthropic_non_text_blocks_are_skipped() {
    let reply = br#"{"content":[{"type":"tool_use","id":"tu_1","name":"Bash","input":{}},
        {"type":"text","text":"GOAL: ok"}]}"#;
    assert_eq!(
        api_reply(ApiStyle::Anthropic, reply).unwrap(),
        "GOAL: ok",
        "non-text blocks must be skipped"
    );
}

#[test]
fn openai_reasoning_model_sends_max_completion_tokens() {
    let mut cfg = openai_cfg("http://host");
    cfg.model = "o3-mini".to_owned();
    let body = body_of(&cfg, "p");
    assert_eq!(body["max_completion_tokens"], API_MAX_TOKENS);
    assert!(
        body.get("max_tokens").is_none(),
        "reasoning model must NOT send max_tokens"
    );
}

#[test]
fn openai_standard_model_sends_max_tokens() {
    let body = body_of(&openai_cfg("http://host"), "p");
    assert_eq!(body["max_tokens"], API_MAX_TOKENS);
    assert!(
        body.get("max_completion_tokens").is_none(),
        "standard model must NOT send max_completion_tokens"
    );
}

#[test]
fn openai_null_content_with_content_filter_reason_gives_diagnostic_error() {
    let reply = br#"{"choices":[{"message":{"role":"assistant","content":null},
        "finish_reason":"content_filter"}]}"#;
    match api_reply(ApiStyle::OpenAi, reply) {
        Err(CompactorError::Malformed(msg)) => {
            assert!(
                msg.contains("content_filter"),
                "error must mention the finish_reason: {msg}"
            );
            assert!(
                msg.contains("null"),
                "error must mention null content: {msg}"
            );
        }
        _ => panic!("expected Malformed"),
    }
}

#[test]
fn openai_null_content_with_stop_reason_still_gives_empty_response_error() {
    let reply = br#"{"choices":[{"message":{"role":"assistant","content":null},
        "finish_reason":"stop"}]}"#;
    assert!(matches!(
        api_reply(ApiStyle::OpenAi, reply),
        Err(CompactorError::EmptyResponse)
    ));
    assert!(matches!(
        api_reply(ApiStyle::OpenAi, br#"{"choices":[]}"#),
        Err(CompactorError::EmptyResponse)
    ));
}

#[test]
fn ok_response_returns_trimmed_summary() {
    let reply =
        br#"{"message":{"role":"assistant","content":"  ## Goal\nDo the thing\n  "},"done":true}"#;
    assert_eq!(local_reply(reply).unwrap(), "## Goal\nDo the thing");
    let thought = br#"{"message":{"content":"<think>hm</think>\nGOAL: x"}}"#;
    assert_eq!(local_reply(thought).unwrap(), "GOAL: x");
}

#[test]
fn harm_gate_retention_logic_is_deterministic() {
    let canned = "GOAL: harden auth\nFILES: src/auth/session_7421.rs\n\
        DECIDED: cap MAX-RETRIES = 5 in Reconcile_Balances\n\
        ERRORS: error[E0277] the trait bound `Job: Send` is not satisfied\n\
        NEXT: wire the writer";
    let needles = [
        "src/auth/session_7421.rs",
        "error[E0277]",
        "MAX_RETRIES",
        "reconcile_balances",
        "game-engine.md",
    ];
    assert_eq!(
        fact_retention(canned, &needles),
        (4, 5),
        "4 of 5 planted facts survive (the dropped one is game-engine.md)"
    );
    assert_eq!(normalize_fact("Max-Retries"), "max_retries");
    assert_eq!(
        fact_retention("uses max_retries here", &["MAX-RETRIES"]).0,
        1
    );
    assert_eq!(fact_retention("nothing relevant", &["missing_id"]).0, 0);
    // Case is folded beyond ASCII too.
    assert_eq!(normalize_fact("\u{c4}rger-X"), "\u{e4}rger_x");
}

#[test]
fn empty_response_field_is_empty_error() {
    let r = local_reply(br#"{"message":{"content":"   "},"done":true}"#);
    assert!(matches!(r, Err(CompactorError::EmptyResponse)));
    assert!(matches!(local_reply(b"{}"), Err(CompactorError::EmptyResponse)));
}

#[test]
fn malformed_body_is_malformed_error() {
    let r = local_reply(b"not json");
    assert!(matches!(r, Err(CompactorError::Malformed(_))));
}

fn local_cfg(model: &str) -> SummarizerLocalConfig {
    SummarizerLocalConfig {
        endpoint: "http://127.0.0.1:11434/".to_owned(),
        model: model.to_owned(),
        ..Default::default()
    }
}

#[test]
fn local_request_of_a_thinking_model() {
    let cfg = local_cfg("qwen3.5:4b");
    let prompt = build_prompt("x");
    let body: Value = serde_json::from_str(&local_request(&cfg, &prompt).ok().unwrap()).unwrap();
    assert_eq!(local_url(&cfg), "http://127.0.0.1:11434/api/chat");
    assert_eq!(body["model"], "qwen3.5:4b");
    assert_eq!(body["stream"], false);
    assert_eq!(body["think"], false);
    assert_eq!(body["keep_alive"], cfg.keep_alive_secs);
    assert_eq!(body["messages"][0]["content"], SUMMARY_SYSTEM_PROMPT);
    assert_eq!(body["messages"][1]["content"], prompt.as_str());
    let options = &body["options"];
    let num_ctx = num_ctx_for(prompt.len(), cfg.max_num_ctx);
    assert_eq!(options["num_ctx"], num_ctx);
    assert_eq!(options["num_predict"], num_predict_for(num_ctx));
    assert_eq!(options["temperature"], 0.1);
    assert_eq!(options["top_k"], 20);
    assert_eq!(options["min_p"], 0);
    assert_eq!(options["repeat_penalty"], 1.1);
    assert_eq!(options["repeat_last_n"], 64);
    assert_eq!(options["seed"], 42);
    assert_eq!(options["top_p"], 0.8);
    assert_eq!(
        options["stop"],
        Value::from(vec!["<|im_end|>", "\n\n---", "\nNote:", "\nSummary:", "\nConclusion:"])
    );
}

#[test]
fn local_request_of_another_model() {
    let cfg = local_cfg("llama3.2:3b");
    let body: Value = serde_json::from_str(&local_request(&cfg, "p").ok().unwrap()).unwrap();
    assert!(body.get("think").is_none());
    assert_eq!(body["options"]["top_p"], 0.9);
}

#[test]
fn errors_say_what_is_wrong() {
    assert_eq!(
        CompactorError::Unreachable("refused".to_owned()).message(),
        "summarizer backend unreachable: refused"
    );
    assert_eq!(CompactorError::Timeout.message(), "summarizer backend timed out");
    assert_eq!(CompactorError::HttpStatus(503).message(), "summarizer backend HTTP 503");
    assert_eq!(
        CompactorError::Malformed("x".to_owned()).message(),
        "summarizer response malformed: x"
    );
    assert_eq!(
        CompactorError::EmptyResponse.message(),
        "summarizer returned an empty summary"
    );
}

#[test]
fn replies_that_have_been_read() {
    let read = |text: &str| Json::parse(text.as_bytes()).unwrap();
    let local = read(r#"{"message":{"content":" a "}}"#);
    assert_eq!(local_text(&local).unwrap(), "a");
    let openai = read(r#"{"choices":[{"message":{"content":" b "}},{"message":{"content":"c"}}]}"#);
    assert_eq!(openai_text(&openai).unwrap(), "b");
    let anthropic = read(r#"{"content":[{"type":"text","text":" d"},{"type":"text","text":"e "}]}"#);
    assert_eq!(extract_anthropic_text(&anthropic).unwrap(), " de ");
    assert_eq!(finalize_text(" de ".to_owned()).unwrap(), "de");
    assert!(matches!(finalize_text("\n".to_owned()), Err(CompactorError::EmptyResponse)));
}

#[test]
fn what_is_wrong_with_a_reply_is_passed_on() {
    let said = |r: Result<String, CompactorError>| match r {
        Err(CompactorError::Malformed(why)) => why,
        _ => panic!("that is no reply"),
    };
    let want = serde_json::from_slice::<Value>(b"{,").unwrap_err().to_string();
    assert_eq!(said(local_reply(b"{,")), want);
    assert_eq!(said(api_reply(ApiStyle::Anthropic, b"{,")), want);
    assert_eq!(said(api_reply(ApiStyle::OpenAi, b"{,")), want);
}
