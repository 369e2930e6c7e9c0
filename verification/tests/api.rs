use trimwire::summarizer::api::is_openai_reasoning_model;

#[test]
fn reasoning_model_detection_covers_o_series_and_gpt5() {
    // o1 / o3 / o4 family
    assert!(is_openai_reasoning_model("o1"));
    assert!(is_openai_reasoning_model("o1-mini"));
    assert!(is_openai_reasoning_model("o1-preview"));
    assert!(is_openai_reasoning_model("o3"));
    assert!(is_openai_reasoning_model("o3-mini"));
    assert!(is_openai_reasoning_model("o4-mini"));
    // gpt-5 reasoning variants
    assert!(is_openai_reasoning_model("gpt-5"));
    assert!(is_openai_reasoning_model("gpt-5-reasoning"));
    // Standard models — must NOT be flagged.
    assert!(!is_openai_reasoning_model("gpt-4o"));
    assert!(!is_openai_reasoning_model("gpt-4o-mini"));
    assert!(!is_openai_reasoning_model("gpt-4-turbo"));
    assert!(!is_openai_reasoning_model("gpt-3.5-turbo"));
    assert!(!is_openai_reasoning_model("haiku-4-20250514"));
}
