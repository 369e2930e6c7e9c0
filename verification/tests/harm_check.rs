use trimwire::summarizer::harm_check::detect_false_done;

#[test]
fn flags_tests_passed_without_a_test_run_in_slice() {
    let summary = "GOAL: wire the lore gate\nFACTS: all 37 tests passed, lint clean\nNEXT: re-invert the latch";
    // The slice only LOCATED the latch — no test was ever run (the b_s2 false-done shape).
    let slice = "### assistant\n[tool_use Grep] {\"pattern\":\"loreMatch\"}\n### user\n[tool_result] achievements.ts:88: loreMatch gate";
    let flags = detect_false_done(summary, slice);
    assert_eq!(
        flags.len(),
        1,
        "must flag the unsupported 'tests passed' claim"
    );
    assert!(flags[0].reason.contains("tests passed"));
}

#[test]
fn does_not_flag_tests_passed_when_slice_has_a_test_run() {
    let summary = "FACTS: tests passed (37 passed)";
    let slice = "### user\n[tool_result] test result: ok. 37 passed; 0 failed";
    assert!(
        detect_false_done(summary, slice).is_empty(),
        "a real test-run result in the slice must suppress the flag"
    );
}

#[test]
fn does_not_flag_when_summary_makes_no_completion_claim() {
    let summary = "GOAL: wire the lore gate\nNEXT: locate and re-invert the loreMatch gate in achievements.ts";
    let slice = "### assistant\nNow I'll find the latch.";
    assert!(
        detect_false_done(summary, slice).is_empty(),
        "an open NEXT (no completion claim) must not be flagged"
    );
}

#[test]
fn does_not_flag_conditional_or_future_tests_green() {
    let slice = "### assistant\n[tool_use Bash] {\"command\":\"cargo test -p payments\"}\n### user\n[tool_result] Compiling payments (3/9)";
    for honest in [
        "DECIDED: replace loop with retry cap; ship if tests green.", // opus-4.8
        "NEXT: cargo test was running (compiling, 3/9) — await results; if green, ship.", // opus-4.8
        "NEXT: cargo test still running; awaiting test results to confirm green before shipping.", // GLM-5.2
        "NEXT: tests should pass once the build finishes",
    ] {
        assert!(
            detect_false_done(honest, slice).is_empty(),
            "conditional/future tests-green is honest, must NOT flag: {honest:?}"
        );
    }
}

#[test]
fn still_flags_real_pass_despite_an_unrelated_clause() {
    let slice = "### assistant\n[tool_use Grep] {\"pattern\":\"x\"}\n### user\n[tool_result] foo.ts:1: x";
    for real in [
        "FACTS: all 37 tests passed; if it breaks later, revert.", // later "if"
        "FACTS: when I ran it, all 37 tests passed",               // earlier "when"
        "FACTS: before merge, all tests passed",                   // earlier "before"
        "FACTS: if you check, all 37 tests passed",                // earlier "if" (far)
        "FACTS: I will note all tests passed",                     // earlier "will" (far)
        "FACTS: ran it once, all 37 tests passed",                 // past "once" (not future)
        "FACTS: awaited the results — all tests passed", // past "awaited", not "awaiting"
        "FACTS: pending lint fix, all tests passed",     // bare "pending" before claim
    ] {
        assert_eq!(
            detect_false_done(real, slice).len(),
            1,
            "a real 'tests passed' assertion must still flag: {real:?}"
        );
    }
}

#[test]
fn flags_committed_claim_without_commit_evidence() {
    let summary = "DECIDED: committed Task 4.2 (lint, test, commit)";
    let slice = "### assistant\n[tool_use Edit] {\"file_path\":\"lore.ts\"}\n### user\n[tool_result] updated successfully";
    let flags = detect_false_done(summary, slice);
    assert_eq!(
        flags.len(),
        1,
        "must flag the unsupported 'committed' claim"
    );
    assert!(flags[0].reason.contains("commit"));
}

#[test]
fn does_not_flag_committed_when_slice_shows_a_commit() {
    let summary = "DECIDED: committed the lore wiring";
    let slice = "### user\n[tool_result] [main 1a2b3c4] feat(phase-9b): lore wiring\n 3 files changed, 40 insertions";
    assert!(
        detect_false_done(summary, slice).is_empty(),
        "a real commit echo in the slice must suppress the flag"
    );
}
