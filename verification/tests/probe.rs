use trimwire::summarizer::normalize_fact;
use trimwire::summarizer::probe::{build_probe_slice, Bucket, ProbeReport, PROBE_FACTS};

fn retention(r: &ProbeReport) -> f64 {
    r.kept() as f64 / r.total() as f64
}

#[test]
fn slice_grows_with_budget_and_plants_all_facts() {
    let small = build_probe_slice(20_000);
    let big = build_probe_slice(200_000);
    assert!(big.n_turns > small.n_turns, "bigger budget → more turns");
    // Every needle's line text must appear in the slice (planted, pre-summary).
    for (_, _, line) in PROBE_FACTS {
        assert!(
            big.slice_text.contains(line) || big.slice_text.contains(&normalize_fact(line)),
            "planted line must be present in the built slice: {line}"
        );
    }
}

#[test]
fn perfect_summary_scores_full_retention_and_buckets_cover_all() {
    let s = build_probe_slice(60_000);
    // A "summary" that echoes every needle → 100% retention.
    let echoed = PROBE_FACTS
        .iter()
        .map(|(_, needle, _)| *needle)
        .collect::<Vec<_>>()
        .join(" ");
    let r = ProbeReport::score(&echoed, s.n_turns);
    assert_eq!(r.kept(), r.total());
    assert!((retention(&r) - 1.0).abs() < 1e-9);
    // Buckets partition all facts.
    let (a, b, c) = (
        r.bucket(Bucket::Start).1,
        r.bucket(Bucket::Mid).1,
        r.bucket(Bucket::End).1,
    );
    assert_eq!(a + b + c, PROBE_FACTS.len());
}

#[test]
fn empty_summary_scores_zero_retention() {
    let s = build_probe_slice(60_000);
    let r = ProbeReport::score("", s.n_turns);
    assert_eq!(r.kept(), 0);
    assert!(retention(&r) < 1e-9);
}
