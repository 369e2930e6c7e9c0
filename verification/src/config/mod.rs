//! What a user can set.

use crate::text::chars_of;
use vstd::prelude::*;

mod defaults;

verus! {

/// Whether a text is covered by a pattern, in which `*` stands for any run of characters and every
/// other character for itself.
pub open spec fn glob(pattern: Seq<char>, s: Seq<char>) -> bool
    decreases pattern.len(), s.len(),
{
    if pattern.len() == 0 {
        s.len() == 0
    } else if pattern[0] == '*' {
        glob(pattern.drop_first(), s) || (s.len() > 0 && glob(pattern, s.drop_first()))
    } else {
        s.len() > 0 && s[0] == pattern[0] && glob(pattern.drop_first(), s.drop_first())
    }
}

/// Whether one of the patterns covers a name.
pub open spec fn covered(patterns: Seq<String>, name: Seq<char>) -> bool {
    exists|i: int| 0 <= i < patterns.len() && glob(#[trigger] patterns[i]@, name)
}

fn glob_from(pattern: &Vec<char>, s: &Vec<char>, p: usize, i: usize) -> (r: bool)
    requires
        p <= pattern@.len(),
        i <= s@.len(),
    ensures
        r == glob(pattern@.skip(p as int), s@.skip(i as int)),
    decreases pattern@.len() - p, s@.len() - i,
{
    let ghost pat = pattern@.skip(p as int);
    let ghost rest = s@.skip(i as int);
    if p == pattern.len() {
        return i == s.len();
    }
    proof {
        assert(pat.drop_first() =~= pattern@.skip(p + 1));
        if i < s@.len() {
            assert(rest.drop_first() =~= s@.skip(i + 1));
        }
    }
    if pattern[p] == '*' {
        glob_from(pattern, s, p + 1, i) || (i < s.len() && glob_from(pattern, s, p, i + 1))
    } else {
        i < s.len() && s[i] == pattern[p] && glob_from(pattern, s, p + 1, i + 1)
    }
}

/// Whether one of the patterns covers a name. A pattern without a `*` covers only itself.
pub fn matches_any(patterns: &Vec<String>, name: &str) -> (r: bool)
    ensures
        r == covered(patterns@, name@),
{
    let s = chars_of(name);
    let mut i: usize = 0;
    while i < patterns.len()
        invariant
            i <= patterns@.len(),
            s@ == name@,
            forall|j: int| 0 <= j < i ==> !glob(#[trigger] patterns@[j]@, name@),
        decreases patterns@.len() - i,
    {
        let p = chars_of(&patterns[i]);
        let hit = glob_from(&p, &s, 0, 0);
        proof {
            assert(p@.skip(0) =~= p@);
            assert(s@.skip(0) =~= s@);
        }
        if hit {
            return true;
        }
        i = i + 1;
    }
    false
}

/// Settings of the failed-input purge.
#[derive(Debug)]
pub struct FailedInputPurgeConfig {
    pub enabled: bool,
    pub keep_recent_turns: usize,
    pub exempt_tools: Vec<String>,
}

/// Settings of the stale-input cap.
#[derive(Debug)]
pub struct StaleInputCapConfig {
    pub enabled: bool,
    pub keep_recent_turns: usize,
    pub authoring_keep_recent_turns: usize,
    pub exempt_tools: Vec<String>,
}

/// Settings of the cross-turn deduplication.
#[derive(Debug)]
pub struct CrossTurnDedupConfig {
    pub enabled: bool,
    pub exempt_tools: Vec<String>,
    pub stub: String,
}

/// Settings of the elision of superseded reads.
#[derive(Debug)]
pub struct StaleReadsConfig {
    pub enabled: bool,
    pub exempt_tools: Vec<String>,
    pub stub: String,
    pub page_min_bytes: usize,
    pub keep_recent_turns: usize,
    pub protected_file_patterns: Vec<String>,
}

/// Settings of the near-duplicate collapse.
#[derive(Debug)]
pub struct SimHashDedupConfig {
    pub enabled: bool,
    pub keep_recent_turns: usize,
    pub hamming_threshold: u32,
    pub min_bytes: usize,
    pub exempt_tools: Vec<String>,
    pub stub: String,
}

/// Settings of the cap on oversized results.
#[derive(Debug)]
pub struct BloatCapConfig {
    pub enabled: bool,
    pub threshold_bytes: usize,
    pub head_bytes: usize,
    pub tail_bytes: usize,
    pub keep_recent_turns: usize,
    pub exempt_tools: Vec<String>,
    pub exempt_recent_only_tools: Vec<String>,
    pub catastrophic_bytes: usize,
    pub stub_age_turns: usize,
    pub protected_file_patterns: Vec<String>,
}

/// Settings of the sliding window.
#[derive(Debug)]
pub struct SlidingWindowConfig {
    pub enabled: bool,
    pub keep_recent_turns: usize,
    pub denylist_tools: Vec<String>,
    pub exempt_tools: Vec<String>,
    pub stub: String,
}

/// Settings of the image strip.
#[derive(Debug)]
pub struct ImageStripConfig {
    pub enabled: bool,
    pub applies_to_tools: Vec<String>,
    pub keep_recent_count: usize,
    pub stub: String,
}

/// Settings of the thinking strip.
#[derive(Debug)]
pub struct ThinkingStripConfig {
    pub enabled: bool,
    pub keep_recent_turns: usize,
}

/// Settings of the repair of a stray system message.
#[derive(Debug)]
pub struct SystemShapeNormalizeConfig {
    pub enabled: bool,
}

/// Settings of all strategies.
#[derive(Debug)]
pub struct StrategiesConfig {
    pub failed_input_purge: FailedInputPurgeConfig,
    pub stale_input_cap: StaleInputCapConfig,
    pub cross_turn_dedup: CrossTurnDedupConfig,
    pub stale_reads: StaleReadsConfig,
    pub simhash_dedup: SimHashDedupConfig,
    pub bloat_cap: BloatCapConfig,
    pub sliding_window: SlidingWindowConfig,
    pub image_strip: ImageStripConfig,
    pub thinking_strip: ThinkingStripConfig,
    pub system_shape_normalize: SystemShapeNormalizeConfig,
}

/// Settings of the summarizer that runs on this machine.
#[derive(Debug)]
pub struct SummarizerLocalConfig {
    pub endpoint: String,
    pub model: String,
    pub keep_alive_secs: u64,
    pub max_num_ctx: u64,
}

/// Settings of a summarizer behind a provider's interface.
#[derive(Debug)]
pub struct SummarizerProviderConfig {
    pub id: String,
    pub style: String,
    pub base_url: String,
    pub full_url: Option<String>,
    pub model: String,
    pub api_key_env: String,
    pub timeout_secs: u64,
}

/// Settings of the summarizer.
#[derive(Debug)]
pub struct SummarizerConfig {
    pub engine: String,
    pub fallback: Vec<String>,
    pub local: SummarizerLocalConfig,
    pub providers: Vec<SummarizerProviderConfig>,
    pub timeout_secs: u64,
    pub trigger_bytes: usize,
    pub keep_recent_turns: usize,
    pub slice_char_budget: Option<usize>,
    pub resummarize_after_bytes: usize,
    pub accumulator: bool,
    pub max_summary_segments: usize,
    /// How much larger than the pruned region a summary may be, in thousandths.
    pub accept_ratio: u64,
}

/// Settings of the replay of earlier decisions.
#[derive(Debug)]
pub struct RepruneConfig {
    pub enabled: bool,
}

/// All settings.
#[derive(Debug)]
pub struct Config {
    pub strategies: StrategiesConfig,
    pub summarizer: SummarizerConfig,
    pub reprune: RepruneConfig,
}

} // verus!
