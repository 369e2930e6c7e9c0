//! The settings that hold unless others are given. No strategy is on, and there is no summarizer.

use super::{
    BloatCapConfig, Config, CrossTurnDedupConfig, FailedInputPurgeConfig, ImageStripConfig,
    RepruneConfig, SimHashDedupConfig, SlidingWindowConfig, StaleInputCapConfig, StaleReadsConfig,
    StrategiesConfig, SummarizerConfig, SummarizerLocalConfig, SystemShapeNormalizeConfig,
    ThinkingStripConfig,
};
use crate::text::texts;
use vstd::prelude::*;

verus! {

fn list(names: &[&str]) -> (r: Vec<String>)
    ensures
        r@.len() == names@.len(),
        forall|i: int| 0 <= i < names@.len() ==> (#[trigger] r@[i])@ == names@[i]@,
{
    let mut r: Vec<String> = Vec::new();
    let mut i: usize = 0;
    while i < names.len()
        invariant
            i <= names@.len(),
            r@.len() == i,
            forall|j: int| 0 <= j < i ==> (#[trigger] r@[j])@ == names@[j]@,
        decreases names@.len() - i,
    {
        r.push(names[i].to_owned());
        i = i + 1;
    }
    r
}

impl Default for FailedInputPurgeConfig {
    fn default() -> (r: Self)
        ensures
            !r.enabled,
            r.keep_recent_turns == 4,
            texts(r.exempt_tools@) == seq!["Task"@, "Agent"@],
    {
        let exempt_tools = list(&["Task", "Agent"]);
        assert(texts(exempt_tools@) =~= seq!["Task"@, "Agent"@]);
        FailedInputPurgeConfig { enabled: false, keep_recent_turns: 4, exempt_tools }
    }
}

impl Default for StaleInputCapConfig {
    fn default() -> (r: Self)
        ensures
            !r.enabled,
            r.keep_recent_turns == 2,
            r.authoring_keep_recent_turns == 6,
            texts(r.exempt_tools@) == seq!["Task"@, "Agent"@],
    {
        let exempt_tools = list(&["Task", "Agent"]);
        assert(texts(exempt_tools@) =~= seq!["Task"@, "Agent"@]);
        StaleInputCapConfig {
            enabled: false,
            keep_recent_turns: 2,
            authoring_keep_recent_turns: 6,
            exempt_tools,
        }
    }
}

impl Default for CrossTurnDedupConfig {
    fn default() -> (r: Self)
        ensures
            !r.enabled,
            texts(r.exempt_tools@) == seq!["Task"@, "Agent"@],
            r.stub@ == "[trimwire: superseded by a later identical call]"@,
    {
        let exempt_tools = list(&["Task", "Agent"]);
        assert(texts(exempt_tools@) =~= seq!["Task"@, "Agent"@]);
        CrossTurnDedupConfig {
            enabled: false,
            exempt_tools,
            stub: "[trimwire: superseded by a later identical call]".to_owned(),
        }
    }
}

impl Default for StaleReadsConfig {
    fn default() -> (r: Self)
        ensures
            !r.enabled,
            r.exempt_tools@.len() == 0,
            r.stub@ == "[trimwire: stale read — file changed or re-read later]"@,
            r.page_min_bytes == 0,
            r.keep_recent_turns == 4,
            r.protected_file_patterns@.len() == 0,
    {
        StaleReadsConfig {
            enabled: false,
            exempt_tools: Vec::new(),
            stub: "[trimwire: stale read — file changed or re-read later]".to_owned(),
            page_min_bytes: 0,
            keep_recent_turns: 4,
            protected_file_patterns: Vec::new(),
        }
    }
}

impl Default for SimHashDedupConfig {
    fn default() -> (r: Self)
        ensures
            !r.enabled,
            r.keep_recent_turns == 4,
            r.hamming_threshold == 3,
            r.min_bytes == 512,
            r.exempt_tools@.len() == 0,
            r.stub@ == "[trimwire: near-duplicate of a later result]"@,
    {
        SimHashDedupConfig {
            enabled: false,
            keep_recent_turns: 4,
            hamming_threshold: 3,
            min_bytes: 512,
            exempt_tools: Vec::new(),
            stub: "[trimwire: near-duplicate of a later result]".to_owned(),
        }
    }
}

impl Default for BloatCapConfig {
    fn default() -> (r: Self)
        ensures
            !r.enabled,
            r.threshold_bytes == 8192,
            r.head_bytes == 2048,
            r.tail_bytes == 2048,
            r.keep_recent_turns == 4,
            texts(r.exempt_tools@) == seq!["Edit"@, "Write"@, "MultiEdit"@, "Task"@, "Agent"@],
            texts(r.exempt_recent_only_tools@) == seq!["Read"@],
            r.catastrophic_bytes == 0,
            r.stub_age_turns == 0,
            r.protected_file_patterns@.len() == 0,
    {
        let exempt_tools = list(&["Edit", "Write", "MultiEdit", "Task", "Agent"]);
        let exempt_recent_only_tools = list(&["Read"]);
        assert(texts(exempt_tools@) =~= seq![
            "Edit"@,
            "Write"@,
            "MultiEdit"@,
            "Task"@,
            "Agent"@,
        ]);
        assert(texts(exempt_recent_only_tools@) =~= seq!["Read"@]);
        BloatCapConfig {
            enabled: false,
            threshold_bytes: 8192,
            head_bytes: 2048,
            tail_bytes: 2048,
            keep_recent_turns: 4,
            exempt_tools,
            exempt_recent_only_tools,
            catastrophic_bytes: 0,
            stub_age_turns: 0,
            protected_file_patterns: Vec::new(),
        }
    }
}

impl Default for SlidingWindowConfig {
    fn default() -> (r: Self)
        ensures
            !r.enabled,
            r.keep_recent_turns == 4,
            r.denylist_tools@.len() == 0,
            r.exempt_tools@.len() == 0,
            r.stub@ == "[trimwire: elided, older than sliding window]"@,
    {
        SlidingWindowConfig {
            enabled: false,
            keep_recent_turns: 4,
            denylist_tools: Vec::new(),
            exempt_tools: Vec::new(),
            stub: "[trimwire: elided, older than sliding window]".to_owned(),
        }
    }
}

impl Default for ImageStripConfig {
    fn default() -> (r: Self)
        ensures
            !r.enabled,
            texts(r.applies_to_tools@) == seq!["*screenshot*"@, "*snapshot*"@],
            r.keep_recent_count == 1,
            r.stub@ == "[trimwire: image stripped]"@,
    {
        let applies_to_tools = list(&["*screenshot*", "*snapshot*"]);
        assert(texts(applies_to_tools@) =~= seq!["*screenshot*"@, "*snapshot*"@]);
        ImageStripConfig {
            enabled: false,
            applies_to_tools,
            keep_recent_count: 1,
            stub: "[trimwire: image stripped]".to_owned(),
        }
    }
}

impl Default for ThinkingStripConfig {
    fn default() -> (r: Self)
        ensures
            !r.enabled,
            r.keep_recent_turns == 4,
    {
        ThinkingStripConfig { enabled: false, keep_recent_turns: 4 }
    }
}

impl Default for SystemShapeNormalizeConfig {
    fn default() -> (r: Self)
        ensures
            !r.enabled,
    {
        SystemShapeNormalizeConfig { enabled: false }
    }
}

impl Default for StrategiesConfig {
    fn default() -> (r: Self)
        ensures
            !r.failed_input_purge.enabled,
            !r.stale_input_cap.enabled,
            !r.cross_turn_dedup.enabled,
            !r.stale_reads.enabled,
            !r.simhash_dedup.enabled,
            !r.bloat_cap.enabled,
            !r.sliding_window.enabled,
            !r.image_strip.enabled,
            !r.thinking_strip.enabled,
            !r.system_shape_normalize.enabled,
    {
        StrategiesConfig {
            failed_input_purge: FailedInputPurgeConfig::default(),
            stale_input_cap: StaleInputCapConfig::default(),
            cross_turn_dedup: CrossTurnDedupConfig::default(),
            stale_reads: StaleReadsConfig::default(),
            simhash_dedup: SimHashDedupConfig::default(),
            bloat_cap: BloatCapConfig::default(),
            sliding_window: SlidingWindowConfig::default(),
            image_strip: ImageStripConfig::default(),
            thinking_strip: ThinkingStripConfig::default(),
            system_shape_normalize: SystemShapeNormalizeConfig::default(),
        }
    }
}

impl Default for SummarizerLocalConfig {
    fn default() -> (r: Self)
        ensures
            r.endpoint@ == "http://127.0.0.1:11434"@,
            r.model@ == "qwen3.5:4b"@,
            r.keep_alive_secs == 300,
            r.max_num_ctx == 25600,
    {
        SummarizerLocalConfig {
            endpoint: "http://127.0.0.1:11434".to_owned(),
            model: "qwen3.5:4b".to_owned(),
            keep_alive_secs: 300,
            max_num_ctx: 25600,
        }
    }
}

impl Default for SummarizerConfig {
    fn default() -> (r: Self)
        ensures
            r.engine@ == "model-free"@,
            r.fallback@.len() == 0,
            r.local.endpoint@ == "http://127.0.0.1:11434"@,
            r.local.model@ == "qwen3.5:4b"@,
            r.local.keep_alive_secs == 300,
            r.local.max_num_ctx == 25600,
            r.providers@.len() == 0,
            r.timeout_secs == 180,
            r.trigger_bytes == 262144,
            r.keep_recent_turns == 4,
            r.slice_char_budget is None,
            r.resummarize_after_bytes == 131072,
            !r.accumulator,
            r.max_summary_segments == 4,
            r.accept_ratio == 1000,
    {
        SummarizerConfig {
            engine: "model-free".to_owned(),
            fallback: Vec::new(),
            local: SummarizerLocalConfig::default(),
            providers: Vec::new(),
            timeout_secs: 180,
            trigger_bytes: 262144,
            keep_recent_turns: 4,
            slice_char_budget: None,
            resummarize_after_bytes: 131072,
            accumulator: false,
            max_summary_segments: 4,
            accept_ratio: 1000,
        }
    }
}

impl Default for RepruneConfig {
    fn default() -> (r: Self)
        ensures
            r.enabled,
    {
        RepruneConfig { enabled: true }
    }
}

impl Default for Config {
    fn default() -> (r: Self)
        ensures
            !r.strategies.failed_input_purge.enabled,
            !r.strategies.stale_input_cap.enabled,
            !r.strategies.cross_turn_dedup.enabled,
            !r.strategies.stale_reads.enabled,
            !r.strategies.simhash_dedup.enabled,
            !r.strategies.bloat_cap.enabled,
            !r.strategies.sliding_window.enabled,
            !r.strategies.image_strip.enabled,
            !r.strategies.thinking_strip.enabled,
            !r.strategies.system_shape_normalize.enabled,
            r.summarizer.engine@ == "model-free"@,
            r.summarizer.fallback@.len() == 0,
            r.reprune.enabled,
    {
        Config {
            strategies: StrategiesConfig::default(),
            summarizer: SummarizerConfig::default(),
            reprune: RepruneConfig::default(),
        }
    }
}

} // verus!
