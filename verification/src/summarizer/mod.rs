//! Summaries of old turns: when one is made, what the summarizer is asked, and whether what it says
//! is worth keeping.

use crate::config::{Config, SummarizerConfig};
use crate::json::{copy_all, lemma_views, views, Json, JsonView};
use crate::pairing::paired;
use crate::rewrite::machine;
use crate::strategies::{passage, run, serialized_len, text_len, transcript_len, value_len};
use crate::text::{
    ascii_text, begins, byte_len, chars_of, decimal, decimal_of, has_name, is_ascii, lists, lower,
    lower_char, lower_of, lowercase, occurs, same_text, starts_with, string_of, swap_char,
    swap_char_in, utf8_len,
};
use vstd::prelude::*;
use vstd::slice::slice_subrange;
use vstd::string::StringExecFns;

pub mod api;
pub mod cascade;
pub mod gate;
pub mod harm_check;
pub mod laws;
pub mod local;
pub mod probe;
pub mod purpose;
pub mod slice;

verus! {

/// Why there is no summary.
#[derive(Debug)]
pub enum CompactorError {
    /// The summarizer could not be reached.
    Unreachable(String),
    /// The summarizer took too long.
    Timeout,
    /// The summarizer answered with a status that is no success.
    HttpStatus(u16),
    /// The answer did not have the expected shape.
    Malformed(String),
    /// The answer was empty.
    EmptyResponse,
}

/// Whether a status of an answer says that the request succeeded.
pub open spec fn succeeded(status: u16) -> bool {
    200 <= status < 300
}

/// Tells an answer that succeeded from one that did not, by its status.
pub fn check_status(status: u16) -> (r: Result<(), CompactorError>)
    ensures
        match r {
            Ok(_) => succeeded(status),
            Err(e) => !succeeded(status) && e == CompactorError::HttpStatus(status),
        },
{
    if 200 <= status && status < 300 {
        Ok(())
    } else {
        Err(CompactorError::HttpStatus(status))
    }
}

impl CompactorError {
    /// What the error says.
    pub open spec fn says(&self) -> Seq<char> {
        match self {
            CompactorError::Unreachable(e) => "summarizer backend unreachable: "@ + e@,
            CompactorError::Timeout => "summarizer backend timed out"@,
            CompactorError::HttpStatus(s) => "summarizer backend HTTP "@ + decimal(*s as nat),
            CompactorError::Malformed(e) => "summarizer response malformed: "@ + e@,
            CompactorError::EmptyResponse => "summarizer returned an empty summary"@,
        }
    }

    /// What the error says.
    pub fn message(&self) -> (r: String)
        ensures
            r@ == self.says(),
    {
        match self {
            CompactorError::Unreachable(e) => {
                let mut s = "summarizer backend unreachable: ".to_owned();
                s.append(e);
                s
            },
            CompactorError::Timeout => "summarizer backend timed out".to_owned(),
            CompactorError::HttpStatus(n) => {
                let mut s = "summarizer backend HTTP ".to_owned();
                s.append(&decimal_of(*n as usize));
                s
            },
            CompactorError::Malformed(e) => {
                let mut s = "summarizer response malformed: ".to_owned();
                s.append(e);
                s
            },
            CompactorError::EmptyResponse => "summarizer returned an empty summary".to_owned(),
        }
    }
}

/// The instruction that the summarizer is given.
pub const SUMMARY_SYSTEM_PROMPT: &'static str = "RULES (violations are FAILURES):\n\
1. Copy VERBATIM, character-for-character, never paraphrase: every file path, error code (error[E0277]-style), identifier, port, env var, version, command, number.\n\
2. Output MUST be shorter than the excerpt — aim for ≤25% of its length. Prefer shorter: the main model can re-read files for detail. Drop tool-call boilerplate, progress/log spam, repeated scaffolding, and exploration that led nowhere.\n\
3. Capture the state at the END of the excerpt: NEXT must be what was actually left open/in-progress, not work already completed. If the excerpt ends mid-assistant-turn (the last turn is incomplete), NEXT is what that turn was in the middle of doing.\n\
4. No preamble or closing remarks — start directly with GOAL. Do not reproduce raw tool output. Do not invent anything.\n\
5. Do NOT mark work finished unless the excerpt explicitly shows it completed. Never write 'fixed', 'done', 'resolved', 'implemented', or 'complete' for an item still open or in progress. For a multi-item task (a review queue, a finding list, a checklist), state progress as 'N of M complete' and list EVERY still-open item in NEXT. When unsure whether something finished, treat it as still open.\n\
6. Before writing NEXT, scan the last ~5 assistant turns for any task ANNOUNCED or STARTED with no completing edit/output/confirmation in the excerpt (e.g. 'now I'll…', 'next step…', a file only located/grepped but not yet edited, a 'Task N' just begun): list each in NEXT as still-open — an announced-or-only-located task is OPEN, never done. Do NOT put already-finished work (completed edits, commits, done task-status updates) in NEXT.\n\n\
You are a coding-session compactor. Summarize the excerpt into ONLY these sections (omit any that are empty), terse:\n\
GOAL: <one line — what the coding SESSION is trying to accomplish, NOT a description of this summarization task>\n\
FILES: <ONLY paths an edit/write/create/move actually targeted in this excerpt, each copied verbatim from the text, one per line; never a file merely read, grepped, or referenced; if you cannot copy a path exactly as written, omit it rather than guess a directory or extension>\n\
DECIDED: <decisions made, verbatim identifiers inline>\n\
ERRORS: <error codes/messages, verbatim, or omit>\n\
FACTS: <other exact identifiers, numbers, ports, env vars, versions, commands>\n\
NEXT: <what was about to happen / left open at the end>";

/// The summarizer models that were found good enough.
pub const APPROVED_MODELS: [&'static str; 4] = [
    "qwen3.5:4b",
    "qwen3.5:4b-q8_0",
    "qwen3.5:9b",
    "qwen3.5:2b",
];

/// The summarizer models that were found harmful.
pub const DISQUALIFIED_MODELS: [&'static str; 6] = [
    "granite4.1:3b",
    "granite4.1:8b",
    "qwen2.5-coder:3b",
    "ministral-3:3b",
    "gemma3:4b",
    "qwen3.5:0.8b",
];

/// The approved models of which a user is warned.
pub const WARN_MODELS: [&'static str; 1] = ["qwen3.5:2b"];

/// The beginnings of the names of whole families of models that were found harmful.
pub const DISQUALIFIED_FAMILIES: [&'static str; 1] = ["granite4.1:"];

/// Whether a model was found harmful, by its name or by that of its family.
pub open spec fn disqualified(tag: Seq<char>) -> bool {
    ||| exists|i: int| 0 <= i < 6 && #[trigger] DISQUALIFIED_MODELS@[i]@ == tag
    ||| exists|i: int| 0 <= i < 1 && begins(tag, #[trigger] DISQUALIFIED_FAMILIES@[i]@)
}

/// Whether a model was found harmful.
pub fn is_disqualified(tag: &str) -> (r: bool)
    ensures
        r == disqualified(tag@),
{
    let mut i: usize = 0;
    while i < 6
        invariant
            i <= 6,
            forall|j: int| 0 <= j < i ==> #[trigger] DISQUALIFIED_MODELS@[j]@ != tag@,
        decreases 6 - i,
    {
        if same_text(DISQUALIFIED_MODELS[i], tag) {
            assert(DISQUALIFIED_MODELS@[i as int]@ == tag@);
            return true;
        }
        i = i + 1;
    }
    let hit = starts_with(tag, DISQUALIFIED_FAMILIES[0]);
    assert(hit == begins(tag@, DISQUALIFIED_FAMILIES@[0]@));
    hit
}

/// The models of which a user is warned are approved, and none of them is disqualified.
pub proof fn law_warned_models(i: int)
    requires
        0 <= i < 1,
    ensures
        exists|j: int| 0 <= j < 4 && #[trigger] APPROVED_MODELS@[j]@ == WARN_MODELS@[i]@,
        !disqualified(WARN_MODELS@[i]@),
{
    assert(WARN_MODELS@[0]@ == "qwen3.5:2b"@);
    assert(APPROVED_MODELS@[3]@ == "qwen3.5:2b"@);
    reveal_strlit("qwen3.5:2b");
    reveal_strlit("granite4.1:3b");
    reveal_strlit("granite4.1:8b");
    reveal_strlit("qwen2.5-coder:3b");
    reveal_strlit("ministral-3:3b");
    reveal_strlit("gemma3:4b");
    reveal_strlit("qwen3.5:0.8b");
    reveal_strlit("granite4.1:");
    let t = "qwen3.5:2b"@;
    assert(t[0] == 'q' && t.len() == 10);
    assert(DISQUALIFIED_MODELS@[0]@ == "granite4.1:3b"@);
    assert(DISQUALIFIED_MODELS@[1]@ == "granite4.1:8b"@);
    assert(DISQUALIFIED_MODELS@[2]@ == "qwen2.5-coder:3b"@);
    assert(DISQUALIFIED_MODELS@[3]@ == "ministral-3:3b"@);
    assert(DISQUALIFIED_MODELS@[4]@ == "gemma3:4b"@);
    assert(DISQUALIFIED_MODELS@[5]@ == "qwen3.5:0.8b"@);
    assert(DISQUALIFIED_FAMILIES@[0]@ == "granite4.1:"@);
    assert(t.len() != "granite4.1:3b"@.len() && t.len() != "qwen2.5-coder:3b"@.len() && t.len()
        != "ministral-3:3b"@.len() && t.len() != "gemma3:4b"@.len() && t.len()
        != "qwen3.5:0.8b"@.len() && t.len() != "granite4.1:8b"@.len());
    assert(t.len() < "granite4.1:"@.len());
}

/// What is known of a summarizer model.
#[derive(Debug, Clone, Copy, PartialEq, Eq, Structural)]
pub enum ModelStanding {
    /// It was found harmful and is not asked.
    Disqualified,
    /// It may be asked, but is known to lose facts.
    Weak,
    /// It may be asked.
    Approved,
    /// It may be asked; nothing is known of it.
    Unverified,
}

/// What is known of a model.
pub open spec fn standing(tag: Seq<char>) -> ModelStanding {
    if disqualified(tag) {
        ModelStanding::Disqualified
    } else if exists|i: int| 0 <= i < 1 && #[trigger] WARN_MODELS@[i]@ == tag {
        ModelStanding::Weak
    } else if exists|i: int| 0 <= i < 4 && #[trigger] APPROVED_MODELS@[i]@ == tag {
        ModelStanding::Approved
    } else {
        ModelStanding::Unverified
    }
}

fn in_tags(tags: &[&'static str], tag: &str) -> (r: bool)
    ensures
        r == exists|i: int| 0 <= i < tags@.len() && (#[trigger] tags@[i])@ == tag@,
{
    let mut i: usize = 0;
    while i < tags.len()
        invariant
            i <= tags@.len(),
            forall|j: int| 0 <= j < i ==> (#[trigger] tags@[j])@ != tag@,
        decreases tags@.len() - i,
    {
        if same_text(tags[i], tag) {
            return true;
        }
        i = i + 1;
    }
    false
}

/// Says what is known of a model.
pub fn model_standing(tag: &str) -> (r: ModelStanding)
    ensures
        r == standing(tag@),
{
    if is_disqualified(tag) {
        ModelStanding::Disqualified
    } else if in_tags(&WARN_MODELS, tag) {
        ModelStanding::Weak
    } else if in_tags(&APPROVED_MODELS, tag) {
        ModelStanding::Approved
    } else {
        ModelStanding::Unverified
    }
}

/// What the summarizer is shown, with what it is to do.
pub open spec fn prompt_of(slice_text: Seq<char>) -> Seq<char> {
    "<excerpt>\n"@ + slice_text
        + "\n</excerpt>\n\nCompact the excerpt above into the sections below."@
}

/// Puts together what the summarizer is asked.
pub fn build_prompt(slice_text: &str) -> (r: String)
    ensures
        r@ == prompt_of(slice_text@),
{
    let mut s = "<excerpt>\n".to_owned();
    s.append(slice_text);
    s.append("\n</excerpt>\n\nCompact the excerpt above into the sections below.");
    s
}

/// A text with its ASCII letters in lower case and underscores for hyphens.
pub open spec fn folded(s: Seq<char>) -> Seq<char> {
    swap_char(lower(s), '-', '_')
}

/// A fact as it is compared: in lower case, with underscores for hyphens. What is of ASCII is
/// settled first.
pub open spec fn fact_form(s: Seq<char>) -> Seq<char> {
    lowercase(folded(s))
}

/// Brings a fact into the form in which it is compared.
pub fn normalize_fact(s: &str) -> (r: String)
    ensures
        r@ == fact_form(s@),
{
    let low = lower_of(s);
    let n: usize = low.len();
    assert(low@.subrange(0, n as int) =~= low@);
    swap_char_in(&string_of(&low, 0, n), '-', '_').as_str().to_lowercase()
}

/// Whether a summary keeps a fact.
pub open spec fn keeps_fact(summary: Seq<char>, fact: Seq<char>) -> bool {
    occurs(fact_form(summary), fact_form(fact))
}

/// How many of some facts a summary keeps.
pub open spec fn kept_facts(summary: Seq<char>, facts: Seq<&str>) -> nat
    decreases facts.len(),
{
    if facts.len() == 0 {
        0
    } else {
        kept_facts(summary, facts.drop_last()) + if keeps_fact(summary, facts.last()@) {
            1nat
        } else {
            0nat
        }
    }
}

/// All facts count as kept exactly where a summary keeps each, and none exactly where it keeps
/// none.
pub proof fn law_all_or_none_retained(summary: Seq<char>, facts: Seq<&str>)
    ensures
        kept_facts(summary, facts) <= facts.len(),
        kept_facts(summary, facts) == facts.len() <==> (forall|i: int|
            0 <= i < facts.len() ==> keeps_fact(summary, (#[trigger] facts[i])@)),
        kept_facts(summary, facts) == 0 <==> (forall|i: int|
            0 <= i < facts.len() ==> !keeps_fact(summary, (#[trigger] facts[i])@)),
    decreases facts.len(),
{
    if facts.len() > 0 {
        let init = facts.drop_last();
        let n = facts.len() - 1;
        law_all_or_none_retained(summary, init);
        assert(facts[n] == facts.last());
        assert forall|i: int| 0 <= i < n implies #[trigger] init[i] == facts[i] by {}
        if forall|i: int| 0 <= i < facts.len() ==> keeps_fact(summary, (#[trigger] facts[i])@) {
            assert forall|i: int| 0 <= i < n implies keeps_fact(summary, (#[trigger] init[i])@) by {
                assert(keeps_fact(summary, facts[i]@));
            }
        }
        if forall|i: int| 0 <= i < facts.len() ==> !keeps_fact(summary, (#[trigger] facts[i])@) {
            assert forall|i: int| 0 <= i < n implies !keeps_fact(summary, (#[trigger] init[i])@) by {
                assert(!keeps_fact(summary, facts[i]@));
            }
        }
        if kept_facts(summary, facts) == facts.len() {
            assert forall|i: int| 0 <= i < facts.len() implies keeps_fact(
                summary,
                (#[trigger] facts[i])@,
            ) by {
                if i < n {
                    assert(keeps_fact(summary, init[i]@));
                }
            }
        }
        if kept_facts(summary, facts) == 0 {
            assert forall|i: int| 0 <= i < facts.len() implies !keeps_fact(
                summary,
                (#[trigger] facts[i])@,
            ) by {
                if i < n {
                    assert(!keeps_fact(summary, init[i]@));
                }
            }
        }
    }
}

/// What is kept of two lists of facts is what is kept of each.
pub proof fn law_retention_adds_up(summary: Seq<char>, a: Seq<&str>, b: Seq<&str>)
    ensures
        kept_facts(summary, a + b) == kept_facts(summary, a) + kept_facts(summary, b),
    decreases b.len(),
{
    if b.len() == 0 {
        assert(a + b =~= a);
    } else {
        law_retention_adds_up(summary, a, b.drop_last());
        assert((a + b).drop_last() =~= a + b.drop_last());
    }
}

/// Whether two texts differ only in the case of ASCII letters, and in hyphens for underscores.
pub open spec fn alike(a: Seq<char>, b: Seq<char>) -> bool {
    folded(a) == folded(b)
}

/// Neither the case of ASCII letters nor hyphens for underscores count: where a summary and each
/// fact are alike to others, as many facts are kept.
pub proof fn law_retention_of_alike(
    summary: Seq<char>,
    other: Seq<char>,
    facts: Seq<&str>,
    others: Seq<&str>,
)
    requires
        alike(summary, other),
        facts.len() == others.len(),
        forall|i: int| 0 <= i < facts.len() ==> alike((#[trigger] facts[i])@, others[i]@),
    ensures
        kept_facts(summary, facts) == kept_facts(other, others),
    decreases facts.len(),
{
    if facts.len() > 0 {
        let (f, o) = (facts.drop_last(), others.drop_last());
        assert forall|i: int| 0 <= i < f.len() implies alike((#[trigger] f[i])@, o[i]@) by {
            assert(alike(facts[i]@, others[i]@));
        }
        law_retention_of_alike(summary, other, f, o);
        assert(alike(facts[facts.len() - 1]@, others[facts.len() - 1]@));
    }
}

/// Texts are alike where one is the other with the case of one ASCII letter changed, or a hyphen for
/// an underscore or the other way round.
pub proof fn law_alike(a: Seq<char>, i: int, c: char)
    requires
        0 <= i < a.len(),
        lower_char(c) == lower_char(a[i]) || ((c == '-' || c == '_') && (a[i] == '-' || a[i] == '_')),
    ensures
        alike(a, a.update(i, c)),
{
    assert(folded(a) =~= folded(a.update(i, c)));
}

/// Of a text of ASCII alone, the form is the text in lower case with underscores for hyphens.
pub proof fn law_ascii_fact_form(s: Seq<char>)
    requires
        ascii_text(s),
    ensures
        fact_form(s) == swap_char(lowercase(s), '-', '_'),
{
    let f = folded(s);
    assert forall|i: int| 0 <= i < f.len() implies is_ascii(#[trigger] f[i]) && lower_char(f[i])
        == f[i] by {
        assert(is_ascii(s[i]));
    }
    assert(lower(f) =~= f);
}

/// Says how many of some facts a summary keeps, and how many there are.
pub fn fact_retention(summary: &str, needles: &[&str]) -> (r: (usize, usize))
    ensures
        r.0 == kept_facts(summary@, needles@),
        r.1 == needles@.len(),
        r.0 <= r.1,
{
    let hay = chars_of(&normalize_fact(summary));
    let mut kept: usize = 0;
    let mut i: usize = 0;
    assert(needles@.take(0) =~= Seq::empty());
    while i < needles.len()
        invariant
            i <= needles@.len(),
            hay@ == fact_form(summary@),
            kept == kept_facts(summary@, needles@.take(i as int)),
            kept <= i,
        decreases needles@.len() - i,
    {
        assert(needles@.take(i + 1).drop_last() =~= needles@.take(i as int));
        assert(needles@.take(i + 1).last() == needles@[i as int]);
        if crate::text::has_part(&hay, &normalize_fact(needles[i])) {
            kept = kept + 1;
        }
        i = i + 1;
    }
    assert(needles@.take(i as int) =~= needles@);
    (kept, needles.len())
}

/// The largest context that is ever asked of a local summarizer.
pub const MAX_NUM_CTX_CEILING: u64 = 131072;

/// The longest summary that is ever asked of a local summarizer, in tokens.
pub const MAX_NUM_PREDICT: u64 = 4096;

/// The size of what a summarizer behind a provider's interface is shown, in bytes.
pub const API_SLICE_CHAR_BUDGET: usize = 131072;

/// By how many bytes a summary may be larger than what it stands for, at most.
pub const MAX_SUMMARY_GROWTH_BYTES: usize = 16384;

/// A number brought within bounds.
pub open spec fn clamp(n: int, low: int, high: int) -> int {
    if n < low {
        low
    } else if n > high {
        high
    } else {
        n
    }
}

fn clamp_u64(n: u64, low: u64, high: u64) -> (r: u64)
    requires
        low <= high,
    ensures
        r == clamp(n as int, low as int, high as int),
{
    if n < low {
        low
    } else if n > high {
        high
    } else {
        n
    }
}

/// How long a summary may become: a quarter of the context, within bounds.
pub fn num_predict_for(num_ctx: u64) -> (r: u64)
    ensures
        r == clamp(num_ctx as int / 4, 200, MAX_NUM_PREDICT as int),
{
    clamp_u64(num_ctx / 4, 200, MAX_NUM_PREDICT)
}

/// The size of what a local summarizer is shown, in bytes: as much as fits its context.
pub open spec fn local_budget(max_num_ctx: int) -> int {
    clamp(max_num_ctx, 4096, MAX_NUM_CTX_CEILING as int) * 5 / 2 - 2000
}

/// The size of what a local summarizer is shown, in bytes.
pub fn local_char_budget(max_num_ctx: u64) -> (r: usize)
    ensures
        r == local_budget(max_num_ctx as int),
{
    let c: usize = clamp_u64(max_num_ctx, 4096, MAX_NUM_CTX_CEILING) as usize;
    c * 5 / 2 - 2000
}

/// Whether the local summarizer can come to be asked.
pub open spec fn local_in_chain(s: &SummarizerConfig) -> bool {
    s.engine@ == "local"@ || lists(s.fallback@, "local"@)
}

/// Whether the local summarizer can come to be asked.
pub fn has_local(s: &SummarizerConfig) -> (r: bool)
    ensures
        r == local_in_chain(s),
{
    same_text(&s.engine, "local") || has_name(&s.fallback, "local")
}

/// The size of what the summarizer is shown, in bytes: what the settings say, else what fits the
/// one with the least room that can come to be asked.
pub open spec fn char_budget(s: &SummarizerConfig) -> int {
    match s.slice_char_budget {
        Some(b) => b as int,
        None => if local_in_chain(s) {
            local_budget(s.local.max_num_ctx as int)
        } else {
            API_SLICE_CHAR_BUDGET as int
        },
    }
}

/// The size of what the summarizer is shown, in bytes.
pub fn effective_char_budget(s: &SummarizerConfig) -> (r: usize)
    ensures
        r == char_budget(s),
{
    match s.slice_char_budget {
        Some(b) => b,
        None => if has_local(s) {
            local_char_budget(s.local.max_num_ctx)
        } else {
            API_SLICE_CHAR_BUDGET
        },
    }
}

/// The context that a local summarizer needs for a prompt of some bytes: two tokens for five bytes,
/// rounded up, within bounds.
pub fn num_ctx_for(prompt_len: usize, max_num_ctx: u64) -> (r: u64)
    ensures
        r == clamp(
            (2 * prompt_len + 4) / 5,
            4096,
            clamp(max_num_ctx as int, 4096, MAX_NUM_CTX_CEILING as int),
        ),
{
    let high: u64 = clamp_u64(max_num_ctx, 4096, MAX_NUM_CTX_CEILING);
    let want: u128 = (2 * prompt_len as u128 + 4) / 5;
    if want < 4096 {
        4096
    } else if want > high as u128 {
        high
    } else {
        want as u64
    }
}

/// Whether the summarizer is in use: one is set, and what it says can be carried from turn to turn.
pub fn engages(config: &Config) -> (r: bool)
    ensures
        r == (config.summarizer.engine@ != "model-free"@ && config.reprune.enabled),
{
    !same_text(&config.summarizer.engine, "model-free") && config.reprune.enabled
}

/// The size of a value as it counts toward the shares: of a text its bytes, of anything else the
/// bytes of its compact text.
pub open spec fn raw_size(v: JsonView) -> nat {
    match v.as_str() {
        Some(s) => utf8_len(s),
        None => text_len(v),
    }
}

/// The size of a block as it counts toward the shares: that of its text, else of its content, else
/// of its input.
pub open spec fn block_size(b: JsonView) -> nat {
    match b.get_str("text"@) {
        Some(s) => utf8_len(s),
        None => match b.get("content"@) {
            Some(v) => raw_size(v),
            None => match b.get("input"@) {
                Some(v) => raw_size(v),
                None => 0,
            },
        },
    }
}

/// The size of some blocks; of those of one type only, where one is given.
pub open spec fn blocks_size(blocks: Seq<JsonView>, tool_results: bool) -> nat
    decreases blocks.len(),
{
    if blocks.len() == 0 {
        0
    } else {
        blocks_size(blocks.drop_last(), tool_results) + if !tool_results
            || crate::pairing::has_type(blocks.last(), "tool_result"@) {
            block_size(blocks.last())
        } else {
            0
        }
    }
}

/// The size of a message, or of the tool results in it.
pub open spec fn message_size(m: JsonView, tool_results: bool) -> nat {
    match m.get("content"@) {
        Some(JsonView::String(s)) => if tool_results {
            0
        } else {
            utf8_len(s)
        },
        Some(JsonView::Array(blocks)) => blocks_size(blocks, tool_results),
        _ => 0,
    }
}

/// The size of some messages, or of the tool results in them.
pub open spec fn total_size(messages: Seq<JsonView>, tool_results: bool) -> nat
    decreases messages.len(),
{
    if messages.len() == 0 {
        0
    } else {
        total_size(messages.drop_last(), tool_results) + message_size(messages.last(), tool_results)
    }
}

/// How much of some messages is tool results: their size and the whole, in bytes.
pub struct Share {
    pub tool: usize,
    pub total: usize,
}

impl Share {
    /// Whether this is the share of tool results in some messages.
    pub open spec fn of(&self, messages: Seq<JsonView>) -> bool {
        self.tool == machine(total_size(messages, true)) && self.total == machine(
            total_size(messages, false),
        )
    }

    /// Whether the tool results take more than `num` parts in `den` of the whole.
    pub fn exceeds(&self, num: u32, den: u32) -> (r: bool)
        ensures
            r == share_exceeds(self.tool as int, self.total as int, num as int, den as int),
    {
        proof {
            assert(self.tool * den <= 0xffff_ffff_ffff_ffff * 0xffff_ffff) by (nonlinear_arith)
                requires
                    self.tool <= 0xffff_ffff_ffff_ffff,
                    den <= 0xffff_ffff,
            ;
            assert(self.total * num <= 0xffff_ffff_ffff_ffff * 0xffff_ffff) by (nonlinear_arith)
                requires
                    self.total <= 0xffff_ffff_ffff_ffff,
                    num <= 0xffff_ffff,
            ;
        }
        self.total > 0 && self.tool as u128 * den as u128 > self.total as u128 * num as u128
    }
}

/// Whether a part is more than `num` parts in `den` of a whole. Nothing is part of an empty whole.
pub open spec fn share_exceeds(part: int, whole: int, num: int, den: int) -> bool {
    whole > 0 && part * den > whole * num
}

/// Whether the tool results take more than `num` parts in `den` of some messages.
pub open spec fn tool_heavy(messages: Seq<JsonView>, num: int, den: int) -> bool {
    share_exceeds(
        machine(total_size(messages, true)) as int,
        machine(total_size(messages, false)) as int,
        num,
        den,
    )
}

fn size_of_value(v: &Json) -> (r: usize)
    ensures
        r == raw_size(v@),
{
    match v.as_str() {
        Some(s) => byte_len(s),
        None => value_len(v),
    }
}

fn size_of_block(b: &Json) -> (r: usize)
    ensures
        r == block_size(b@),
{
    match b.get_str("text") {
        Some(s) => byte_len(s),
        None => match b.get("content") {
            Some(v) => size_of_value(v),
            None => match b.get("input") {
                Some(v) => size_of_value(v),
                None => 0,
            },
        },
    }
}

fn share_of_blocks(blocks: &Vec<Json>) -> (r: Share)
    ensures
        r.tool == machine(blocks_size(views(blocks@), true)),
        r.total == machine(blocks_size(views(blocks@), false)),
{
    let ghost all = views(blocks@);
    let mut tool: usize = 0;
    let mut total: usize = 0;
    let mut i: usize = 0;
    assert(all.take(0) =~= Seq::empty());
    while i < blocks.len()
        invariant
            i <= blocks@.len(),
            all == views(blocks@),
            tool == machine(blocks_size(all.take(i as int), true)),
            total == machine(blocks_size(all.take(i as int), false)),
        decreases blocks@.len() - i,
    {
        proof {
            lemma_views(blocks@);
            assert(all.take(i + 1).drop_last() =~= all.take(i as int));
            assert(all.take(i + 1).last() == all[i as int]);
        }
        let n: usize = size_of_block(&blocks[i]);
        total = total.saturating_add(n);
        if blocks[i].member_is("type", "tool_result") {
            tool = tool.saturating_add(n);
        }
        i = i + 1;
    }
    proof {
        lemma_views(blocks@);
        assert(all.take(i as int) =~= all);
    }
    Share { tool, total }
}

/// Measures how much of some messages is tool results.
pub fn tool_result_share(slice: &[Json]) -> (r: Share)
    ensures
        r.of(views(slice@)),
{
    let ghost all = views(slice@);
    let mut tool: usize = 0;
    let mut total: usize = 0;
    let mut i: usize = 0;
    assert(all.take(0) =~= Seq::empty());
    while i < slice.len()
        invariant
            i <= slice@.len(),
            all == views(slice@),
            tool == machine(total_size(all.take(i as int), true)),
            total == machine(total_size(all.take(i as int), false)),
        decreases slice@.len() - i,
    {
        proof {
            lemma_views(slice@);
            assert(all.take(i + 1).drop_last() =~= all.take(i as int));
            assert(all.take(i + 1).last() == all[i as int]);
        }
        match slice[i].get("content") {
            Some(content) => match content {
                Json::String(s) => {
                    total = total.saturating_add(byte_len(s));
                },
                Json::Array(blocks) => {
                    let share = share_of_blocks(blocks);
                    tool = tool.saturating_add(share.tool);
                    total = total.saturating_add(share.total);
                },
                _ => {},
            },
            None => {},
        }
        i = i + 1;
    }
    proof {
        lemma_views(slice@);
        assert(all.take(i as int) =~= all);
    }
    Share { tool, total }
}

/// A transcript after all strategies; one that they refuse as it is.
pub open spec fn model_free(messages: Seq<JsonView>, cfg: &Config) -> Seq<JsonView> {
    if paired(messages) {
        passage(messages, &cfg.strategies).messages
    } else {
        messages
    }
}

/// The size that the messages `start..end` have after all strategies.
pub open spec fn pruned_size(messages: Seq<JsonView>, start: int, end: int, cfg: &Config) -> nat {
    transcript_len(model_free(messages, cfg).subrange(start, end))
}

/// Whether a summary of some size may take the place of a region of another size. The ratio is in
/// thousandths; up to one whole, the summary must be smaller.
pub open spec fn size_accepted(summary: nat, region: nat, ratio: int) -> bool {
    if ratio <= 1000 {
        summary < region
    } else {
        summary <= region * ratio / 1000 && summary <= region + MAX_SUMMARY_GROWTH_BYTES
    }
}

fn accepts_size(summary: usize, region: usize, ratio: u64) -> (r: bool)
    ensures
        r == size_accepted(summary as nat, region as nat, ratio as int),
{
    if ratio <= 1000 {
        return summary < region;
    }
    proof {
        assert(region * ratio <= 0xffff_ffff_ffff_ffff * 0xffff_ffff_ffff_ffff) by (nonlinear_arith)
            requires
                region <= 0xffff_ffff_ffff_ffff,
                ratio <= 0xffff_ffff_ffff_ffff,
        ;
    }
    let cap: u128 = region as u128 * ratio as u128 / 1000;
    summary as u128 <= cap && summary as u128 <= region as u128 + MAX_SUMMARY_GROWTH_BYTES as u128
}

/// The size that the messages `start..end` have after all strategies.
fn size_pruned(messages: &Vec<Json>, start: usize, end: usize, cfg: &Config) -> (r: usize)
    requires
        start <= end <= messages@.len(),
    ensures
        r == pruned_size(views(messages@), start as int, end as int, cfg),
{
    let ghost all = views(messages@);
    let mut full = copy_all(messages);
    let _ = run(&mut full, cfg);
    proof {
        lemma_views(messages@);
        crate::strategies::law_passage_keeps(all, &cfg.strategies);
        lemma_views(full@);
        assert(views(full@) == model_free(all, cfg));
    }
    let part = slice_subrange(full.as_slice(), start, end);
    proof {
        lemma_views(part@);
        assert(views(part@) =~= model_free(all, cfg).subrange(start as int, end as int));
    }
    serialized_len(part)
}

/// Whether a summary of the messages `start..end` is worth keeping: whether it is small enough
/// beside what the strategies make of them.
pub fn summary_is_smaller(
    summary_msgs: &[Json],
    messages: &Vec<Json>,
    start: usize,
    end: usize,
    cfg: &Config,
) -> (r: bool)
    ensures
        r == (start < end <= messages@.len() && size_accepted(
            transcript_len(views(summary_msgs@)),
            pruned_size(views(messages@), start as int, end as int, cfg),
            cfg.summarizer.accept_ratio as int,
        )),
{
    if start >= end || end > messages.len() {
        return false;
    }
    accepts_size(
        serialized_len(summary_msgs),
        size_pruned(messages, start, end, cfg),
        cfg.summarizer.accept_ratio,
    )
}

/// At the strict ratio a summary that is kept is smaller than what it stands for; at any ratio it
/// is larger by no more than a fixed number of bytes.
pub proof fn law_size_accepted(summary: nat, region: nat, ratio: int)
    requires
        size_accepted(summary, region, ratio),
    ensures
        ratio <= 1000 ==> summary < region,
        summary <= region + MAX_SUMMARY_GROWTH_BYTES,
{
}

} // verus!
