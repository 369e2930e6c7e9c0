//! Whether to summarize, what, and what becomes of a summary.

use super::laws::{in_order, uncorrected};
use super::slice::{
    anchor_matches, cap_slice_at_override, cap_slice_end, cap_slice_start, chain_end, dense_start,
    densify_start, fitting_start, is_end_cap, law_dense_start, law_override_kept,
    law_selected_bounds, override_cap, select_slice, selected, serialize_slice, shown, summary_pair,
    SummaryDecision, REASONING_BLOCK_CAP, TOOL_RESULT_BLOCK_CAP,
};
use super::{
    build_prompt, char_budget, disqualified, effective_char_budget, is_disqualified, local_in_chain,
    prompt_of, pruned_size, size_accepted, summary_is_smaller, tool_heavy, tool_result_share,
};
use crate::config::{Config, SummarizerConfig};
use crate::json::{lemma_views, parsed_json, views, Json, JsonView};
use crate::strategies::{has_role, serialized_len, transcript_len};
use crate::text::{has_name, lists, same_text};
use vstd::prelude::*;
use vstd::slice::slice_subrange;

verus! {

/// What is known of the summaries of a session.
pub struct SummaryState {
    /// Whether a first checkpoint has been taken.
    pub initialized: bool,
    /// Whether a summary is being made.
    pub in_flight: bool,
    /// How many messages the last checkpoint covers.
    pub checkpoint_len: usize,
    /// Where the summaries end, if there are any.
    pub summary_end: Option<usize>,
    /// Whether what they were made from is still there.
    pub anchored: bool,
    /// How many there are.
    pub segments: usize,
}

/// Which attempt to summarize is under way, if any. Each has a number of its own.
#[derive(Debug, Clone, Copy, PartialEq, Eq, Structural)]
pub struct SummarySlot {
    pub active: Option<u64>,
}

impl SummarySlot {
    /// No attempt is under way.
    pub fn new() -> (r: SummarySlot)
        ensures
            r.active is None,
    {
        SummarySlot { active: None }
    }

    /// An attempt begins.
    pub fn begin(&mut self, epoch: u64)
        ensures
            final(self).active == Some(epoch),
    {
        self.active = Some(epoch);
    }

    /// Whether an attempt is under way.
    pub fn in_flight(&self) -> (r: bool)
        ensures
            r == (self.active is Some),
    {
        self.active.is_some()
    }

    /// Whether it is this attempt that is under way.
    pub fn is_active(&self, epoch: u64) -> (r: bool)
        ensures
            r == (self.active == Some(epoch)),
    {
        match self.active {
            Some(e) => e == epoch,
            None => false,
        }
    }

    /// The attempt ends, if it is the one that is under way; any other is left alone.
    pub fn end_if(&mut self, epoch: u64)
        ensures
            final(self).active == if old(self).active == Some(epoch) {
                None
            } else {
                old(self).active
            },
    {
        if self.is_active(epoch) {
            self.active = None;
        }
    }
}

/// Whether there are summaries and what each was made from is still there.
pub open spec fn all_anchored(chain: Seq<SummaryDecision>, messages: Seq<JsonView>) -> bool {
    chain.len() > 0 && forall|i: int| 0 <= i < chain.len() ==> (#[trigger] chain[i]).anchored(messages)
}

/// The summaries of a session.
pub struct SessionSummaries {
    /// Whether a first checkpoint has been taken.
    pub initialized: bool,
    /// How many messages the last checkpoint covers.
    pub checkpoint_len: usize,
    /// The attempt that is under way.
    pub slot: SummarySlot,
    /// The summaries, first to last.
    pub chain: Vec<SummaryDecision>,
}

impl SessionSummaries {
    /// A session without checkpoint and without summaries.
    pub fn new() -> (r: SessionSummaries)
        ensures
            !r.initialized,
            r.checkpoint_len == 0,
            r.slot.active is None,
            r.chain@.len() == 0,
    {
        SessionSummaries {
            initialized: false,
            checkpoint_len: 0,
            slot: SummarySlot::new(),
            chain: Vec::new(),
        }
    }

    /// What is known of the session, given its messages.
    pub open spec fn state(&self, messages: Seq<JsonView>) -> SummaryState {
        SummaryState {
            initialized: self.initialized,
            in_flight: self.slot.active is Some,
            checkpoint_len: self.checkpoint_len,
            summary_end: if self.chain@.len() > 0 {
                Some(self.chain@.last().end)
            } else {
                None
            },
            anchored: all_anchored(self.chain@, messages),
            segments: self.chain@.len() as usize,
        }
    }

    /// Says what is known of the session, given its messages.
    pub fn state_for(&self, messages: &[Json]) -> (r: SummaryState)
        ensures
            r == self.state(views(messages@)),
    {
        let n: usize = self.chain.len();
        let mut anchored = n > 0;
        let mut i: usize = 0;
        while i < n
            invariant
                i <= n,
                n == self.chain@.len(),
                anchored == (n > 0 && forall|j: int|
                    0 <= j < i ==> (#[trigger] self.chain@[j]).anchored(views(messages@))),
            decreases n - i,
        {
            if !anchor_matches(messages, &self.chain[i]) {
                anchored = false;
            }
            i = i + 1;
        }
        let summary_end: Option<usize> = if n > 0 {
            Some(self.chain[n - 1].end)
        } else {
            None
        };
        SummaryState {
            initialized: self.initialized,
            in_flight: self.slot.in_flight(),
            checkpoint_len: self.checkpoint_len,
            summary_end,
            anchored,
            segments: n,
        }
    }

    /// Takes a summary in: behind the others if it is to go there and begins where they end, else
    /// in their place. Says whether it went behind them.
    pub fn install(&mut self, d: SummaryDecision, append: bool) -> (r: bool)
        ensures
            r == (append && old(self).chain@.len() > 0 && old(self).chain@.last().end == d.start),
            final(self).chain@ == if r {
                old(self).chain@.push(d)
            } else {
                seq![d]
            },
            final(self).slot == old(self).slot,
            final(self).initialized == old(self).initialized,
            final(self).checkpoint_len == old(self).checkpoint_len,
            in_order(old(self).chain@) && d.start < d.end ==> in_order(final(self).chain@),
    {
        let ghost before = self.chain@;
        let ghost forward = d.start < d.end;
        let n: usize = self.chain.len();
        let follows = append && n > 0 && self.chain[n - 1].end == d.start;
        if !follows {
            self.chain = Vec::new();
        }
        self.chain.push(d);
        assert(follows || self.chain@ =~= seq![d]);
        proof {
            if in_order(before) && forward {
                assert forall|i: int| 0 <= i < self.chain@.len() implies {
                    &&& (#[trigger] self.chain@[i]).start < self.chain@[i].end
                    &&& chain_end(self.chain@, i) <= self.chain@[i].start
                } by {
                    if follows && i < before.len() {
                        assert(self.chain@[i] == before[i]);
                        assert(chain_end(self.chain@, i) == chain_end(before, i));
                    }
                }
            }
        }
        follows
    }

    /// Records how an attempt ended, unless another has taken its place: takes the summary in if
    /// there is one worth it. Gives the letter for the outcome, and whether a full chain gave way
    /// to a single summary.
    pub fn conclude(
        &mut self,
        epoch: u64,
        append: bool,
        outcome: SummaryOutcome,
        cfg: &SummarizerConfig,
    ) -> (r: Option<(char, bool)>)
        ensures
            final(self).slot == old(self).slot,
            final(self).initialized == old(self).initialized,
            final(self).checkpoint_len == old(self).checkpoint_len,
            in_order(old(self).chain@) && (outcome matches SummaryOutcome::Accepted(d) ==> d.start
                < d.end) ==> in_order(final(self).chain@),
            old(self).slot.active != Some(epoch) ==> r is None && final(self).chain@ == old(
                self,
            ).chain@,
            old(self).slot.active == Some(epoch) ==> match outcome {
                SummaryOutcome::Accepted(d) => {
                    let behind = append && old(self).chain@.len() > 0 && old(self).chain@.last().end
                        == d.start;
                    &&& final(self).chain@ == if behind {
                        old(self).chain@.push(d)
                    } else {
                        seq![d]
                    }
                    &&& r == Some(
                        (
                            'a',
                            !behind && cfg.accumulator && old(self).chain@.len()
                                >= cfg.max_summary_segments,
                        ),
                    )
                },
                SummaryOutcome::Rejected => r == Some(('r', false)) && final(self).chain@ == old(
                    self,
                ).chain@,
                SummaryOutcome::Failed => r == Some(('e', false)) && final(self).chain@ == old(
                    self,
                ).chain@,
            },
    {
        if !self.slot.is_active(epoch) {
            return None;
        }
        let code = outcome_code(&outcome);
        match outcome {
            SummaryOutcome::Accepted(d) => {
                let before: usize = self.chain.len();
                let appended = self.install(d, append);
                Some((code, chain_collapses(cfg, appended, before)))
            },
            _ => Some((code, false)),
        }
    }
}

/// What to summarize.
#[derive(Debug, Clone, Copy, PartialEq, Eq, Structural)]
pub struct SummaryJob {
    pub start: usize,
    pub end: usize,
    /// Whether the summary goes behind the others; else it takes their place.
    pub append: bool,
}

/// Whether a request is large enough, and the summarizer in use.
pub open spec fn wanted(cfg: &Config, body_len: int) -> bool {
    cfg.summarizer.engine@ != "model-free"@ && cfg.reprune.enabled && body_len
        > cfg.summarizer.trigger_bytes
}

/// Where a summary up to `end` begins that the summarizer can be shown whole.
pub open spec fn capped_start(messages: Seq<JsonView>, s: &SummarizerConfig, start: int, end: int) -> int {
    match fitting_start(
        messages,
        start,
        end,
        REASONING_BLOCK_CAP as nat,
        TOOL_RESULT_BLOCK_CAP as nat,
        char_budget(s) as nat,
    ) {
        Some(i) => i,
        None => start,
    }
}

/// Where a summary from `start` on must end so that a correction, and what follows it, stays as it
/// is; none where that leaves too little.
pub open spec fn protected_end(messages: Seq<JsonView>, start: int, end: int) -> Option<int> {
    let e = override_cap(messages, start, end);
    if e < start + 4 {
        None
    } else {
        Some(e)
    }
}

/// The messages that a summary could be of, up to `max_end`: those that are selected, from where on
/// the summarizer can be shown them whole, and up to the first correction.
pub open spec fn chosen(messages: Seq<JsonView>, s: &SummarizerConfig, max_end: int) -> Option<
    (int, int),
> {
    match selected(messages, s.keep_recent_turns as nat, max_end) {
        Some((first, end)) => {
            let start = capped_start(messages, s, first, end);
            match protected_end(messages, start, end) {
                Some(e) => Some((start, e)),
                None => None,
            }
        },
        None => None,
    }
}

/// Whether enough has been added since the last summary. One that has lost its anchor does not
/// count.
pub open spec fn grown(
    messages: Seq<JsonView>,
    s: &SummarizerConfig,
    state: &SummaryState,
    end: int,
) -> bool {
    match state.summary_end {
        Some(prev) => {
            let added = if end > prev {
                transcript_len(messages.subrange(prev as int, end))
            } else {
                0
            };
            !state.anchored || added >= s.resummarize_after_bytes
        },
        None => true,
    }
}

/// Whether the next summary is to go behind the others, up to `e`.
pub open spec fn appends_to(
    messages: Seq<JsonView>,
    s: &SummarizerConfig,
    state: &SummaryState,
    end: int,
    e: int,
) -> bool {
    &&& s.accumulator
    &&& state.anchored
    &&& state.segments < s.max_summary_segments
    &&& state.summary_end matches Some(prev) && end > prev + 4 && is_end_cap(
        messages,
        prev as int,
        end,
        REASONING_BLOCK_CAP as nat,
        TOOL_RESULT_BLOCK_CAP as nat,
        char_budget(s) as nat,
        e,
    ) && e >= prev + 4
}

/// Whether a provider that the settings hold can come to be asked.
pub open spec fn api_in_chain(s: &SummarizerConfig) -> bool {
    exists|i: int|
        0 <= i < s.providers@.len() && (s.engine@ == (#[trigger] s.providers@[i]).id@ || lists(
            s.fallback@,
            s.providers@[i].id@,
        ))
}

/// Whether there is a summarizer to ask: not where the local one is the only one and its model is
/// disqualified.
pub open spec fn has_summarizer(s: &SummarizerConfig) -> bool {
    !(local_in_chain(s) && disqualified(s.local.model@) && !api_in_chain(s))
}

/// Where a summary that is not to go behind others begins, up to `end`: where it would, unless that
/// is heavy with tool results; then at the first place that is clearly not.
pub open spec fn dense_or_same(messages: Seq<JsonView>, start: int, end: int) -> Option<int> {
    if tool_heavy(messages.subrange(start, end), 3, 5) {
        dense_start(messages, start, end, 1, 2, 0)
    } else {
        Some(start)
    }
}

/// Whether what is to be summarized is the right thing.
pub open spec fn job_right(
    messages: Seq<JsonView>,
    cfg: &Config,
    state: &SummaryState,
    job: Option<SummaryJob>,
) -> bool {
    let s = &cfg.summarizer;
    let due = state.initialized && !state.in_flight && has_summarizer(s);
    match chosen(messages, s, state.checkpoint_len as int) {
        Some((start, end)) => {
            if !due || !grown(messages, s, state, end) {
                job is None
            } else if exists|e: int| appends_to(messages, s, state, end, e) {
                let prev = state.summary_end->0;
                exists|e: int|
                    #[trigger] appends_to(messages, s, state, end, e) && job == match protected_end(
                        messages,
                        prev as int,
                        e,
                    ) {
                        Some(x) => if tool_heavy(messages.subrange(prev as int, x), 3, 5) {
                            None::<SummaryJob>
                        } else {
                            Some(SummaryJob { start: prev, end: x as usize, append: true })
                        },
                        None => None,
                    }
            } else {
                match dense_or_same(messages, start, end) {
                    Some(at) => job == Some(
                        SummaryJob { start: at as usize, end: end as usize, append: false },
                    ),
                    None => job is None,
                }
            }
        },
        None => job is None,
    }
}

/// Where a beginning that fits is found, it is a turn of the assistant behind the first place
/// looked at and four messages or more before the end.
pub proof fn lemma_fitting_start(
    messages: Seq<JsonView>,
    i: int,
    end: int,
    reasoning_cap: nat,
    tool_result_cap: nat,
    budget: nat,
)
    ensures
        fitting_start(messages, i, end, reasoning_cap, tool_result_cap, budget) matches Some(s)
            ==> i <= s && s + 4 <= end && has_role(messages[s], "assistant"@),
    decreases end - i,
{
    if i + 4 <= end {
        lemma_fitting_start(messages, i + 1, end, reasoning_cap, tool_result_cap, budget);
    }
}

fn provider_in_chain(s: &SummarizerConfig) -> (r: bool)
    ensures
        r == api_in_chain(s),
{
    let mut i: usize = 0;
    while i < s.providers.len()
        invariant
            i <= s.providers@.len(),
            forall|j: int|
                0 <= j < i ==> !(s.engine@ == (#[trigger] s.providers@[j]).id@ || lists(
                    s.fallback@,
                    s.providers@[j].id@,
                )),
        decreases s.providers@.len() - i,
    {
        if same_text(&s.engine, &s.providers[i].id) || has_name(&s.fallback, &s.providers[i].id) {
            return true;
        }
        i = i + 1;
    }
    false
}

fn is_heavy(messages: &[Json], start: usize, end: usize) -> (r: bool)
    requires
        start <= end <= messages@.len(),
    ensures
        r == tool_heavy(views(messages@).subrange(start as int, end as int), 3, 5),
{
    let part = slice_subrange(messages, start, end);
    proof {
        lemma_views(messages@);
        lemma_views(part@);
        assert(views(part@) =~= views(messages@).subrange(start as int, end as int));
    }
    tool_result_share(part).exceeds(3, 5)
}

fn has_grown(messages: &[Json], s: &SummarizerConfig, state: &SummaryState, end: usize) -> (r: bool)
    requires
        end <= messages@.len(),
    ensures
        r == grown(views(messages@), s, state, end as int),
{
    match state.summary_end {
        Some(prev) => {
            if !state.anchored {
                return true;
            }
            let added: usize = if end > prev {
                let part = slice_subrange(messages, prev, end);
                proof {
                    lemma_views(messages@);
                    lemma_views(part@);
                    assert(views(part@) =~= views(messages@).subrange(prev as int, end as int));
                }
                serialized_len(part)
            } else {
                0
            };
            added >= s.resummarize_after_bytes
        },
        None => true,
    }
}

/// Where the next summary ends, if it is to go behind the others.
fn append_end(messages: &[Json], s: &SummarizerConfig, state: &SummaryState, end: usize) -> (r:
    Option<usize>)
    requires
        end <= messages@.len(),
    ensures
        match r {
            Some(e) => appends_to(views(messages@), s, state, end as int, e as int) && e
                <= messages@.len(),
            None => forall|e: int| !appends_to(views(messages@), s, state, end as int, e),
        },
{
    if !s.accumulator || !state.anchored || state.segments >= s.max_summary_segments {
        return None;
    }
    match state.summary_end {
        Some(prev) => {
            if end <= prev || end - prev <= 4 {
                return None;
            }
            let e: usize = cap_slice_end(
                messages,
                prev,
                end,
                REASONING_BLOCK_CAP,
                TOOL_RESULT_BLOCK_CAP,
                effective_char_budget(s),
            );
            let ghost all = views(messages@);
            proof {
                lemma_views(messages@);
                lemma_end_cap_unique(all, prev as int, end as int, REASONING_BLOCK_CAP as nat, TOOL_RESULT_BLOCK_CAP as nat, char_budget(s) as nat, e as int);
            }
            if e < prev + 4 {
                return None;
            }
            Some(e)
        },
        None => None,
    }
}

/// There is one place where a summary is to end.
proof fn lemma_end_cap_unique(
    messages: Seq<JsonView>,
    start: int,
    max_end: int,
    reasoning_cap: nat,
    tool_result_cap: nat,
    budget: nat,
    e: int,
)
    requires
        is_end_cap(messages, start, max_end, reasoning_cap, tool_result_cap, budget, e),
    ensures
        e == start || (start + 4 <= e <= max_end && e < messages.len()),
        forall|x: int|
            #[trigger] is_end_cap(messages, start, max_end, reasoning_cap, tool_result_cap, budget, x)
                ==> x == e,
{
}

/// Chooses the messages that a summary could be of, up to `max_end`.
fn choose_slice(messages: &[Json], s: &SummarizerConfig, max_end: usize) -> (r: Option<
    (usize, usize),
>)
    ensures
        super::slice::opt_pair(r) == chosen(views(messages@), s, max_end as int),
        r matches Some((start, end)) ==> start + 4 <= end <= messages@.len() && uncorrected(
            views(messages@),
            start as int,
            end as int,
        ),
{
    let ghost all = views(messages@);
    proof {
        lemma_views(messages@);
        law_selected_bounds(all, s.keep_recent_turns as nat, max_end as int);
    }
    let (first, end) = match select_slice(messages, s.keep_recent_turns, max_end) {
        Some(found) => found,
        None => return None,
    };
    let start: usize = cap_slice_start(
        messages,
        first,
        end,
        REASONING_BLOCK_CAP,
        TOOL_RESULT_BLOCK_CAP,
        effective_char_budget(s),
    );
    proof {
        lemma_fitting_start(
            all,
            first as int,
            end as int,
            REASONING_BLOCK_CAP as nat,
            TOOL_RESULT_BLOCK_CAP as nat,
            char_budget(s) as nat,
        );
        law_override_kept(all, start as int, end as int);
    }
    let e: usize = cap_slice_at_override(messages, start, end);
    if e < start || e - start < 4 {
        None
    } else {
        Some((start, e))
    }
}

/// Decides whether to summarize, and what.
pub fn decide_summary(messages: &[Json], cfg: &Config, state: &SummaryState) -> (r: Option<
    SummaryJob,
>)
    ensures
        job_right(views(messages@), cfg, state, r),
        r matches Some(job) ==> job.start < job.end <= messages@.len() && uncorrected(
            views(messages@),
            job.start as int,
            job.end as int,
        ),
{
    let s = &cfg.summarizer;
    let ghost all = views(messages@);
    proof {
        lemma_views(messages@);
    }
    if !state.initialized || state.in_flight {
        return None;
    }
    let (start, end) = match choose_slice(messages, s, state.checkpoint_len) {
        Some(found) => found,
        None => return None,
    };
    if super::has_local(s) && is_disqualified(&s.local.model) && !provider_in_chain(s) {
        return None;
    }
    if !has_grown(messages, s, state, end) {
        return None;
    }
    match append_end(messages, s, state, end) {
        Some(e) => {
            let prev: usize = match state.summary_end {
                Some(prev) => prev,
                None => 0,
            };
            assert(appends_to(all, s, state, end as int, e as int));
            proof {
                law_override_kept(all, prev as int, e as int);
            }
            let x: usize = cap_slice_at_override(messages, prev, e);
            if x < prev + 4 || is_heavy(messages, prev, x) {
                None
            } else {
                Some(SummaryJob { start: prev, end: x, append: true })
            }
        },
        None => {
            proof {
                law_dense_start(all, start as int, end as int, 1, 2);
            }
            if is_heavy(messages, start, end) {
                match densify_start(messages, start, end, 1, 2) {
                    Some(at) => Some(SummaryJob { start: at, end, append: false }),
                    None => None,
                }
            } else {
                Some(SummaryJob { start, end, append: false })
            }
        },
    }
}

/// Decides whether a request calls for a summary, and of what. Says so with the messages of the
/// request.
pub fn decide_for_request(body: &[u8], cfg: &Config, session: &SessionSummaries) -> (r: Option<
    (Vec<Json>, SummaryJob),
>)
    ensures
        match r {
            Some((messages, job)) => wanted(cfg, body@.len() as int) && (parsed_json(
                body@,
            ) matches Some(root) && root.get_array("messages"@) == Some(views(messages@)))
                && job_right(
                views(messages@),
                cfg,
                &session.state(views(messages@)),
                Some(job),
            ) && job.start < job.end
                <= messages@.len() && uncorrected(
                views(messages@),
                job.start as int,
                job.end as int,
            ),
            None => !wanted(cfg, body@.len() as int) || (match parsed_json(body@) {
                Some(root) => match root.get_array("messages"@) {
                    Some(messages) => job_right(messages, cfg, &session.state(messages), None),
                    None => true,
                },
                None => true,
            }),
        },
{
    let s = &cfg.summarizer;
    if same_text(&s.engine, "model-free") || !cfg.reprune.enabled || body.len() <= s.trigger_bytes {
        return None;
    }
    let root = match Json::parse(body) {
        Some(root) => root,
        None => return None,
    };
    let messages = match root.get_array("messages") {
        Some(messages) => crate::json::copy_all(messages),
        None => return None,
    };
    proof {
        lemma_views(messages@);
    }
    let state = session.state_for(&messages);
    match decide_summary(&messages, cfg, &state) {
        Some(job) => Some((messages, job)),
        None => None,
    }
}

/// What the summarizer is asked about the messages `start..end`.
pub open spec fn asked(messages: Seq<JsonView>, start: int, end: int) -> Seq<char> {
    prompt_of(
        shown(
            messages.subrange(start, end),
            REASONING_BLOCK_CAP as nat,
            TOOL_RESULT_BLOCK_CAP as nat,
        ),
    )
}

/// Puts together what the summarizer is asked about the messages `start..end`.
pub fn summary_prompt(messages: &[Json], start: usize, end: usize) -> (r: String)
    requires
        start <= end <= messages@.len(),
    ensures
        r@ == asked(views(messages@), start as int, end as int),
{
    let part = slice_subrange(messages, start, end);
    proof {
        lemma_views(messages@);
        lemma_views(part@);
        assert(views(part@) =~= views(messages@).subrange(start as int, end as int));
    }
    build_prompt(&serialize_slice(part, REASONING_BLOCK_CAP, TOOL_RESULT_BLOCK_CAP))
}

/// Whether a summary of the messages `start..end` is kept.
pub open spec fn kept_summary(
    messages: Seq<JsonView>,
    start: int,
    end: int,
    summary: Seq<char>,
    cfg: &Config,
) -> bool {
    start < end <= messages.len() && size_accepted(
        transcript_len(summary_pair(start as nat, end as nat, summary)),
        pruned_size(messages, start, end, cfg),
        cfg.summarizer.accept_ratio as int,
    )
}

/// What becomes of an attempt to summarize.
pub enum SummaryOutcome {
    /// The summary is kept.
    Accepted(SummaryDecision),
    /// There is a summary, but it is not worth it.
    Rejected,
    /// No summarizer gave one.
    Failed,
}

/// Judges what the summarizers gave for a job.
pub fn judge_summary(
    messages: &Vec<Json>,
    job: SummaryJob,
    summary: Option<&str>,
    cfg: &Config,
) -> (r: SummaryOutcome)
    ensures
        match summary {
            Some(text) => if kept_summary(
                views(messages@),
                job.start as int,
                job.end as int,
                text@,
                cfg,
            ) {
                r matches SummaryOutcome::Accepted(d) && d.start == job.start && d.end == job.end
                    && d.anchored(views(messages@)) && views(d.messages@) == summary_pair(
                    job.start as nat,
                    job.end as nat,
                    text@,
                )
            } else {
                r is Rejected
            },
            None => r is Failed,
        },
{
    match summary {
        Some(text) => {
            proof {
                lemma_views(messages@);
            }
            match SummaryDecision::new(messages, job.start, job.end, text) {
                Some(d) => if summary_is_smaller(&d.messages, messages, job.start, job.end, cfg) {
                    SummaryOutcome::Accepted(d)
                } else {
                    SummaryOutcome::Rejected
                },
                None => SummaryOutcome::Rejected,
            }
        },
        None => SummaryOutcome::Failed,
    }
}

/// Whether the chain of summaries gives way to a single new one because it is full.
pub fn chain_collapses(cfg: &SummarizerConfig, appended: bool, segments_before: usize) -> (r: bool)
    ensures
        r == (!appended && cfg.accumulator && segments_before >= cfg.max_summary_segments),
{
    !appended && cfg.accumulator && segments_before >= cfg.max_summary_segments
}

/// The letter under which the outcome of an attempt is recorded.
pub fn outcome_code(outcome: &SummaryOutcome) -> (r: char)
    ensures
        r == match outcome {
            SummaryOutcome::Accepted(_) => 'a',
            SummaryOutcome::Rejected => 'r',
            SummaryOutcome::Failed => 'e',
        },
{
    match outcome {
        SummaryOutcome::Accepted(_) => 'a',
        SummaryOutcome::Rejected => 'r',
        SummaryOutcome::Failed => 'e',
    }
}

/// What a summary would save.
#[derive(Debug)]
pub struct PreviewSummary {
    /// The first message that is summarized.
    pub start: usize,
    /// The first message behind them.
    pub end: usize,
    /// The size of the messages after all strategies.
    pub slice_before: usize,
    /// The size of the summary.
    pub slice_after: usize,
    /// Which kind of summarizer gave it.
    pub engine_kind: &'static str,
}

/// What a preview summarizes: what a session that has just begun would.
pub open spec fn preview_range(messages: Seq<JsonView>, cfg: &Config) -> Option<(int, int)> {
    let s = &cfg.summarizer;
    if s.engine@ == "model-free"@ {
        None
    } else {
        match chosen(messages, s, messages.len() as int) {
            Some((start, end)) => match dense_or_same(messages, start, end) {
                Some(at) => Some((at, end)),
                None => None,
            },
            None => None,
        }
    }
}

/// Chooses what a preview summarizes.
pub fn preview_slice(messages: &[Json], cfg: &Config) -> (r: Option<(usize, usize)>)
    ensures
        super::slice::opt_pair(r) == preview_range(views(messages@), cfg),
        r matches Some((start, end)) ==> start < end <= messages@.len() && uncorrected(
            views(messages@),
            start as int,
            end as int,
        ),
{
    let s = &cfg.summarizer;
    let ghost all = views(messages@);
    proof {
        lemma_views(messages@);
    }
    if same_text(&s.engine, "model-free") {
        return None;
    }
    let (start, end) = match choose_slice(messages, s, messages.len()) {
        Some(found) => found,
        None => return None,
    };
    proof {
        law_dense_start(all, start as int, end as int, 1, 2);
    }
    if is_heavy(messages, start, end) {
        match densify_start(messages, start, end, 1, 2) {
            Some(at) => Some((at, end)),
            None => None,
        }
    } else {
        Some((start, end))
    }
}

/// Says what a summary of the messages `start..end` would save; none where it is not kept.
pub fn preview_summary(
    messages: &Vec<Json>,
    cfg: &Config,
    start: usize,
    end: usize,
    summary: &str,
    engine_kind: &'static str,
) -> (r: Option<PreviewSummary>)
    ensures
        match r {
            Some(p) => kept_summary(views(messages@), start as int, end as int, summary@, cfg)
                && p.start == start && p.end == end && p.slice_before == pruned_size(
                views(messages@),
                start as int,
                end as int,
                cfg,
            ) && p.slice_after == transcript_len(summary_pair(start as nat, end as nat, summary@))
                && p.engine_kind == engine_kind,
            None => !kept_summary(views(messages@), start as int, end as int, summary@, cfg),
        },
{
    proof {
        lemma_views(messages@);
    }
    let d = match SummaryDecision::new(messages, start, end, summary) {
        Some(d) => d,
        None => return None,
    };
    if !summary_is_smaller(&d.messages, messages, start, end, cfg) {
        return None;
    }
    Some(
        PreviewSummary {
            start,
            end,
            slice_before: super::size_pruned(messages, start, end, cfg),
            slice_after: serialized_len(&d.messages),
            engine_kind,
        },
    )
}

} // verus!
