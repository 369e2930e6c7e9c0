//! When old turns are summarized, and which, and when a summary is worth it.

use super::slice::to_summarize;
use crate::config::{Config, SummarizerConfig};
use crate::json::JsonView;
use crate::pairing::paired;
use crate::size::size;
use crate::strategies::passage;
use crate::strategies::purpose::said_by;
use crate::summarizer::gate::{
    api_in_chain, appends_to, asked, capped_start, chosen, grown, has_summarizer, job_right,
    kept_summary, preview_range, wanted, SessionSummaries, SummaryJob, SummaryState,
};
use crate::summarizer::slice::{
    all_starts, can_start, dense_start, fitting_start, is_end_cap, law_dense_start, lemma_starts,
    override_cap, selected, shown, summary_pair,
};
use crate::summarizer::{
    block_size, blocks_size, char_budget, disqualified, local_in_chain, message_size, model_free,
    pruned_size, size_accepted, tool_heavy, total_size,
};
use crate::text::{lists, utf8_len};
use vstd::prelude::*;

verus! {

/// The bytes that the messages from `prev` to `end` take; none where `end` does not lie behind.
pub open spec fn bytes_between(messages: Seq<JsonView>, prev: int, end: int) -> nat {
    if prev < end {
        size(JsonView::Array(Seq::new((end - prev) as nat, |i: int| messages[prev + i])))
    } else {
        0
    }
}

/// Enough was added exactly where there is no earlier summary, or it has lost its anchor, or the
/// messages between its end and the new end, those and no others, take as many bytes as the settings
/// ask for.
pub proof fn law_grown(
    messages: Seq<JsonView>,
    s: &SummarizerConfig,
    state: &SummaryState,
    end: int,
)
    requires
        end <= messages.len(),
    ensures
        grown(messages, s, state, end) <==> (state.summary_end matches Some(prev) ==> !state.anchored
            || bytes_between(messages, prev as int, end) >= s.resummarize_after_bytes),
{
    if let Some(prev) = state.summary_end {
        if prev < end {
            assert(messages.subrange(prev as int, end) =~= Seq::new(
                (end - prev) as nat,
                |i: int| messages[prev + i],
            ));
        }
    }
}

/// What stands before the end of the earlier summary, or behind the new end, makes no difference to
/// whether enough was added.
pub proof fn law_grown_alike(
    messages: Seq<JsonView>,
    others: Seq<JsonView>,
    s: &SummarizerConfig,
    state: &SummaryState,
    end: int,
)
    requires
        end <= messages.len(),
        end <= others.len(),
        state.summary_end matches Some(prev) ==> forall|i: int|
            prev <= i < end ==> #[trigger] messages[i] == others[i],
    ensures
        grown(messages, s, state, end) == grown(others, s, state, end),
{
    if let Some(prev) = state.summary_end {
        if prev < end {
            assert(messages.subrange(prev as int, end) =~= others.subrange(prev as int, end));
        }
    }
}

/// A summary is wanted where the settings name a summarizer, replaying is on, and the body is larger
/// than the least that calls for one.
pub proof fn law_wanted(cfg: &Config, body_len: int)
    ensures
        wanted(cfg, body_len) <==> cfg.summarizer.engine@ != "model-free"@ && cfg.reprune.enabled
            && body_len > cfg.summarizer.trigger_bytes,
{
}

/// What is known of a session is what it holds: whether it has begun, whether an attempt is under
/// way, where the last of its summaries ends, and whether what each of them was made from is there.
pub proof fn law_state(session: &SessionSummaries, messages: Seq<JsonView>)
    ensures
        ({
            let state = session.state(messages);
            &&& state.initialized == session.initialized
            &&& state.in_flight == (session.slot.active is Some)
            &&& state.checkpoint_len == session.checkpoint_len
            &&& session.chain@.len() == 0 ==> state.summary_end is None && !state.anchored
            &&& session.chain@.len() > 0 ==> state.summary_end == Some(
                session.chain@[session.chain@.len() - 1].end,
            ) && (state.anchored <==> forall|i: int|
                0 <= i < session.chain@.len() ==> (#[trigger] session.chain@[i]).anchored(messages))
        }),
{
}

/// The bytes that the summarizer may be shown: what the settings say; else, where the local one can
/// come to be asked, two and a half for each place of its context, which is 4096 at least and 131072
/// at most, less 2000; else 131072.
pub proof fn law_char_budget(s: &SummarizerConfig)
    ensures
        s.slice_char_budget matches Some(b) ==> char_budget(s) == b,
        s.slice_char_budget is None && (s.engine@ == "local"@ || exists|i: int|
            0 <= i < s.fallback@.len() && (#[trigger] s.fallback@[i])@ == "local"@) ==> {
            let ctx = if s.local.max_num_ctx < 4096 {
                4096int
            } else if s.local.max_num_ctx > 131072 {
                131072int
            } else {
                s.local.max_num_ctx as int
            };
            char_budget(s) == ctx * 5 / 2 - 2000
        },
        s.slice_char_budget is None && s.engine@ != "local"@ && (forall|i: int|
            0 <= i < s.fallback@.len() ==> (#[trigger] s.fallback@[i])@ != "local"@) ==> char_budget(s)
            == 131072,
{
}

/// What is chosen is what is to be summarized, from the first message of the assistant on from which
/// on the summarizer can be shown it whole, if there is one, up to the first correction, as long as
/// four messages are left.
pub proof fn law_chosen(
    messages: Seq<JsonView>,
    s: &SummarizerConfig,
    max_end: int,
    first: int,
    last: int,
)
    requires
        to_summarize(messages, s.keep_recent_turns as nat, max_end, first, last),
    ensures
        ({
            let fit = fitting_start(messages, first, last, 8000, 400, char_budget(s) as nat);
            let start = if fit is Some {
                fit->0
            } else {
                first
            };
            let end = override_cap(messages, start, last);
            chosen(messages, s, max_end) == if end >= start + 4 {
                Some((start, end))
            } else {
                None
            }
        }),
{
    super::slice::law_selected(messages, s.keep_recent_turns as nat, max_end, first, last);
}

/// Nothing is chosen where nothing is to be summarized.
pub proof fn law_none_chosen(messages: Seq<JsonView>, s: &SummarizerConfig, max_end: int)
    requires
        forall|first: int, last: int|
            !#[trigger] to_summarize(messages, s.keep_recent_turns as nat, max_end, first, last),
    ensures
        chosen(messages, s, max_end) is None,
{
    if let Some((first, last)) = selected(messages, s.keep_recent_turns as nat, max_end) {
        super::slice::law_selected(messages, s.keep_recent_turns as nat, max_end, first, last);
        assert(to_summarize(messages, s.keep_recent_turns as nat, max_end, first, last));
    }
}

/// Whether a summarizer can be asked at all: not where the local one is named, its model is
/// disqualified, and no provider of the settings is named.
pub open spec fn someone_to_ask(s: &SummarizerConfig) -> bool {
    let named = |name: Seq<char>|
        s.engine@ == name || exists|i: int|
            0 <= i < s.fallback@.len() && (#[trigger] s.fallback@[i])@ == name;
    !named("local"@) || !disqualified(s.local.model@) || exists|k: int|
        0 <= k < s.providers@.len() && named((#[trigger] s.providers@[k]).id@)
}

/// There is a summarizer to ask exactly where someone can be asked.
pub proof fn law_has_summarizer(s: &SummarizerConfig)
    ensures
        has_summarizer(s) <==> someone_to_ask(s),
{
    let named = |name: Seq<char>|
        s.engine@ == name || exists|i: int|
            0 <= i < s.fallback@.len() && (#[trigger] s.fallback@[i])@ == name;
    assert forall|name: Seq<char>| #[trigger] named(name) == (s.engine@ == name || lists(
        s.fallback@,
        name,
    )) by {}
    assert(local_in_chain(s) == named("local"@));
    if api_in_chain(s) {
        let k = choose|k: int|
            0 <= k < s.providers@.len() && (s.engine@ == (#[trigger] s.providers@[k]).id@ || lists(
                s.fallback@,
                s.providers@[k].id@,
            ));
        assert(named(s.providers@[k].id@));
    }
    if exists|k: int| 0 <= k < s.providers@.len() && named((#[trigger] s.providers@[k]).id@) {
        let k = choose|k: int| 0 <= k < s.providers@.len() && named((#[trigger] s.providers@[k]).id@);
        assert(s.engine@ == s.providers@[k].id@ || lists(s.fallback@, s.providers@[k].id@));
    }
}

/// A job is decided only where the session has begun, no attempt is under way, someone can be asked,
/// something is chosen, and the messages since an anchored summary take as many bytes as the
/// settings ask for.
pub proof fn law_job_is_due(
    messages: Seq<JsonView>,
    cfg: &Config,
    state: &SummaryState,
    job: SummaryJob,
)
    requires
        job_right(messages, cfg, state, Some(job)),
    ensures
        state.initialized,
        !state.in_flight,
        someone_to_ask(&cfg.summarizer),
        chosen(messages, &cfg.summarizer, state.checkpoint_len as int) matches Some((start, end)) && (
        state.summary_end matches Some(prev) ==> !state.anchored || bytes_between(
            messages,
            prev as int,
            end,
        ) >= cfg.summarizer.resummarize_after_bytes),
{
    law_has_summarizer(&cfg.summarizer);
    let s = &cfg.summarizer;
    if let Some((start, end)) = chosen(messages, s, state.checkpoint_len as int) {
        lemma_chosen_in(messages, s, state.checkpoint_len as int);
        law_grown(messages, s, state, end);
    }
}

proof fn lemma_chosen_in(messages: Seq<JsonView>, s: &SummarizerConfig, max_end: int)
    ensures
        chosen(messages, s, max_end) matches Some((start, end)) ==> 0 < start && start + 4 <= end
            <= messages.len(),
{
    if let Some((first, last)) = selected(messages, s.keep_recent_turns as nat, max_end) {
        crate::summarizer::slice::law_selected_bounds(messages, s.keep_recent_turns as nat, max_end);
        super::slice::law_fitting_start(
            messages,
            first,
            last,
            8000,
            400,
            char_budget(s) as nat,
            first,
        );
        let start = capped_start(messages, s, first, last);
        crate::summarizer::slice::law_override_kept(messages, start, last);
    }
}

/// Where a job is due and no summary can go behind the others, it is of all that is chosen; or, where
/// that is more than three fifths tool results, from the first place behind its start on at which a
/// summary can begin and that is no more than half tool results. Where there is no such place, there
/// is no job.
pub proof fn law_whole_job(
    messages: Seq<JsonView>,
    cfg: &Config,
    state: &SummaryState,
    job: Option<SummaryJob>,
    start: int,
    end: int,
    x: int,
)
    requires
        job_right(messages, cfg, state, job),
        state.initialized,
        !state.in_flight,
        someone_to_ask(&cfg.summarizer),
        chosen(messages, &cfg.summarizer, state.checkpoint_len as int) == Some((start, end)),
        messages.len() <= usize::MAX,
        state.summary_end matches Some(prev) ==> !state.anchored || bytes_between(
            messages,
            prev as int,
            end,
        ) >= cfg.summarizer.resummarize_after_bytes,
        forall|e: int| !#[trigger] appends_to(messages, &cfg.summarizer, state, end, e),
    ensures
        !tool_heavy(messages.subrange(start, end), 3, 5) ==> job == Some(
            SummaryJob { start: start as usize, end: end as usize, append: false },
        ),
        tool_heavy(messages.subrange(start, end), 3, 5) ==> match job {
            Some(j) => j.end == end && !j.append && start < j.start && said_by(
                messages,
                j.start as int,
                "assistant"@,
            ) && said_by(messages, j.start - 1, "user"@) && j.start + 4 <= end && !tool_heavy(
                messages.subrange(j.start as int, end),
                1,
                2,
            ) && (start < x < j.start && said_by(messages, x, "assistant"@) && said_by(
                messages,
                x - 1,
                "user"@,
            ) && x + 4 <= end ==> tool_heavy(messages.subrange(x, end), 1, 2)),
            None => start < x && said_by(messages, x, "assistant"@) && said_by(
                messages,
                x - 1,
                "user"@,
            ) && x + 4 <= end ==> tool_heavy(messages.subrange(x, end), 1, 2),
        },
{
    let s = &cfg.summarizer;
    law_has_summarizer(s);
    lemma_chosen_in(messages, s, state.checkpoint_len as int);
    law_grown(messages, s, state, end);
    law_dense_start(messages, start, end, 1, 2);
    if start < x && said_by(messages, x, "assistant"@) && said_by(messages, x - 1, "user"@) && x + 4
        <= end {
        assert(can_start(messages, x, end));
        if dense_start(messages, start, end, 1, 2, 0) is None {
            lemma_dense_all(messages, start, end, x, 0);
        }
    }
    if let Some(d) = dense_start(messages, start, end, 1, 2, 0) {
        assert(can_start(messages, d, end));
    }
}

proof fn lemma_dense_all(messages: Seq<JsonView>, widest: int, end: int, x: int, i: int)
    requires
        can_start(messages, x, end),
        widest < x,
        0 <= i <= all_starts(messages, end).len(),
        forall|k: int| 0 <= k < i ==> #[trigger] all_starts(messages, end)[k] != x,
        dense_start(messages, widest, end, 1, 2, i) is None,
    ensures
        tool_heavy(messages.subrange(x, end), 1, 2),
    decreases all_starts(messages, end).len() - i,
{
    let all = all_starts(messages, end);
    lemma_starts(messages, end, messages.len() as int);
    assert(all.contains(x));
    let k = choose|k: int| 0 <= k < all.len() && all[k] == x;
    assert(k >= i);
    if all[i] != x {
        lemma_dense_all(messages, widest, end, x, i + 1);
    }
}

/// A summary goes behind the others where the settings accumulate, the others are anchored and not
/// too many, and at least four messages lie between their end and the place where it is to end: the
/// last message of the assistant up to which the summarizer can be shown all, or the first where it
/// can be shown none whole.
pub proof fn law_appends(
    messages: Seq<JsonView>,
    s: &SummarizerConfig,
    state: &SummaryState,
    end: int,
    e: int,
)
    ensures
        appends_to(messages, s, state, end, e) <==> s.accumulator && state.anchored && state.segments
            < s.max_summary_segments && (state.summary_end matches Some(prev) && end > prev + 4
            && is_end_cap(messages, prev as int, end, 8000, 400, char_budget(s) as nat, e) && e
            >= prev + 4),
{
}

/// Where a job is due and a summary can go behind the others, it is of the messages from their end
/// on, up to the first correction, and there is none where less than four are left or more than
/// three fifths of them are tool results.
pub proof fn law_appended_job(
    messages: Seq<JsonView>,
    cfg: &Config,
    state: &SummaryState,
    job: Option<SummaryJob>,
    start: int,
    end: int,
    e: int,
)
    requires
        job_right(messages, cfg, state, job),
        state.initialized,
        !state.in_flight,
        someone_to_ask(&cfg.summarizer),
        chosen(messages, &cfg.summarizer, state.checkpoint_len as int) == Some((start, end)),
        state.anchored ==> bytes_between(messages, state.summary_end->0 as int, end)
            >= cfg.summarizer.resummarize_after_bytes,
        appends_to(messages, &cfg.summarizer, state, end, e),
        forall|f: int| #[trigger] appends_to(messages, &cfg.summarizer, state, end, f) ==> f == e,
    ensures
        ({
            let prev = state.summary_end->0;
            let to = override_cap(messages, prev as int, e);
            job == if to < prev + 4 || tool_heavy(messages.subrange(prev as int, to), 3, 5) {
                None
            } else {
                Some(SummaryJob { start: prev, end: to as usize, append: true })
            }
        }),
{
    let s = &cfg.summarizer;
    law_has_summarizer(s);
    lemma_chosen_in(messages, s, state.checkpoint_len as int);
    law_grown(messages, s, state, end);
}

/// The bytes of a block: those of its text; where it has none, of its content; where it has none
/// either, of its input.
pub open spec fn block_bytes(b: JsonView) -> nat {
    let v = if b.get("text"@) matches Some(JsonView::String(_)) {
        b.get("text"@)
    } else if b.get("content"@) is Some {
        b.get("content"@)
    } else {
        b.get("input"@)
    };
    match v {
        Some(JsonView::String(s)) => utf8_len(s),
        Some(v) => size(v),
        None => 0,
    }
}

/// The bytes of messages are those of each together; of a message those of its text, or of each of
/// its blocks. Of tool results only blocks of that type count.
pub proof fn law_total_size(
    messages: Seq<JsonView>,
    m: JsonView,
    blocks: Seq<JsonView>,
    b: JsonView,
    results: bool,
)
    ensures
        total_size(Seq::empty(), results) == 0,
        total_size(messages.push(m), results) == total_size(messages, results) + message_size(
            m,
            results,
        ),
        m.get("content"@) matches Some(JsonView::String(s)) ==> message_size(m, results) == if results {
            0
        } else {
            utf8_len(s)
        },
        m.get("content"@) == Some(JsonView::Array(blocks)) ==> message_size(m, results)
            == blocks_size(blocks, results),
        blocks_size(Seq::empty(), results) == 0,
        blocks_size(blocks.push(b), results) == blocks_size(blocks, results) + if !results || b.get(
            "type"@,
        ) == Some(JsonView::String("tool_result"@)) {
            block_bytes(b)
        } else {
            0
        },
{
    assert(messages.push(m).drop_last() =~= messages);
    assert(blocks.push(b).drop_last() =~= blocks);
    assert(block_size(b) == block_bytes(b));
}

/// Messages are heavy with tool results where those take more than so many parts of the whole, and
/// there is a whole.
pub proof fn law_tool_heavy(messages: Seq<JsonView>, num: int, den: int)
    requires
        total_size(messages, false) <= usize::MAX,
        total_size(messages, true) <= usize::MAX,
    ensures
        tool_heavy(messages, num, den) <==> total_size(messages, false) > 0 && total_size(
            messages,
            true,
        ) * den > total_size(messages, false) * num,
{
}

/// Whether a summary of some bytes may stand for a region of some bytes: with a ratio of one or less
/// where it is smaller; with a greater ratio, in thousandths, up to that many times the region, and
/// never more than 16384 bytes above it.
pub open spec fn worth_it(summary: nat, region: nat, ratio: int) -> bool {
    if ratio <= 1000 {
        summary < region
    } else {
        summary * 1000 <= region * ratio && summary <= region + 16384
    }
}

proof fn lemma_worth_it(summary: nat, region: nat, ratio: int)
    ensures
        size_accepted(summary, region, ratio) <==> worth_it(summary, region, ratio),
{
    let p = region * ratio;
    assert(p / 1000 * 1000 <= p < (p / 1000 + 1) * 1000);
    assert(summary <= p / 1000 <==> summary * 1000 <= p);
}

/// A summary is kept exactly where it is worth it: the two messages that it becomes, against what
/// the strategies leave of the messages that it is of, run over the whole transcript.
pub proof fn law_kept_summary(
    messages: Seq<JsonView>,
    start: int,
    end: int,
    summary: Seq<char>,
    cfg: &Config,
)
    requires
        0 <= start < end <= messages.len(),
    ensures
        kept_summary(messages, start, end, summary, cfg) <==> worth_it(
            size(JsonView::Array(summary_pair(start as nat, end as nat, summary))),
            bytes_between(
                if paired(messages) {
                    passage(messages, &cfg.strategies).messages
                } else {
                    messages
                },
                start,
                end,
            ),
            cfg.summarizer.accept_ratio as int,
        ),
{
    let left = model_free(messages, cfg);
    let summary_size = size(JsonView::Array(summary_pair(start as nat, end as nat, summary)));
    lemma_worth_it(
        summary_size,
        pruned_size(messages, start, end, cfg),
        cfg.summarizer.accept_ratio as int,
    );
    if paired(messages) {
        crate::strategies::law_passage_keeps(messages, &cfg.strategies);
    }
    assert(left.subrange(start, end) =~= Seq::new((end - start) as nat, |i: int| left[start + i]));
}

/// What the summarizer is asked: the excerpt between its tags, and what to do with it.
pub proof fn law_asked(messages: Seq<JsonView>, start: int, end: int)
    requires
        0 <= start <= end <= messages.len(),
    ensures
        asked(messages, start, end) == "<excerpt>\n"@ + shown(messages.subrange(start, end), 8000, 400)
            + "\n</excerpt>\n\nCompact the excerpt above into the sections below."@,
{
}

/// A preview is of what is chosen of the whole transcript, unless the settings do without a
/// summarizer. Where that is more than three fifths tool results it is from the first place behind
/// its start on at which a summary can begin and that is no more than half tool results; where there
/// is no such place, there is no preview.
pub proof fn law_preview(messages: Seq<JsonView>, cfg: &Config, x: int)
    ensures
        cfg.summarizer.engine@ == "model-free"@ ==> preview_range(messages, cfg) is None,
        cfg.summarizer.engine@ != "model-free"@ ==> match chosen(
            messages,
            &cfg.summarizer,
            messages.len() as int,
        ) {
            Some((start, end)) => if !tool_heavy(messages.subrange(start, end), 3, 5) {
                preview_range(messages, cfg) == Some((start, end))
            } else {
                match preview_range(messages, cfg) {
                    Some(r) => r.1 == end && start < r.0 && begins_turn(messages, r.0) && r.0 + 4
                        <= end && !tool_heavy(messages.subrange(r.0, end), 1, 2) && (start < x < r.0
                        && begins_turn(messages, x) && x + 4 <= end ==> tool_heavy(
                        messages.subrange(x, end),
                        1,
                        2,
                    )),
                    None => start < x && begins_turn(messages, x) && x + 4 <= end ==> tool_heavy(
                        messages.subrange(x, end),
                        1,
                        2,
                    ),
                }
            },
            None => preview_range(messages, cfg) is None,
        },
{
    if let Some((start, end)) = chosen(messages, &cfg.summarizer, messages.len() as int) {
        lemma_chosen_in(messages, &cfg.summarizer, messages.len() as int);
        law_dense_start(messages, start, end, 1, 2);
        if start < x && begins_turn(messages, x) && x + 4 <= end {
            assert(can_start(messages, x, end));
            if dense_start(messages, start, end, 1, 2, 0) is None {
                lemma_dense_all(messages, start, end, x, 0);
            }
        }
        if let Some(d) = dense_start(messages, start, end, 1, 2, 0) {
            assert(can_start(messages, d, end));
        }
    }
}

/// Whether the assistant answers the user at a message.
pub open spec fn begins_turn(messages: Seq<JsonView>, i: int) -> bool {
    said_by(messages, i, "assistant"@) && said_by(messages, i - 1, "user"@)
}

} // verus!
