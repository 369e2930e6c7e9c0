//! What a transcript keeps when a summary takes the place of some of its messages.

use super::gate::{
    all_anchored, appends_to, capped_start, chosen, job_right, lemma_fitting_start, preview_range,
    protected_end, SummaryJob, SummaryState,
};
use super::slice::{
    anchor, can_end, chain_end, chain_fits, law_dense_start, law_override_kept, law_selected_bounds,
    marker_of, overrides, replay, replayed, selected, summary_pair, text_message, SummaryDecision,
    REASONING_BLOCK_CAP, TOOL_RESULT_BLOCK_CAP,
};
use super::{char_budget, tool_heavy};
use crate::config::{Config, SummarizerConfig};
use crate::json::{views, JsonView};
use crate::pairing::{block_at, lemma_positions, paired, result_id, use_id, use_positions};
use crate::strategies::has_role;
use crate::text::{begins, decimal, trim};
use vstd::prelude::*;

verus! {

/// A transcript with some messages in place of those from `start` to `end`.
pub open spec fn spliced(
    out: Seq<JsonView>,
    start: int,
    end: int,
    middle: Seq<JsonView>,
) -> Seq<JsonView> {
    out.take(start) + middle + out.skip(end)
}

/// A summary is a turn of the assistant that is acknowledged by the user, and holds neither calls
/// nor results.
pub proof fn law_summary_pair(start: nat, end: nat, summary: Seq<char>)
    ensures
        ({
            let pair = summary_pair(start, end, summary);
            &&& pair.len() == 2
            &&& has_role(pair[0], "assistant"@)
            &&& has_role(pair[1], "user"@)
            &&& forall|mi: int, ci: int|
                #![trigger block_at(pair, mi, ci)]
                block_at(pair, mi, ci) matches Some(b) ==> use_id(b) is None && result_id(b) is None
        }),
{
    let pair = summary_pair(start, end, summary);
    lemma_words();
    assert forall|mi: int, ci: int| #![trigger block_at(pair, mi, ci)]
        block_at(pair, mi, ci) is Some implies use_id(block_at(pair, mi, ci)->0) is None
        && result_id(block_at(pair, mi, ci)->0) is None by {
        let b = block_at(pair, mi, ci)->0;
        assert(ci == 0);
        assert(b.get("type"@) == Some(JsonView::String("text"@)));
    }
}

proof fn lemma_words()
    ensures
        "text"@ != "tool_use"@,
        "text"@ != "tool_result"@,
        "text"@ != "type"@,
        "role"@ != "content"@,
        "assistant"@ != "user"@,
{
    reveal_strlit("text");
    reveal_strlit("type");
    reveal_strlit("tool_use");
    reveal_strlit("tool_result");
    reveal_strlit("role");
    reveal_strlit("content");
    reveal_strlit("assistant");
    reveal_strlit("user");
    assert("text"@.len() == 4 && "tool_use"@.len() == 8 && "tool_result"@.len() == 11);
    assert("text"@[1] == 'e' && "type"@[1] == 'y');
    assert("role"@.len() == 4 && "content"@.len() == 7 && "assistant"@.len() == 9 && "user"@.len()
        == 4);
}

/// A summary that has just been made of the messages `start..end` takes their place: two messages
/// stand for them, the first of which begins with the marker and ends with the summary, and all
/// others stay. It does not where the digest of those messages is another.
pub proof fn law_fresh_summary_spliced(
    original: Seq<JsonView>,
    d: SummaryDecision,
    start: nat,
    end: nat,
    summary: Seq<char>,
)
    requires
        start < end <= original.len(),
        d.start == start,
        d.end == end,
        d.slice_hash@ == anchor(original.subrange(start as int, end as int)),
        views(d.messages@) == summary_pair(start, end, summary),
    ensures
        ({
            let out = spliced(original, start as int, end as int, views(d.messages@));
            let said = marker_of(start, end) + "\n\n"@ + trim(summary);
            &&& d.anchored(original)
            &&& out.len() == original.len() - (end - start) + 2
            &&& out.take(start as int) == original.take(start as int)
            &&& out.skip((start + 2) as int) == original.skip(end as int)
            &&& out[start as int] == text_message("assistant"@, said)
            &&& out[(start + 1) as int] == text_message(
                "user"@,
                "Understood — continuing from the summarized context above."@,
            )
            &&& begins(
                said,
                "[trimwire: summarized turns "@ + decimal(start) + ".."@ + decimal(end),
            )
            &&& said.skip(said.len() - trim(summary).len()) == trim(summary)
        }),
        forall|other: Seq<JsonView>|
            end <= other.len() && anchor(other.subrange(start as int, end as int)) != anchor(
                original.subrange(start as int, end as int),
            ) ==> !#[trigger] d.anchored(other),
{
    let pair = summary_pair(start, end, summary);
    let out = spliced(original, start as int, end as int, pair);
    let said = marker_of(start, end) + "\n\n"@ + trim(summary);
    let head = "[trimwire: summarized turns "@ + decimal(start) + ".."@ + decimal(end);
    assert(out.take(start as int) =~= original.take(start as int));
    assert(out.skip((start + 2) as int) =~= original.skip(end as int));
    assert(said.subrange(0, head.len() as int) =~= head);
    assert(said.skip(said.len() - trim(summary).len()) =~= trim(summary));
}

/// Whether no two messages that follow each other have the same role.
pub open spec fn alternates(messages: Seq<JsonView>) -> bool {
    forall|i: int|
        0 <= i < messages.len() - 1 ==> (#[trigger] messages[i]).get_str("role"@) != messages[i
            + 1].get_str("role"@)
}

/// Where a summary takes the place of whole turns, from one of the assistant up to one of the
/// assistant, the roles alternate as before.
pub proof fn law_roles_alternate(
    out: Seq<JsonView>,
    start: nat,
    end: nat,
    summary: Seq<char>,
)
    requires
        alternates(out),
        start < end <= out.len(),
        has_role(out[start as int], "assistant"@),
        end < out.len() ==> has_role(out[end as int], "assistant"@),
    ensures
        alternates(spliced(out, start as int, end as int, summary_pair(start, end, summary))),
{
    let pair = summary_pair(start, end, summary);
    let new = spliced(out, start as int, end as int, pair);
    law_summary_pair(start, end, summary);
    lemma_words();
    assert forall|i: int| 0 <= i < new.len() - 1 implies (#[trigger] new[i]).get_str("role"@)
        != new[i + 1].get_str("role"@) by {
        if i < start - 1 {
            assert(new[i] == out[i] && new[i + 1] == out[i + 1]);
        } else if i == start - 1 {
            assert(new[i] == out[i]);
            assert(new[i + 1] == pair[0]);
            assert(out[i].get_str("role"@) != out[i + 1].get_str("role"@));
        } else if i == start {
            assert(new[i] == pair[0] && new[i + 1] == pair[1]);
        } else if i == start + 1 {
            assert(new[i] == pair[1]);
            assert(new[i + 1] == out[end as int]);
        } else {
            let k = i - start - 2 + end;
            assert(new[i] == out[k] && new[i + 1] == out[k + 1]);
        }
    }
}

/// Whether every result outside `start..end` has its call outside too.
pub open spec fn pairs_apart(out: Seq<JsonView>, start: int, end: int) -> bool {
    forall|mi: int, ci: int|
        #![trigger block_at(out, mi, ci)]
        !(start <= mi < end) ==> (block_at(out, mi, ci) matches Some(b) ==> (result_id(b) matches
            Some(id) ==> called_outside(out, start, end, id)))
}

/// Whether a call with some id stands outside `start..end`.
pub open spec fn called_outside(out: Seq<JsonView>, start: int, end: int, id: Seq<char>) -> bool {
    exists|mi: int, ci: int|
        #![trigger block_at(out, mi, ci)]
        !(start <= mi < end) && (block_at(out, mi, ci) matches Some(b) && use_id(b) == Some(id))
}

/// Where a summary takes the place of whole pairs of calls and results, every result that is left
/// has its call.
pub proof fn law_splice_paired(
    out: Seq<JsonView>,
    start: nat,
    end: nat,
    summary: Seq<char>,
)
    requires
        start <= end <= out.len(),
        pairs_apart(out, start as int, end as int),
    ensures
        paired(spliced(out, start as int, end as int, summary_pair(start, end, summary))),
{
    let pair = summary_pair(start, end, summary);
    let new = spliced(out, start as int, end as int, pair);
    law_summary_pair(start, end, summary);
    assert forall|mi: int, ci: int| #![trigger block_at(new, mi, ci)]
        (block_at(new, mi, ci) matches Some(b) && result_id(b) matches Some(id)) implies use_positions(
        new,
    ).contains_key(result_id(block_at(new, mi, ci)->0)->0) by {
        let b = block_at(new, mi, ci)->0;
        let id = result_id(b)->0;
        let k = if mi < start {
            mi
        } else {
            mi - 2 - start + end
        };
        if start <= mi < start + 2 {
            assert(new[mi] == pair[mi - start]);
            assert(block_at(pair, mi - start, ci) == Some(b));
        } else {
            assert(new[mi] == out[k]);
            assert(block_at(out, k, ci) == Some(b));
            assert(called_outside(out, start as int, end as int, id));
            let (ui, uc) = choose|ui: int, uc: int|
                #![trigger block_at(out, ui, uc)]
                !(start <= ui < end) && (block_at(out, ui, uc) matches Some(u) && use_id(u) == Some(
                    id,
                ));
            let n = if ui < start {
                ui
            } else {
                ui + 2 + start - end
            };
            assert(new[n] == out[ui]);
            assert(block_at(new, n, uc) == block_at(out, ui, uc));
            lemma_positions(new, false, id);
        }
    }
}

/// Whether the call with an id stands in a message.
pub open spec fn calls_in(messages: Seq<JsonView>, mi: int, id: Seq<char>) -> bool {
    exists|ci: int|
        #![trigger block_at(messages, mi, ci)]
        block_at(messages, mi, ci) matches Some(b) && use_id(b) == Some(id)
}

/// Whether every result is given by the user and answers a call of the message before it.
pub open spec fn answers_at_once(messages: Seq<JsonView>) -> bool {
    forall|mi: int, ci: int|
        #![trigger block_at(messages, mi, ci)]
        match block_at(messages, mi, ci) {
            Some(b) => match result_id(b) {
                Some(id) => has_role(messages[mi], "user"@) && calls_in(messages, mi - 1, id),
                None => true,
            },
            None => true,
        }
}

/// Whether a transcript is one that can be sent: roles alternate, and every result answers a call
/// of the message before it.
pub open spec fn in_turn(messages: Seq<JsonView>) -> bool {
    alternates(messages) && answers_at_once(messages)
}

/// In a transcript that can be sent every result has its call.
pub proof fn law_in_turn_paired(messages: Seq<JsonView>)
    requires
        in_turn(messages),
    ensures
        paired(messages),
{
    assert forall|mi: int, ci: int| #![trigger block_at(messages, mi, ci)]
        (block_at(messages, mi, ci) matches Some(b) && result_id(b) matches Some(id)) implies use_positions(
        messages,
    ).contains_key(result_id(block_at(messages, mi, ci)->0)->0) by {
        let id = result_id(block_at(messages, mi, ci)->0)->0;
        assert(calls_in(messages, mi - 1, id));
        lemma_positions(messages, false, id);
    }
}

/// Where a summary takes the place of whole turns of a transcript that can be sent, from one of the
/// assistant up to one of the assistant, what comes out can be sent.
pub proof fn law_splice_in_turn(out: Seq<JsonView>, start: nat, end: nat, summary: Seq<char>)
    requires
        in_turn(out),
        start < end <= out.len(),
        has_role(out[start as int], "assistant"@),
        end < out.len() ==> has_role(out[end as int], "assistant"@),
    ensures
        in_turn(spliced(out, start as int, end as int, summary_pair(start, end, summary))),
{
    let pair = summary_pair(start, end, summary);
    let new = spliced(out, start as int, end as int, pair);
    law_roles_alternate(out, start, end, summary);
    law_summary_pair(start, end, summary);
    lemma_words();
    assert forall|mi: int, ci: int| #![trigger block_at(new, mi, ci)]
        (block_at(new, mi, ci) matches Some(b) && result_id(b) matches Some(id)) implies has_role(
        new[mi],
        "user"@,
    ) && calls_in(new, mi - 1, result_id(block_at(new, mi, ci)->0)->0) by {
        let b = block_at(new, mi, ci)->0;
        let id = result_id(b)->0;
        if start <= mi < start + 2 {
            assert(new[mi] == pair[mi - start]);
            assert(block_at(pair, mi - start, ci) == Some(b));
        } else {
            let k = if mi < start {
                mi
            } else {
                mi - 2 - start + end
            };
            assert(new[mi] == out[k]);
            assert(block_at(out, k, ci) == Some(b));
            assert(calls_in(out, k - 1, id));
            let uc = choose|uc: int|
                #![trigger block_at(out, k - 1, uc)]
                block_at(out, k - 1, uc) matches Some(u) && use_id(u) == Some(id);
            assert(k != end);
            assert(new[mi - 1] == out[k - 1]);
            assert(block_at(new, mi - 1, uc) == block_at(out, k - 1, uc));
        }
    }
}

/// Whether a summary takes the place of whole turns: from one of the assistant up to one of the
/// assistant.
pub open spec fn whole_turns(messages: Seq<JsonView>, start: int, end: int) -> bool {
    0 <= start < end < messages.len() && has_role(messages[start], "assistant"@) && has_role(
        messages[end],
        "assistant"@,
    )
}

/// What is chosen is made of whole turns, and bears no correction.
proof fn lemma_chosen(messages: Seq<JsonView>, s: &SummarizerConfig, max_end: int)
    ensures
        chosen(messages, s, max_end) matches Some((start, end)) ==> whole_turns(messages, start, end)
            && start + 4 <= end && uncorrected(messages, start, end),
{
    law_selected_bounds(messages, s.keep_recent_turns as nat, max_end);
    if let Some((first, end)) = selected(messages, s.keep_recent_turns as nat, max_end) {
        lemma_fitting_start(
            messages,
            first,
            end,
            REASONING_BLOCK_CAP as nat,
            TOOL_RESULT_BLOCK_CAP as nat,
            char_budget(s) as nat,
        );
        let start = capped_start(messages, s, first, end);
        law_override_kept(messages, start, end);
    }
}

/// Whether none of the messages `start..end` bears a correction.
pub open spec fn uncorrected(messages: Seq<JsonView>, start: int, end: int) -> bool {
    forall|k: int| start <= k < end ==> !overrides(#[trigger] messages[k])
}

/// What is decided to be summarized is made of whole turns, if the summaries so far are, and bears
/// no correction.
pub proof fn law_job_of_whole_turns(
    messages: Seq<JsonView>,
    cfg: &Config,
    state: &SummaryState,
    job: SummaryJob,
)
    requires
        messages.len() <= usize::MAX,
        job_right(messages, cfg, state, Some(job)),
        state.summary_end matches Some(p) ==> p < messages.len() && has_role(
            messages[p as int],
            "assistant"@,
        ),
    ensures
        whole_turns(messages, job.start as int, job.end as int),
        uncorrected(messages, job.start as int, job.end as int),
{
    let s = &cfg.summarizer;
    lemma_chosen(messages, s, state.checkpoint_len as int);
    let (start, end) = chosen(messages, s, state.checkpoint_len as int)->0;
    if exists|e: int| appends_to(messages, s, state, end, e) {
        let prev = state.summary_end->0;
        let e = choose|e: int|
            #[trigger] appends_to(messages, s, state, end, e) && Some(job) == match protected_end(
                messages,
                prev as int,
                e,
            ) {
                Some(x) => if tool_heavy(messages.subrange(prev as int, x), 3, 5) {
                    None::<SummaryJob>
                } else {
                    Some(SummaryJob { start: prev, end: x as usize, append: true })
                },
                None => None,
            };
        assert(can_end(messages, prev as int, end, e));
        law_override_kept(messages, prev as int, e);
    } else {
        law_dense_start(messages, start, end, 1, 2);
    }
}

/// What a preview summarizes is made of whole turns, and bears no correction.
pub proof fn law_preview_of_whole_turns(messages: Seq<JsonView>, cfg: &Config)
    ensures
        preview_range(messages, cfg) matches Some((start, end)) ==> whole_turns(
            messages,
            start,
            end,
        ) && uncorrected(messages, start, end),
{
    let s = &cfg.summarizer;
    lemma_chosen(messages, s, messages.len() as int);
    if let Some((start, end)) = chosen(messages, s, messages.len() as int) {
        law_dense_start(messages, start, end, 1, 2);
    }
}

/// Whether a summary is of some text and takes the place of whole turns of a transcript.
pub open spec fn sits_well(d: SummaryDecision, out: Seq<JsonView>) -> bool {
    &&& whole_turns(out, d.start as int, d.end as int)
    &&& exists|text: Seq<char>|
        views(d.messages@) == #[trigger] summary_pair(d.start as nat, d.end as nat, text)
}

/// The transcript with the summaries from the `i`th on in their places.
spec fn partly_replayed(out: Seq<JsonView>, chain: Seq<SummaryDecision>, i: int) -> Seq<JsonView> {
    out.take(chain_end(chain, i)) + replay(out, chain, i, chain_end(chain, i))
}

/// To put the `i`th summary in its place too is to splice it in.
proof fn lemma_replay_step(
    out: Seq<JsonView>,
    chain: Seq<SummaryDecision>,
    original: Seq<JsonView>,
    i: int,
)
    requires
        chain_fits(chain, original, out.len() as int),
        0 <= i < chain.len(),
    ensures
        partly_replayed(out, chain, i) == spliced(
            partly_replayed(out, chain, i + 1),
            chain[i].start as int,
            chain[i].end as int,
            views(chain[i].messages@),
        ),
        partly_replayed(out, chain, i + 1).len() >= chain[i].end,
        partly_replayed(out, chain, i + 1)[chain[i].start as int] == out[chain[i].start as int],
{
    let d = chain[i];
    assert(d.anchored(original));
    assert(chain_end(chain, i + 1) == d.end);
    if i > 0 {
        assert(chain[i - 1].anchored(original));
    }
    let from = chain_end(chain, i);
    let tail = replay(out, chain, i + 1, d.end as int);
    let rest = out.take(d.end as int) + tail;
    assert(rest.take(d.start as int) =~= out.take(from) + out.subrange(from, d.start as int));
    assert(rest.skip(d.end as int) =~= tail);
    assert(partly_replayed(out, chain, i) =~= out.take(from) + (out.subrange(from, d.start as int)
        + views(d.messages@) + tail));
    assert(partly_replayed(out, chain, i) =~= spliced(
        rest,
        d.start as int,
        d.end as int,
        views(d.messages@),
    ));
}

/// What follows the `i`th summary, with the later ones in their places, is a turn of the assistant.
proof fn lemma_replay_next(
    out: Seq<JsonView>,
    chain: Seq<SummaryDecision>,
    original: Seq<JsonView>,
    i: int,
)
    requires
        chain_fits(chain, original, out.len() as int),
        forall|k: int| 0 <= k < chain.len() ==> sits_well(#[trigger] chain[k], out),
        0 <= i < chain.len(),
    ensures
        has_role(partly_replayed(out, chain, i + 1)[chain[i].end as int], "assistant"@),
{
    let d = chain[i];
    assert(d.anchored(original) && sits_well(d, out));
    assert(chain_end(chain, i + 1) == d.end);
    let tail = replay(out, chain, i + 1, d.end as int);
    if i + 1 < chain.len() {
        let next = chain[i + 1];
        assert(next.anchored(original) && sits_well(next, out));
        let text = choose|text: Seq<char>|
            views(next.messages@) == #[trigger] summary_pair(
                next.start as nat,
                next.end as nat,
                text,
            );
        law_summary_pair(next.start as nat, next.end as nat, text);
        let head = out.subrange(d.end as int, next.start as int);
        assert(tail == head + views(next.messages@) + replay(out, chain, i + 2, next.end as int));
        if d.end == next.start {
            assert(tail[0] == views(next.messages@)[0]);
        } else {
            assert(tail[0] == out[d.end as int]);
        }
    } else {
        assert(tail == out.skip(d.end as int));
        assert(tail[0] == out[d.end as int]);
    }
    assert((out.take(d.end as int) + tail)[d.end as int] == tail[0]);
}

proof fn lemma_replay_in_turn(
    out: Seq<JsonView>,
    chain: Seq<SummaryDecision>,
    original: Seq<JsonView>,
    i: int,
)
    requires
        in_turn(out),
        chain_fits(chain, original, out.len() as int),
        forall|k: int| 0 <= k < chain.len() ==> sits_well(#[trigger] chain[k], out),
        0 <= i <= chain.len(),
    ensures
        in_turn(partly_replayed(out, chain, i)),
    decreases chain.len() - i,
{
    if i == chain.len() {
        assert(chain[i - 1].anchored(original));
        assert(partly_replayed(out, chain, i) =~= out);
    } else {
        let d = chain[i];
        let rest = partly_replayed(out, chain, i + 1);
        lemma_replay_in_turn(out, chain, original, i + 1);
        lemma_replay_step(out, chain, original, i);
        lemma_replay_next(out, chain, original, i);
        assert(d.anchored(original) && sits_well(d, out));
        let text = choose|text: Seq<char>|
            views(d.messages@) == #[trigger] summary_pair(d.start as nat, d.end as nat, text);
        law_splice_in_turn(rest, d.start as nat, d.end as nat, text);
    }
}

/// A transcript that can be sent can be sent with summaries in the places of whole turns, however
/// many there are.
pub proof fn law_replayed_in_turn(
    out: Seq<JsonView>,
    chain: Seq<SummaryDecision>,
    original: Seq<JsonView>,
)
    requires
        in_turn(out),
        chain_fits(chain, original, out.len() as int),
        forall|k: int| 0 <= k < chain.len() ==> sits_well(#[trigger] chain[k], out),
    ensures
        in_turn(replayed(out, chain)),
        paired(replayed(out, chain)),
{
    lemma_replay_in_turn(out, chain, original, 0);
    assert(partly_replayed(out, chain, 0) =~= replayed(out, chain));
    law_in_turn_paired(replayed(out, chain));
}

/// Whether the summaries of a chain follow each other.
pub open spec fn in_order(chain: Seq<SummaryDecision>) -> bool {
    forall|i: int|
        0 <= i < chain.len() ==> {
            &&& (#[trigger] chain[i]).start < chain[i].end
            &&& chain_end(chain, i) <= chain[i].start
        }
}

/// The summaries of a session take their places whenever what they were made from is still there,
/// if they follow each other.
pub proof fn law_anchored_chain_fits(chain: Seq<SummaryDecision>, messages: Seq<JsonView>)
    requires
        in_order(chain),
        all_anchored(chain, messages),
    ensures
        chain_fits(chain, messages, messages.len() as int),
{
    assert forall|i: int| 0 <= i < chain.len() implies {
        &&& (#[trigger] chain[i]).anchored(messages)
        &&& chain[i].end <= messages.len()
        &&& chain_end(chain, i) <= chain[i].start
    } by {
        assert(chain[i].anchored(messages));
    }
}

} // verus!
