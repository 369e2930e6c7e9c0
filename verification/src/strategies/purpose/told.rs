//! What the strategies say of themselves: how much there was, how much is left, and how many changed.

use super::window::{input_left, pair_goes};
use super::{cleared, held, law_terms, stubbed, writes};
use crate::config::{SlidingWindowConfig, StrategiesConfig};
use crate::json::JsonView;
use crate::pairing::{block_at, last_use, refused, result_positions, PairingError};
use crate::pairing_laws::{answer_at, answered_at, call_at, called, law_has_answer, law_stands_for};
use crate::rewrite::count_changes;
use crate::size::size;
use crate::strategies::bloat_cap::bloat_rule;
use crate::strategies::cross_turn_dedup::deduped;
use crate::strategies::failed_input_purge::purge_rule;
use crate::strategies::image_strip::image_rule;
use crate::strategies::simhash_dedup::near_rule;
use crate::strategies::sliding_window::{input_stub, pair_rule};
use crate::strategies::stale_input_cap::cap_rule;
use crate::strategies::stale_reads::read_rule;
use crate::strategies::thinking_strip::{old_messages, total_lost, Removal};
use crate::strategies::{
    after_bloat_cap, after_cross_turn_dedup, after_failed_input_purge, after_image_strip,
    after_simhash_dedup, after_sliding_window, after_stale_input_cap, after_stale_reads,
    after_thinking_strip, passage, Passage, Stats,
};
use vstd::prelude::*;

verus! {

/// A number as it is told: the largest that the machine holds where it is larger.
pub open spec fn told(n: nat) -> int {
    if n > usize::MAX {
        usize::MAX as int
    } else {
        n as int
    }
}

/// The bytes of messages as one array.
pub open spec fn bytes_of(messages: Seq<JsonView>) -> nat {
    size(JsonView::Array(messages))
}

/// Whether what is told fits together: the first tells of the messages that came, each further one of
/// what the one before left, and the last of what is left.
pub open spec fn fits_together(
    came: Seq<JsonView>,
    left: Seq<JsonView>,
    fired: Seq<(Seq<char>, Stats)>,
) -> bool {
    &&& fired.len() == 0 ==> left == came
    &&& fired.len() > 0 ==> fired[0].1.original_bytes == told(bytes_of(came))
        && fired.last().1.final_bytes == told(bytes_of(left))
    &&& forall|i: int| 0 < i < fired.len() ==> (#[trigger] fired[i]).1.original_bytes == fired[i
        - 1].1.final_bytes
}

proof fn lemma_through(
    came: Seq<JsonView>,
    p: Passage,
    on: bool,
    name: Seq<char>,
    after: Seq<JsonView>,
    n: nat,
)
    requires
        fits_together(came, p.messages, p.fired),
    ensures
        fits_together(
            came,
            p.through(on, name, after, n).messages,
            p.through(on, name, after, n).fired,
        ),
{
    let q = p.through(on, name, after, n);
    if on {
        assert(q.fired.last() == q.fired[p.fired.len() as int]);
        assert forall|i: int| 0 < i < q.fired.len() implies (#[trigger] q.fired[i]).1.original_bytes
            == q.fired[i - 1].1.final_bytes by {
            if i < p.fired.len() {
                assert(q.fired[i] == p.fired[i]);
                assert(q.fired[i - 1] == p.fired[i - 1]);
            } else {
                assert(q.fired[i - 1] == p.fired.last());
            }
        }
        if p.fired.len() > 0 {
            assert(q.fired[0] == p.fired[0]);
        }
    }
}

/// What the strategies tell of sizes fits together, from what came to what is left.
pub proof fn law_sizes_told(messages: Seq<JsonView>, cfg: &StrategiesConfig)
    ensures
        fits_together(messages, passage(messages, cfg).messages, passage(messages, cfg).fired),
{
    let p0 = Passage { messages, fired: Seq::empty() };
    let p1 = after_failed_input_purge(p0, cfg);
    let p2 = after_stale_input_cap(p1, cfg);
    let p3 = after_cross_turn_dedup(p2, cfg);
    let p4 = after_stale_reads(p3, cfg);
    let p5 = after_simhash_dedup(p4, cfg);
    let p6 = after_bloat_cap(p5, cfg);
    let p7 = after_sliding_window(p6, cfg);
    let p8 = after_image_strip(p7, cfg);
    lemma_told_1(messages, p0, cfg);
    lemma_told_2(messages, p1, cfg);
    lemma_told_3(messages, p2, cfg);
    lemma_told_4(messages, p3, cfg);
    lemma_told_5(messages, p4, cfg);
    lemma_told_6(messages, p5, cfg);
    lemma_told_7(messages, p6, cfg);
    lemma_told_8(messages, p7, cfg);
    lemma_told_9(messages, p8, cfg);
}

proof fn lemma_told_1(came: Seq<JsonView>, p: Passage, cfg: &StrategiesConfig)
    requires
        fits_together(came, p.messages, p.fired),
    ensures
        fits_together(
            came,
            after_failed_input_purge(p, cfg).messages,
            after_failed_input_purge(p, cfg).fired,
        ),
{
    reveal(after_failed_input_purge);
    let q = after_failed_input_purge(p, cfg);
    if cfg.failed_input_purge.enabled {
        let n = count_changes(p.messages, purge_rule(p.messages, &cfg.failed_input_purge));
        lemma_through(came, p, true, q.fired.last().0, q.messages, n);
    }
}

proof fn lemma_told_2(came: Seq<JsonView>, p: Passage, cfg: &StrategiesConfig)
    requires
        fits_together(came, p.messages, p.fired),
    ensures
        fits_together(
            came,
            after_stale_input_cap(p, cfg).messages,
            after_stale_input_cap(p, cfg).fired,
        ),
{
    reveal(after_stale_input_cap);
    let q = after_stale_input_cap(p, cfg);
    if cfg.stale_input_cap.enabled {
        let n = count_changes(p.messages, cap_rule(p.messages, &cfg.stale_input_cap));
        lemma_through(came, p, true, q.fired.last().0, q.messages, n);
    }
}

proof fn lemma_told_3(came: Seq<JsonView>, p: Passage, cfg: &StrategiesConfig)
    requires
        fits_together(came, p.messages, p.fired),
    ensures
        fits_together(
            came,
            after_cross_turn_dedup(p, cfg).messages,
            after_cross_turn_dedup(p, cfg).fired,
        ),
{
    reveal(after_cross_turn_dedup);
    let q = after_cross_turn_dedup(p, cfg);
    if cfg.cross_turn_dedup.enabled {
        let n = deduped(p.messages, &cfg.cross_turn_dedup).1;
        lemma_through(came, p, true, q.fired.last().0, q.messages, n);
    }
}

proof fn lemma_told_4(came: Seq<JsonView>, p: Passage, cfg: &StrategiesConfig)
    requires
        fits_together(came, p.messages, p.fired),
    ensures
        fits_together(
            came,
            after_stale_reads(p, cfg).messages,
            after_stale_reads(p, cfg).fired,
        ),
{
    reveal(after_stale_reads);
    let q = after_stale_reads(p, cfg);
    if cfg.stale_reads.enabled {
        let n = count_changes(p.messages, read_rule(p.messages, &cfg.stale_reads));
        lemma_through(came, p, true, q.fired.last().0, q.messages, n);
    }
}

proof fn lemma_told_5(came: Seq<JsonView>, p: Passage, cfg: &StrategiesConfig)
    requires
        fits_together(came, p.messages, p.fired),
    ensures
        fits_together(
            came,
            after_simhash_dedup(p, cfg).messages,
            after_simhash_dedup(p, cfg).fired,
        ),
{
    reveal(after_simhash_dedup);
    let q = after_simhash_dedup(p, cfg);
    if cfg.simhash_dedup.enabled {
        let n = count_changes(p.messages, near_rule(p.messages, &cfg.simhash_dedup));
        lemma_through(came, p, true, q.fired.last().0, q.messages, n);
    }
}

proof fn lemma_told_6(came: Seq<JsonView>, p: Passage, cfg: &StrategiesConfig)
    requires
        fits_together(came, p.messages, p.fired),
    ensures
        fits_together(
            came,
            after_bloat_cap(p, cfg).messages,
            after_bloat_cap(p, cfg).fired,
        ),
{
    reveal(after_bloat_cap);
    let q = after_bloat_cap(p, cfg);
    if cfg.bloat_cap.enabled {
        let n = count_changes(p.messages, bloat_rule(p.messages, &cfg.bloat_cap));
        lemma_through(came, p, true, q.fired.last().0, q.messages, n);
    }
}

proof fn lemma_told_7(came: Seq<JsonView>, p: Passage, cfg: &StrategiesConfig)
    requires
        fits_together(came, p.messages, p.fired),
    ensures
        fits_together(
            came,
            after_sliding_window(p, cfg).messages,
            after_sliding_window(p, cfg).fired,
        ),
{
    reveal(after_sliding_window);
    let q = after_sliding_window(p, cfg);
    if cfg.sliding_window.enabled {
        let n = count_changes(p.messages, pair_rule(p.messages, &cfg.sliding_window));
        lemma_through(came, p, true, q.fired.last().0, q.messages, n);
    }
}

proof fn lemma_told_8(came: Seq<JsonView>, p: Passage, cfg: &StrategiesConfig)
    requires
        fits_together(came, p.messages, p.fired),
    ensures
        fits_together(
            came,
            after_image_strip(p, cfg).messages,
            after_image_strip(p, cfg).fired,
        ),
{
    reveal(after_image_strip);
    let q = after_image_strip(p, cfg);
    if cfg.image_strip.enabled {
        let n = count_changes(p.messages, image_rule(p.messages, &cfg.image_strip));
        lemma_through(came, p, true, q.fired.last().0, q.messages, n);
    }
}

proof fn lemma_told_9(came: Seq<JsonView>, p: Passage, cfg: &StrategiesConfig)
    requires
        fits_together(came, p.messages, p.fired),
    ensures
        fits_together(
            came,
            after_thinking_strip(p, cfg).messages,
            after_thinking_strip(p, cfg).fired,
        ),
{
    reveal(after_thinking_strip);
    let q = after_thinking_strip(p, cfg);
    if cfg.thinking_strip.enabled {
        let n = total_lost(
            p.messages.take(old_messages(p.messages, &cfg.thinking_strip)),
            Removal::Thinking,
        );
        lemma_through(came, p, true, q.fired.last().0, q.messages, n);
    }
}

/// Each strategy that is on tells how many blocks, or pairs, it changed.
pub proof fn law_counts_told(p: Passage, cfg: &StrategiesConfig)
    ensures
        cfg.failed_input_purge.enabled ==> after_failed_input_purge(p, cfg).fired.last().1.stubbed
            == told(
            count_changes(p.messages, purge_rule(p.messages, &cfg.failed_input_purge)),
        ),
        cfg.stale_input_cap.enabled ==> after_stale_input_cap(p, cfg).fired.last().1.stubbed
            == told(
            count_changes(p.messages, cap_rule(p.messages, &cfg.stale_input_cap)),
        ),
        cfg.cross_turn_dedup.enabled ==> after_cross_turn_dedup(p, cfg).fired.last().1.stubbed
            == told(
            deduped(p.messages, &cfg.cross_turn_dedup).1,
        ),
        cfg.stale_reads.enabled ==> after_stale_reads(p, cfg).fired.last().1.stubbed
            == told(
            count_changes(p.messages, read_rule(p.messages, &cfg.stale_reads)),
        ),
        cfg.simhash_dedup.enabled ==> after_simhash_dedup(p, cfg).fired.last().1.stubbed
            == told(
            count_changes(p.messages, near_rule(p.messages, &cfg.simhash_dedup)),
        ),
        cfg.bloat_cap.enabled ==> after_bloat_cap(p, cfg).fired.last().1.stubbed
            == told(
            count_changes(p.messages, bloat_rule(p.messages, &cfg.bloat_cap)),
        ),
        cfg.sliding_window.enabled ==> after_sliding_window(p, cfg).fired.last().1.stubbed
            == told(
            count_changes(p.messages, pair_rule(p.messages, &cfg.sliding_window)),
        ),
        cfg.image_strip.enabled ==> after_image_strip(p, cfg).fired.last().1.stubbed
            == told(
            count_changes(p.messages, image_rule(p.messages, &cfg.image_strip)),
        ),
        cfg.thinking_strip.enabled ==> after_thinking_strip(p, cfg).fired.last().1.stubbed
            == told(
            total_lost(
            p.messages.take(old_messages(p.messages, &cfg.thinking_strip)),
            Removal::Thinking,
        ),
        ),
{
    reveal(after_failed_input_purge);
    reveal(after_stale_input_cap);
    reveal(after_cross_turn_dedup);
    reveal(after_stale_reads);
    reveal(after_simhash_dedup);
    reveal(after_bloat_cap);
    reveal(after_sliding_window);
    reveal(after_image_strip);
    reveal(after_thinking_strip);
}

/// A pair counts once, at the call that counts for its id, where its input or its content changes;
/// nothing else counts.
pub proof fn law_pair_counted(messages: Seq<JsonView>, cfg: &SlidingWindowConfig, mi: int, ci: int)
    requires
        block_at(messages, mi, ci) is Some,
    ensures
        ({
            let b = block_at(messages, mi, ci)->0;
            let counted = pair_rule(messages, cfg)(mi, ci, b) is Some;
            &&& forall|id: Seq<char>| #[trigger]
                call_at(messages, id, mi, ci) ==> (counted <==> pair_goes(messages, cfg, id) && (
                input_goes(b) || content_goes(messages, cfg, id)))
            &&& (forall|id: Seq<char>| !#[trigger] call_at(messages, id, mi, ci)) ==> !counted
        }),
{
    let b = block_at(messages, mi, ci)->0;
    if let Some(name) = b.get_str("name"@) {
        law_terms(b, Seq::empty(), JsonView::Null, name);
    }
    if let Some(id) = last_use(messages, mi, ci, b) {
        law_stands_for(messages, id, mi, ci);
    }
    assert(input_stub(b) is Some <==> b.get("input"@) is Some && input_left(b.get("input"@)->0)
        != b.get("input"@)->0) by {
        if let Some(input) = b.get("input"@) {
            lemma_input_left(input);
        }
    }
    assert forall|id: Seq<char>| #[trigger] call_at(messages, id, mi, ci) implies (pair_rule(
        messages,
        cfg,
    )(mi, ci, b) is Some <==> pair_goes(messages, cfg, id) && (input_goes(b) || content_goes(
        messages,
        cfg,
        id,
    ))) by {
        law_stands_for(messages, id, mi, ci);
        super::window::lemma_pair_goes(messages, cfg, id);
        law_has_answer(messages, id);
        if result_positions(messages).contains_key(id) {
            let (a, c) = result_positions(messages)[id];
            lemma_answer(messages, id, a, c);
            let res = block_at(messages, a, c)->0;
            law_terms(res, "content"@, held(res, "content"@), cfg.stub@);
            assert(answer_at(messages, id, a, c));
        }
        if content_goes(messages, cfg, id) {
            let (a, c) = choose|a: int, c: int| #[trigger]
                answer_at(messages, id, a, c) && !left_alone(
                    held(block_at(messages, a, c)->0, "content"@),
                    cfg.stub@,
                );
            law_stands_for(messages, id, a, c);
        }
    }
}

proof fn lemma_answer(messages: Seq<JsonView>, id: Seq<char>, mi: int, ci: int)
    requires
        result_positions(messages).contains_key(id),
        result_positions(messages)[id] == (mi, ci),
    ensures
        answer_at(messages, id, mi, ci),
{
    law_has_answer(messages, id);
    let (a, c) = choose|a: int, c: int| #[trigger] answer_at(messages, id, a, c);
    law_stands_for(messages, id, a, c);
}

proof fn lemma_input_left(input: JsonView)
    ensures
        input_left(input) == input <==> input == JsonView::Object(Map::empty()) || input
            == JsonView::Object(
            Map::<Seq<char>, JsonView>::empty().insert(
                "_trimwire"@,
                JsonView::String("[trimwire: input elided — older than the sliding window]"@),
            ),
        ),
{
}

/// Whether the input of a call goes with its pair: it has one that is not elided already, and its
/// tool does not write files.
pub open spec fn input_goes(b: JsonView) -> bool {
    &&& b.get("input"@) is Some
    &&& input_left(b.get("input"@)->0) != b.get("input"@)->0
    &&& !(b.get("name"@) matches Some(JsonView::String(name)) && writes(name))
}

/// Whether a content bears the stub or was cleared.
pub open spec fn left_alone(content: JsonView, stub: Seq<char>) -> bool {
    stubbed(content, stub) || cleared(content)
}

/// Whether the result that counts for an id has a content that is not gone already.
pub open spec fn content_goes(
    messages: Seq<JsonView>,
    cfg: &SlidingWindowConfig,
    id: Seq<char>,
) -> bool {
    exists|a: int, c: int| #[trigger]
        answer_at(messages, id, a, c) && !left_alone(
            held(block_at(messages, a, c)->0, "content"@),
            cfg.stub@,
        )
}

/// A transcript is refused with the id of a result, wherever it stands, for which there is no call.
pub proof fn law_refused(messages: Seq<JsonView>, id: String)
    ensures
        refused(messages, PairingError::OrphanResult(id)) <==> !called(messages, id@) && exists|
            mi: int,
            ci: int,
        | #[trigger] answered_at(messages, id@, mi, ci),
{
    law_has_answer(messages, id@);
    crate::pairing_laws::law_paired(messages);
    if result_positions(messages).contains_key(id@) {
        let (a, c) = result_positions(messages)[id@];
        lemma_answer(messages, id@, a, c);
        assert(answered_at(messages, id@, a, c));
    }
    if exists|mi: int, ci: int| #[trigger] answered_at(messages, id@, mi, ci) {
        let (mi, ci) = choose|mi: int, ci: int| #[trigger] answered_at(messages, id@, mi, ci);
        assert(block_at(messages, mi, ci) is Some);
    }
}

} // verus!
