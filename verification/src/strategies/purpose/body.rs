//! What becomes of a body: which strategies run, in which order, and when it stays as it came.

use super::said_by;
use crate::config::StrategiesConfig;
use crate::json::{parsed_json, JsonView};
use crate::pairing::paired;
use crate::rewrite::rewrite;
use crate::strategies::bloat_cap::bloat_rule;
use crate::strategies::cross_turn_dedup::deduped;
use crate::strategies::failed_input_purge::purge_rule;
use crate::strategies::image_strip::image_rule;
use crate::strategies::simhash_dedup::near_rule;
use crate::strategies::sliding_window::window_rule;
use crate::strategies::stale_input_cap::cap_rule;
use crate::strategies::stale_reads::read_rule;
use crate::strategies::system_shape_normalize::{normalized, stray};
use crate::strategies::thinking_strip::{
    law_strip_no_change, old_messages, strip_until, total_lost, Removal,
};
use super::thinking::law_lost;
use crate::strategies::{
    after_bloat_cap, after_cross_turn_dedup, after_failed_input_purge, after_image_strip,
    after_simhash_dedup, after_sliding_window, after_stale_input_cap, after_stale_reads,
    after_thinking_strip, passage, pruned, pruned_body, prunes, repaired, Passage, Stats,
};
use vstd::prelude::*;

verus! {

/// A transcript after a strategy, where that is on.
pub open spec fn if_on(on: bool, after: Seq<JsonView>, before: Seq<JsonView>) -> Seq<JsonView> {
    if on {
        after
    } else {
        before
    }
}

/// The strategies that are on run one after another on what the one before left: failed inputs,
/// stale inputs, repeats, stale reads, near-duplicates, oversized results, the window, images, and
/// thinking.
pub proof fn law_passage_order(messages: Seq<JsonView>, cfg: &StrategiesConfig)
    ensures
        ({
            let m0 = messages;
            let m1 = if_on(
                cfg.failed_input_purge.enabled,
                rewrite(m0, purge_rule(m0, &cfg.failed_input_purge)),
                m0,
            );
            let m2 = if_on(
                cfg.stale_input_cap.enabled,
                rewrite(m1, cap_rule(m1, &cfg.stale_input_cap)),
                m1,
            );
            let m3 = if_on(
                cfg.cross_turn_dedup.enabled,
                deduped(m2, &cfg.cross_turn_dedup).0,
                m2,
            );
            let m4 = if_on(
                cfg.stale_reads.enabled,
                rewrite(m3, read_rule(m3, &cfg.stale_reads)),
                m3,
            );
            let m5 = if_on(
                cfg.simhash_dedup.enabled,
                rewrite(m4, near_rule(m4, &cfg.simhash_dedup)),
                m4,
            );
            let m6 = if_on(
                cfg.bloat_cap.enabled,
                rewrite(m5, bloat_rule(m5, &cfg.bloat_cap)),
                m5,
            );
            let m7 = if_on(
                cfg.sliding_window.enabled,
                rewrite(m6, window_rule(m6, &cfg.sliding_window)),
                m6,
            );
            let m8 = if_on(
                cfg.image_strip.enabled,
                rewrite(m7, image_rule(m7, &cfg.image_strip)),
                m7,
            );
            let m9 = if_on(
                cfg.thinking_strip.enabled,
                strip_until(m8, Removal::Thinking, old_messages(m8, &cfg.thinking_strip)),
                m8,
            );
            passage(messages, cfg).messages == m9
        }),
{
    reveal(after_failed_input_purge);
    reveal(after_stale_input_cap);
    reveal(after_cross_turn_dedup);
    reveal(after_stale_reads);
    reveal(after_simhash_dedup);
    reveal(after_bloat_cap);
    reveal(after_sliding_window);
    reveal(after_image_strip);
    reveal(after_thinking_strip);
}

/// A name, if a strategy is on.
pub open spec fn name_if(on: bool, name: Seq<char>) -> Seq<Seq<char>> {
    if on {
        seq![name]
    } else {
        Seq::empty()
    }
}

/// The names of those that say what they did.
pub open spec fn names_of(fired: Seq<(Seq<char>, Stats)>) -> Seq<Seq<char>> {
    Seq::new(fired.len(), |i: int| fired[i].0)
}

proof fn lemma_names(
    before: Seq<(Seq<char>, Stats)>,
    after: Seq<(Seq<char>, Stats)>,
    on: bool,
    name: Seq<char>,
)
    requires
        on ==> after.len() == before.len() + 1 && after.drop_last() == before && after.last().0 == name,
        !on ==> after == before,
    ensures
        names_of(after) == names_of(before) + name_if(on, name),
{
    if on {
        assert forall|i: int| 0 <= i < before.len() implies after[i] == before[i] by {
            assert(after.drop_last()[i] == after[i]);
        }
    }
    assert(names_of(after) =~= names_of(before) + name_if(on, name));
}

proof fn lemma_name_of_failed_input_purge(p: Passage, cfg: &StrategiesConfig)
    ensures
        names_of(after_failed_input_purge(p, cfg).fired) == names_of(p.fired) + name_if(
            cfg.failed_input_purge.enabled,
            "failed_input_purge"@,
        ),
{
    reveal(after_failed_input_purge);
    let after = after_failed_input_purge(p, cfg).fired;
    if cfg.failed_input_purge.enabled {
        assert(after.drop_last() =~= p.fired);
    }
    lemma_names(p.fired, after, cfg.failed_input_purge.enabled, "failed_input_purge"@);
}

proof fn lemma_name_of_stale_input_cap(p: Passage, cfg: &StrategiesConfig)
    ensures
        names_of(after_stale_input_cap(p, cfg).fired) == names_of(p.fired) + name_if(
            cfg.stale_input_cap.enabled,
            "stale_input_cap"@,
        ),
{
    reveal(after_stale_input_cap);
    let after = after_stale_input_cap(p, cfg).fired;
    if cfg.stale_input_cap.enabled {
        assert(after.drop_last() =~= p.fired);
    }
    lemma_names(p.fired, after, cfg.stale_input_cap.enabled, "stale_input_cap"@);
}

proof fn lemma_name_of_cross_turn_dedup(p: Passage, cfg: &StrategiesConfig)
    ensures
        names_of(after_cross_turn_dedup(p, cfg).fired) == names_of(p.fired) + name_if(
            cfg.cross_turn_dedup.enabled,
            "cross_turn_dedup"@,
        ),
{
    reveal(after_cross_turn_dedup);
    let after = after_cross_turn_dedup(p, cfg).fired;
    if cfg.cross_turn_dedup.enabled {
        assert(after.drop_last() =~= p.fired);
    }
    lemma_names(p.fired, after, cfg.cross_turn_dedup.enabled, "cross_turn_dedup"@);
}

proof fn lemma_name_of_stale_reads(p: Passage, cfg: &StrategiesConfig)
    ensures
        names_of(after_stale_reads(p, cfg).fired) == names_of(p.fired) + name_if(
            cfg.stale_reads.enabled,
            "stale_reads"@,
        ),
{
    reveal(after_stale_reads);
    let after = after_stale_reads(p, cfg).fired;
    if cfg.stale_reads.enabled {
        assert(after.drop_last() =~= p.fired);
    }
    lemma_names(p.fired, after, cfg.stale_reads.enabled, "stale_reads"@);
}

proof fn lemma_name_of_simhash_dedup(p: Passage, cfg: &StrategiesConfig)
    ensures
        names_of(after_simhash_dedup(p, cfg).fired) == names_of(p.fired) + name_if(
            cfg.simhash_dedup.enabled,
            "simhash_dedup"@,
        ),
{
    reveal(after_simhash_dedup);
    let after = after_simhash_dedup(p, cfg).fired;
    if cfg.simhash_dedup.enabled {
        assert(after.drop_last() =~= p.fired);
    }
    lemma_names(p.fired, after, cfg.simhash_dedup.enabled, "simhash_dedup"@);
}

proof fn lemma_name_of_bloat_cap(p: Passage, cfg: &StrategiesConfig)
    ensures
        names_of(after_bloat_cap(p, cfg).fired) == names_of(p.fired) + name_if(
            cfg.bloat_cap.enabled,
            "bloat_cap"@,
        ),
{
    reveal(after_bloat_cap);
    let after = after_bloat_cap(p, cfg).fired;
    if cfg.bloat_cap.enabled {
        assert(after.drop_last() =~= p.fired);
    }
    lemma_names(p.fired, after, cfg.bloat_cap.enabled, "bloat_cap"@);
}

proof fn lemma_name_of_sliding_window(p: Passage, cfg: &StrategiesConfig)
    ensures
        names_of(after_sliding_window(p, cfg).fired) == names_of(p.fired) + name_if(
            cfg.sliding_window.enabled,
            "sliding_window"@,
        ),
{
    reveal(after_sliding_window);
    let after = after_sliding_window(p, cfg).fired;
    if cfg.sliding_window.enabled {
        assert(after.drop_last() =~= p.fired);
    }
    lemma_names(p.fired, after, cfg.sliding_window.enabled, "sliding_window"@);
}

proof fn lemma_name_of_image_strip(p: Passage, cfg: &StrategiesConfig)
    ensures
        names_of(after_image_strip(p, cfg).fired) == names_of(p.fired) + name_if(
            cfg.image_strip.enabled,
            "image_strip"@,
        ),
{
    reveal(after_image_strip);
    let after = after_image_strip(p, cfg).fired;
    if cfg.image_strip.enabled {
        assert(after.drop_last() =~= p.fired);
    }
    lemma_names(p.fired, after, cfg.image_strip.enabled, "image_strip"@);
}

proof fn lemma_name_of_thinking_strip(p: Passage, cfg: &StrategiesConfig)
    ensures
        names_of(after_thinking_strip(p, cfg).fired) == names_of(p.fired) + name_if(
            cfg.thinking_strip.enabled,
            "thinking_strip"@,
        ),
{
    reveal(after_thinking_strip);
    let after = after_thinking_strip(p, cfg).fired;
    if cfg.thinking_strip.enabled {
        assert(after.drop_last() =~= p.fired);
    }
    lemma_names(p.fired, after, cfg.thinking_strip.enabled, "thinking_strip"@);
}

/// Each strategy that is on says once what it did, in the order in which they run.
pub proof fn law_fired_names(messages: Seq<JsonView>, cfg: &StrategiesConfig)
    ensures
        names_of(passage(messages, cfg).fired) == name_if(
            cfg.failed_input_purge.enabled,
            "failed_input_purge"@,
        ) + name_if(
            cfg.stale_input_cap.enabled,
            "stale_input_cap"@,
        ) + name_if(cfg.cross_turn_dedup.enabled, "cross_turn_dedup"@) + name_if(
            cfg.stale_reads.enabled,
            "stale_reads"@,
        ) + name_if(cfg.simhash_dedup.enabled, "simhash_dedup"@) + name_if(
            cfg.bloat_cap.enabled,
            "bloat_cap"@,
        ) + name_if(cfg.sliding_window.enabled, "sliding_window"@) + name_if(
            cfg.image_strip.enabled,
            "image_strip"@,
        ) + name_if(cfg.thinking_strip.enabled, "thinking_strip"@),
{
    let p0 = Passage { messages, fired: Seq::empty() };
    assert(names_of(p0.fired) =~= Seq::<Seq<char>>::empty());
    let p1 = after_failed_input_purge(p0, cfg);
    lemma_name_of_failed_input_purge(p0, cfg);
    let p2 = after_stale_input_cap(p1, cfg);
    lemma_name_of_stale_input_cap(p1, cfg);
    let p3 = after_cross_turn_dedup(p2, cfg);
    lemma_name_of_cross_turn_dedup(p2, cfg);
    let p4 = after_stale_reads(p3, cfg);
    lemma_name_of_stale_reads(p3, cfg);
    let p5 = after_simhash_dedup(p4, cfg);
    lemma_name_of_simhash_dedup(p4, cfg);
    let p6 = after_bloat_cap(p5, cfg);
    lemma_name_of_bloat_cap(p5, cfg);
    let p7 = after_sliding_window(p6, cfg);
    lemma_name_of_sliding_window(p6, cfg);
    let p8 = after_image_strip(p7, cfg);
    lemma_name_of_image_strip(p7, cfg);
    let p9 = after_thinking_strip(p8, cfg);
    lemma_name_of_thinking_strip(p8, cfg);
    assert(names_of(p1.fired) =~= name_if(cfg.failed_input_purge.enabled, "failed_input_purge"@));
}

/// Whether a body has a system message in front that belongs elsewhere: there is another message
/// behind it, it holds something, and the body has no system text.
pub open spec fn misplaced(root: JsonView) -> bool {
    &&& root.get("messages"@) matches Some(JsonView::Array(messages)) && messages.len() > 1
        && said_by(messages, 0, "system"@) && messages[0].get("content"@) is Some
        && messages[0].get("content"@) != Some(JsonView::Null)
    &&& root.get("system"@) is None || root.get("system"@) == Some(JsonView::Null)
}

/// The repair takes a misplaced system message out and makes what it holds the system text; a body
/// without one stays.
pub proof fn law_normalized(root: JsonView)
    ensures
        stray(root) <==> misplaced(root),
        !misplaced(root) ==> normalized(root) == root,
        misplaced(root) ==> {
            let messages = root.get_array("messages"@)->0;
            &&& normalized(root).get("messages"@) == Some(JsonView::Array(messages.skip(1)))
            &&& normalized(root).get("system"@) == messages[0].get("content"@)
        },
{
    reveal_strlit("messages");
    reveal_strlit("system");
    assert("messages"@.len() == 8 && "system"@.len() == 6);
    if misplaced(root) {
        let messages = root.get_array("messages"@)->0;
        assert(messages.skip(1) =~= messages.drop_first());
    }
}

/// A body with its misplaced system message repaired, where that is on.
pub open spec fn put_right(root: JsonView, cfg: &StrategiesConfig) -> JsonView {
    if cfg.system_shape_normalize.enabled && misplaced(root) {
        normalized(root)
    } else {
        root
    }
}

/// The messages that the strategies leave, less the blocks without words.
pub open spec fn what_is_left(messages: Seq<JsonView>, cfg: &StrategiesConfig) -> Seq<JsonView> {
    let left = passage(messages, cfg).messages;
    strip_until(left, Removal::Empty, left.len() as int)
}

/// Whether a strategy says that it changed something, or a block without words goes.
pub open spec fn something_goes(messages: Seq<JsonView>, cfg: &StrategiesConfig) -> bool {
    let left = passage(messages, cfg);
    ||| exists|i: int| 0 <= i < left.fired.len() && (#[trigger] left.fired[i]).1.stubbed > 0
    ||| what_is_left(messages, cfg) != left.messages
}

proof fn lemma_something_goes(messages: Seq<JsonView>, cfg: &StrategiesConfig)
    ensures
        something_goes(messages, cfg) == prunes(messages, cfg),
        what_is_left(messages, cfg) == pruned(messages, cfg),
{
    let left = passage(messages, cfg).messages;
    if total_lost(left, Removal::Empty) > 0 {
        law_lost(left, Removal::Empty);
    } else {
        assert(left.take(left.len() as int) =~= left);
        law_strip_no_change(left, Removal::Empty, left.len() as int);
    }
}

/// A body changes exactly where it is JSON with messages of which each result has its call, and
/// either a misplaced system message is repaired, or a strategy says that it changed something, or a
/// block without words goes. It then has the messages that the strategies leave, less such blocks,
/// and everything else as it was.
pub proof fn law_body(body: Seq<u8>, cfg: &StrategiesConfig)
    ensures
        parsed_json(body) is None ==> pruned_body(body, cfg) is None,
        parsed_json(body) matches Some(root) ==> match put_right(root, cfg).get_array("messages"@) {
            Some(messages) => pruned_body(body, cfg) == if paired(messages) && ((
            cfg.system_shape_normalize.enabled && misplaced(root)) || something_goes(messages, cfg)) {
                Some(
                    (
                        put_right(root, cfg).with(
                            "messages"@,
                            JsonView::Array(what_is_left(messages, cfg)),
                        ),
                        passage(messages, cfg).fired,
                    ),
                )
            } else {
                None
            },
            None => pruned_body(body, cfg) is None,
        },
{
    if let Some(root) = parsed_json(body) {
        law_normalized(root);
        assert(put_right(root, cfg) == repaired(root, cfg));
        if let Some(messages) = put_right(root, cfg).get_array("messages"@) {
            lemma_something_goes(messages, cfg);
        }
    }
}

} // verus!
