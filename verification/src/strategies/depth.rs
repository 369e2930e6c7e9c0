//! How deep a pruned body nests: where the body could be read, the pruned one can be read too.

use super::bloat_cap::{bloat_rule, cap_item, cap_items};
use super::cross_turn_dedup::{deduped, echo_rule, extend_rule, repeat_rule};
use super::failed_input_purge::{purge_rule, purge_value, purged};
use super::image_strip::image_rule;
use super::simhash_dedup::near_rule;
use super::sliding_window::{elided_input, empty_input, window_rule};
use super::stale_input_cap::{authored, authored_value, cap_rule, deed, named_file};
use super::stale_reads::read_rule;
use super::system_shape_normalize::{lifted, normalized, stray};
use super::thinking_strip::{
    kept, lemma_kept_nests, old_messages, strip_message, strip_until, Removal,
};
use super::{
    after_bloat_cap, after_cross_turn_dedup, after_failed_input_purge, after_image_strip,
    after_simhash_dedup, after_sliding_window, after_stale_input_cap, after_stale_reads,
    after_thinking_strip, passage, pruned, pruned_root, repaired, Passage,
};
use crate::config::StrategiesConfig;
use crate::json::{lemma_nests_get, lemma_nests_with, map_members, nests, JsonView};
use crate::rewrite::{rewrite, rewrite_block, rewrite_blocks, rewrite_message, Rule};
use vstd::prelude::*;

verus! {

/// Whether none of some messages nests deeper than `depth`.
pub open spec fn all_nest(messages: Seq<JsonView>, depth: nat) -> bool {
    forall|i: int| 0 <= i < messages.len() ==> nests(#[trigger] messages[i], depth)
}

/// Whether a rule makes no block that nests no deeper than `depth` nest deeper.
spec fn keeps_depth(rule: Rule, depth: nat) -> bool {
    forall|mi: int, ci: int, b: JsonView|
        #![trigger rule(mi, ci, b)]
        match rule(mi, ci, b) {
            Some(new) => nests(b, depth) ==> nests(new, depth),
            None => true,
        }
}

/// A value that nests no deeper than some depth nests no deeper than a greater one.
proof fn lemma_nests_more(v: JsonView, depth: nat, more: nat)
    requires
        nests(v, depth),
        depth <= more,
    ensures
        nests(v, more),
    decreases depth,
{
    match v {
        JsonView::Array(items) => {
            assert forall|i: int| 0 <= i < items.len() implies nests(
                #[trigger] items[i],
                (more - 1) as nat,
            ) by {
                lemma_nests_more(items[i], (depth - 1) as nat, (more - 1) as nat);
            }
        },
        JsonView::Object(m) => {
            assert forall|k: Seq<char>| m.contains_key(k) implies nests(
                #[trigger] m[k],
                (more - 1) as nat,
            ) by {
                lemma_nests_more(m[k], (depth - 1) as nat, (more - 1) as nat);
            }
        },
        _ => {},
    }
}

/// Messages whose blocks are changed by a rule that keeps their depth keep theirs.
proof fn lemma_rewrite_nests(messages: Seq<JsonView>, rule: Rule, depth: nat)
    requires
        all_nest(messages, depth),
        depth >= 2,
        keeps_depth(rule, (depth - 2) as nat),
    ensures
        all_nest(rewrite(messages, rule), depth),
{
    let after = rewrite(messages, rule);
    assert forall|mi: int| 0 <= mi < after.len() implies nests(#[trigger] after[mi], depth) by {
        let msg = messages[mi];
        assert(nests(msg, depth));
        assert(after[mi] == rewrite_message(msg, mi, rule));
        if let Some(blocks) = msg.get_array("content"@) {
            lemma_nests_get(msg, "content"@, depth);
            let new = rewrite_blocks(blocks, mi, rule);
            assert forall|ci: int| 0 <= ci < new.len() implies nests(
                #[trigger] new[ci],
                (depth - 2) as nat,
            ) by {
                assert(nests(blocks[ci], (depth - 2) as nat));
                assert(new[ci] == rewrite_block(blocks[ci], mi, ci, rule));
            }
            assert(nests(JsonView::Array(new), (depth - 1) as nat));
            lemma_nests_with(msg, "content"@, JsonView::Array(new), depth);
        }
    }
}

/// Whether all that a rule does is to set a member of blocks to a text.
spec fn sets_text(rule: Rule, key: Seq<char>) -> bool {
    forall|mi: int, ci: int, b: JsonView|
        #![trigger rule(mi, ci, b)]
        match rule(mi, ci, b) {
            Some(new) => new.get(key) matches Some(v) && v is String && new == b.with(key, v),
            None => true,
        }
}

proof fn lemma_text_nests(rule: Rule, key: Seq<char>, depth: nat)
    requires
        sets_text(rule, key),
        depth > 0,
    ensures
        keeps_depth(rule, depth),
{
    assert forall|mi: int, ci: int, b: JsonView| #![trigger rule(mi, ci, b)]
        rule(mi, ci, b) is Some && nests(b, depth) implies nests(rule(mi, ci, b)->0, depth) by {
        lemma_nests_with(b, key, (rule(mi, ci, b)->0).get(key)->0, depth);
    }
}

/// An object some of whose members give way to texts nests no deeper.
proof fn lemma_members_nest(
    m: Map<Seq<char>, JsonView>,
    f: spec_fn(JsonView) -> Option<JsonView>,
    depth: nat,
)
    requires
        nests(JsonView::Object(m), depth),
        forall|v: JsonView| (#[trigger] f(v)) matches Some(x) ==> x is String,
    ensures
        nests(JsonView::Object(map_members(m, f)), depth),
{
    let n = map_members(m, f);
    let below = (depth - 1) as nat;
    assert(depth > 0);
    assert forall|k: Seq<char>| m.contains_key(k) implies nests(#[trigger] m[k], below) by {
        lemma_nests_get(JsonView::Object(m), k, depth);
    }
    assert forall|k: Seq<char>| n.contains_key(k) implies nests(
        #[trigger] n[k],
        (depth - 1) as nat,
    ) by {
        assert(m.contains_key(k));
        assert(nests(m[k], (depth - 1) as nat));
        assert(f(m[k]) matches Some(x) ==> x is String);
    }
}

proof fn lemma_purged_nests(input: JsonView, depth: nat)
    requires
        nests(input, depth),
    ensures
        purged(input) matches Some(v) ==> nests(v, depth),
{
    if let JsonView::Object(m) = input {
        lemma_members_nest(m, |v: JsonView| purge_value(v), depth);
    }
}

proof fn lemma_authored_nests(name: Seq<char>, input: JsonView, depth: nat)
    requires
        nests(input, depth),
    ensures
        authored(name, input) matches Some(v) ==> nests(v, depth),
{
    if let JsonView::Object(m) = input {
        lemma_members_nest(
            m,
            |v: JsonView| authored_value(deed(name), named_file(input), v),
            depth,
        );
    }
}

/// The array of a capped result nests no deeper than the result.
proof fn lemma_capped_nests(rule: Rule, messages: Seq<JsonView>, cfg: &StrategiesConfig, depth: nat)
    requires
        rule == bloat_rule(messages, &cfg.bloat_cap),
        depth >= 3,
    ensures
        keeps_depth(rule, depth),
{
    let c = &cfg.bloat_cap;
    assert forall|mi: int, ci: int, b: JsonView| #![trigger rule(mi, ci, b)]
        rule(mi, ci, b) is Some && nests(b, depth) implies nests(rule(mi, ci, b)->0, depth) by {
        let new = (rule(mi, ci, b)->0).get("content"@)->0;
        lemma_nests_get(b, "content"@, depth);
        if let Some(JsonView::Array(items)) = b.get("content"@) {
            lemma_cap_items_nest(items, c, true, (depth - 2) as nat);
            lemma_cap_items_nest(items, c, false, (depth - 2) as nat);
            assert(nests(new, (depth - 1) as nat));
        }
        lemma_nests_with(b, "content"@, new, depth);
    }
}

proof fn lemma_cap_items_nest(
    items: Seq<JsonView>,
    c: &crate::config::BloatCapConfig,
    recent: bool,
    depth: nat,
)
    requires
        all_nest(items, depth),
        depth > 0,
    ensures
        all_nest(cap_items(items, c, recent), depth),
{
    let new = cap_items(items, c, recent);
    assert forall|i: int| 0 <= i < new.len() implies nests(#[trigger] new[i], depth) by {
        assert(nests(items[i], depth));
        assert(new[i] == cap_item(items[i], c, recent));
        if let Some(v) = new[i].get("text"@) {
            if new[i] != items[i] {
                lemma_nests_with(items[i], "text"@, v, depth);
            }
        }
    }
}

proof fn lemma_window_nests(messages: Seq<JsonView>, cfg: &StrategiesConfig, depth: nat)
    requires
        depth >= 2,
    ensures
        keeps_depth(window_rule(messages, &cfg.sliding_window), depth),
{
    let rule = window_rule(messages, &cfg.sliding_window);
    let below = (depth - 1) as nat;
    reveal_with_fuel(nests, 2);
    assert(nests(empty_input(), below));
    assert(nests(elided_input(), below));
    assert forall|mi: int, ci: int, b: JsonView| #![trigger rule(mi, ci, b)]
        rule(mi, ci, b) is Some && nests(b, depth) implies nests(rule(mi, ci, b)->0, depth) by {
        let new = rule(mi, ci, b)->0;
        if let Some(v) = new.get("input"@) {
            if nests(v, below) {
                lemma_nests_with(b, "input"@, v, depth);
            }
        }
        if let Some(v) = new.get("content"@) {
            if nests(v, below) {
                lemma_nests_with(b, "content"@, v, depth);
            }
        }
    }
}

proof fn lemma_inputs_nest(messages: Seq<JsonView>, cfg: &StrategiesConfig, depth: nat)
    requires
        depth > 0,
    ensures
        keeps_depth(purge_rule(messages, &cfg.failed_input_purge), depth),
        keeps_depth(cap_rule(messages, &cfg.stale_input_cap), depth),
{
    let purge = purge_rule(messages, &cfg.failed_input_purge);
    let cap = cap_rule(messages, &cfg.stale_input_cap);
    let below = (depth - 1) as nat;
    assert forall|mi: int, ci: int, b: JsonView| #![trigger purge(mi, ci, b)]
        purge(mi, ci, b) is Some && nests(b, depth) implies nests(purge(mi, ci, b)->0, depth) by {
        lemma_nests_get(b, "input"@, depth);
        lemma_purged_nests(b.get("input"@)->0, below);
        lemma_nests_with(b, "input"@, (purge(mi, ci, b)->0).get("input"@)->0, depth);
    }
    assert forall|mi: int, ci: int, b: JsonView| #![trigger cap(mi, ci, b)]
        cap(mi, ci, b) is Some && nests(b, depth) implies nests(cap(mi, ci, b)->0, depth) by {
        lemma_nests_get(b, "input"@, depth);
        let input = b.get("input"@)->0;
        lemma_purged_nests(input, below);
        lemma_authored_nests(b.get_str("name"@)->0, input, below);
        lemma_nests_with(b, "input"@, (cap(mi, ci, b)->0).get("input"@)->0, depth);
    }
}

proof fn lemma_strip_nests(messages: Seq<JsonView>, removal: Removal, upto: int, depth: nat)
    requires
        all_nest(messages, depth),
    ensures
        all_nest(strip_until(messages, removal, upto), depth),
{
    let after = strip_until(messages, removal, upto);
    assert forall|mi: int| 0 <= mi < after.len() implies nests(#[trigger] after[mi], depth) by {
        let msg = messages[mi];
        assert(nests(msg, depth));
        if let Some(blocks) = msg.get_array("content"@) {
            lemma_nests_get(msg, "content"@, depth);
            lemma_kept_nests(blocks, removal, (depth - 2) as nat);
            let stay = JsonView::Array(kept(blocks, removal));
            assert(nests(stay, (depth - 1) as nat));
            lemma_nests_with(msg, "content"@, stay, depth);
        }
        assert(after[mi] == msg || after[mi] == strip_message(msg, removal));
    }
}

/// No strategy makes a transcript nest deeper.
proof fn lemma_passage_nests(messages: Seq<JsonView>, cfg: &StrategiesConfig, depth: nat)
    requires
        all_nest(messages, depth),
        depth >= 5,
    ensures
        all_nest(passage(messages, cfg).messages, depth),
{
    let d = (depth - 2) as nat;
    let p0 = Passage { messages, fired: Seq::empty() };
    let p1 = after_failed_input_purge(p0, cfg);
    let p2 = after_stale_input_cap(p1, cfg);
    let p3 = after_cross_turn_dedup(p2, cfg);
    let p4 = after_stale_reads(p3, cfg);
    let p5 = after_simhash_dedup(p4, cfg);
    let p6 = after_bloat_cap(p5, cfg);
    let p7 = after_sliding_window(p6, cfg);
    let p8 = after_image_strip(p7, cfg);
    assert(all_nest(p1.messages, depth)) by {
        reveal(after_failed_input_purge);
        lemma_inputs_nest(messages, cfg, d);
        lemma_rewrite_nests(messages, purge_rule(messages, &cfg.failed_input_purge), depth);
    }
    assert(all_nest(p2.messages, depth)) by {
        reveal(after_stale_input_cap);
        lemma_inputs_nest(p1.messages, cfg, d);
        lemma_rewrite_nests(p1.messages, cap_rule(p1.messages, &cfg.stale_input_cap), depth);
    }
    assert(all_nest(p3.messages, depth)) by {
        reveal(after_cross_turn_dedup);
        lemma_deduped_nests(p2.messages, cfg, depth);
    }
    assert(all_nest(p4.messages, depth)) by {
        reveal(after_stale_reads);
        let rule = read_rule(p3.messages, &cfg.stale_reads);
        assert(sets_text(rule, "content"@));
        lemma_text_nests(rule, "content"@, d);
        lemma_rewrite_nests(p3.messages, rule, depth);
    }
    assert(all_nest(p5.messages, depth)) by {
        reveal(after_simhash_dedup);
        let rule = near_rule(p4.messages, &cfg.simhash_dedup);
        assert(sets_text(rule, "content"@));
        lemma_text_nests(rule, "content"@, d);
        lemma_rewrite_nests(p4.messages, rule, depth);
    }
    assert(all_nest(p6.messages, depth)) by {
        reveal(after_bloat_cap);
        let rule = bloat_rule(p5.messages, &cfg.bloat_cap);
        lemma_capped_nests(rule, p5.messages, cfg, d);
        lemma_rewrite_nests(p5.messages, rule, depth);
    }
    assert(all_nest(p7.messages, depth)) by {
        reveal(after_sliding_window);
        lemma_window_nests(p6.messages, cfg, d);
        lemma_rewrite_nests(p6.messages, window_rule(p6.messages, &cfg.sliding_window), depth);
    }
    assert(all_nest(p8.messages, depth)) by {
        reveal(after_image_strip);
        let rule = image_rule(p7.messages, &cfg.image_strip);
        assert(sets_text(rule, "content"@));
        lemma_text_nests(rule, "content"@, d);
        lemma_rewrite_nests(p7.messages, rule, depth);
    }
    reveal(after_thinking_strip);
    lemma_strip_nests(
        p8.messages,
        Removal::Thinking,
        old_messages(p8.messages, &cfg.thinking_strip),
        depth,
    );
}

proof fn lemma_deduped_nests(messages: Seq<JsonView>, cfg: &StrategiesConfig, depth: nat)
    requires
        all_nest(messages, depth),
        depth >= 5,
    ensures
        all_nest(deduped(messages, &cfg.cross_turn_dedup).0, depth),
{
    let c = &cfg.cross_turn_dedup;
    let d = (depth - 2) as nat;
    let r0 = repeat_rule(messages, c);
    let m1 = rewrite(messages, r0);
    let r1 = extend_rule(m1, c);
    let m2 = rewrite(m1, r1);
    let r2 = echo_rule(m2, c);
    assert(sets_text(r0, "content"@));
    assert(sets_text(r1, "content"@));
    assert(sets_text(r2, "content"@));
    lemma_text_nests(r0, "content"@, d);
    lemma_text_nests(r1, "content"@, d);
    lemma_text_nests(r2, "content"@, d);
    lemma_rewrite_nests(messages, r0, depth);
    lemma_rewrite_nests(m1, r1, depth);
    lemma_rewrite_nests(m2, r2, depth);
}

/// A body that does not nest too deep to be read does not once it is pruned.
pub proof fn law_pruned_nests(root: JsonView, cfg: &StrategiesConfig, depth: nat)
    requires
        nests(root, depth),
        depth >= 7,
    ensures
        pruned_root(root, cfg) matches Some((after, _)) ==> nests(after, depth),
{
    let below = (depth - 1) as nat;
    lemma_nests_get(root, "messages"@, depth);
    if stray(root) {
        let messages = root.get_array("messages"@)->0;
        let rest = messages.drop_first();
        let first = messages[0];
        assert(nests(first, (depth - 2) as nat));
        lemma_nests_get(first, "content"@, (depth - 2) as nat);
        lemma_nests_more(first.get("content"@)->0, (depth - 3) as nat, below);
        assert forall|i: int| 0 <= i < rest.len() implies nests(
            #[trigger] rest[i],
            (depth - 2) as nat,
        ) by {
            assert(nests(messages[i + 1], (depth - 2) as nat));
        }
        assert(nests(JsonView::Array(rest), below));
        lemma_nests_with(root, "messages"@, JsonView::Array(rest), depth);
        lemma_nests_with(
            root.with("messages"@, JsonView::Array(rest)),
            "system"@,
            first.get("content"@)->0,
            depth,
        );
        assert(nests(lifted(root), depth));
    }
    assert(nests(normalized(root), depth));
    let root1 = repaired(root, cfg);
    if let Some(messages) = root1.get_array("messages"@) {
        lemma_nests_get(root1, "messages"@, depth);
        lemma_passage_nests(messages, cfg, (depth - 2) as nat);
        let p = passage(messages, cfg).messages;
        lemma_strip_nests(p, Removal::Empty, p.len() as int, (depth - 2) as nat);
        assert(nests(JsonView::Array(pruned(messages, cfg)), below));
        lemma_nests_with(root1, "messages"@, JsonView::Array(pruned(messages, cfg)), depth);
    }
}

} // verus!
