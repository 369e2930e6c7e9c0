//! What holds of the strategies over several calls, and of what they leave alone.

use super::bloat_cap::{array_stub, bloat_edit, bloat_rule, limit, trimmed};
use super::failed_input_purge::{
    bulk, failed, purge_edit, purge_rule, purge_value, purged, size_marker,
};
use super::image_strip::{
    base64_char, image_call, image_calls, image_content, image_results, image_rule, listed_call,
    listed_calls,
};
use super::simhash_dedup::{
    candidates, compared, distance, hash_at, near_edit, near_later, near_rule, tool_of,
};
use super::stale_input_cap::{
    at_least_one, authored, authored_value, cap_edit, cap_rule, deed, named_file, restore_marker,
};
use super::sliding_window::{
    content_stub, input_stub, kept_turns, outside, outside_calls, stubbed_call, stubbed_id,
    window_edit, window_rule,
};
use super::stale_reads::{
    bears_marker, keep_turns, lemma_named_path, named_path, old_view, operations, page_marker,
    paged, pages_to, path_at, read_at, read_edit, read_rule, read_stub, sole_view, stale,
    superseded, tracked_op,
};
use super::thinking_strip::{strip_until, Removal};
use super::system_shape_normalize::{normalized, stray};
use super::{
    after_bloat_cap, after_cross_turn_dedup, after_failed_input_purge, after_image_strip,
    after_simhash_dedup, after_sliding_window, after_stale_input_cap, after_stale_reads,
    after_thinking_strip, authoring, cutoff, has_role, is_old, lemma_cutoff_kept,
    lemma_marker_bears, marker, marker_text, member_or_null, passage, pruned, pruned_body, repaired,
    text_len,
};
use crate::config::{
    BloatCapConfig, FailedInputPurgeConfig, ImageStripConfig, SimHashDedupConfig,
    SlidingWindowConfig, StaleInputCapConfig, StaleReadsConfig, StrategiesConfig,
};
use crate::json::{map_members, parsed_json, some_member, JsonView};
use crate::pairing::{
    block_at, has_type, id_at, last_use, lemma_positions, paired_use, result_id, result_positions,
    stands_for, use_id, use_positions,
};
use crate::rewrite::{
    keeps_ids, law_pairing_kept, lemma_block_at, lemma_only_sets_keeps_ids, lemma_role_kept,
    lemma_set_keeps_ids, lemma_settled, only_sets, rewrite, rewrite_block, Rule,
};
use crate::sites::{before, lemma_sites, lemma_sites_agree};
use crate::text::{
    begins, decimal, fit_prefix, fit_suffix, lemma_ascii_len, lemma_fit_bounds,
    lemma_machine_digits, lemma_utf8_concat, lemma_utf8_len_bound, precedes, utf8_len,
};
use vstd::prelude::*;

verus! {

/// A repaired body needs no repair: to repair it again changes nothing.
pub proof fn law_normalized_once(root: JsonView)
    ensures
        !stray(normalized(root)),
        normalized(normalized(root)) == normalized(root),
{
    if stray(root) {
        assert(normalized(root).get("system"@) == root.get_array("messages"@)->0[0].get("content"@));
    }
}

/// The repair touches a body only where a system message stands first; it then moves that message
/// and nothing else. A system text that is there stays, and the messages never run out.
pub proof fn law_normalized_scope(root: JsonView)
    ensures
        forall|key: Seq<char>|
            key != "messages"@ && key != "system"@ ==> #[trigger] normalized(root).get(key)
                == root.get(key),
        (root.get("system"@) matches Some(system) && system != JsonView::Null) ==> normalized(root)
            == root,
        !(root.get_array("messages"@) matches Some(messages) && messages.len() > 0 && has_role(
            messages[0],
            "system"@,
        )) ==> normalized(root) == root,
        root.get_array("messages"@) matches Some(messages) ==> {
            let after = normalized(root).get_array("messages"@);
            after == Some(messages) || (messages.len() > 1 && after == Some(messages.drop_first()))
        },
{
    reveal_strlit("messages");
    reveal_strlit("system");
    assert("messages"@.len() == 8 && "system"@.len() == 6);
}

/// A rule that sets one member of blocks of one type leaves what else they hold, and blocks of
/// other types, as they were.
proof fn lemma_block_kept(block: JsonView, mi: int, ci: int, rule: Rule, kind: Seq<char>, key: Seq<char>)
    requires
        only_sets(rule, kind, key),
        key == "content"@ || key == "input"@,
    ensures
        ({
            let new = rewrite_block(block, mi, ci, rule);
            &&& !has_type(block, kind) ==> new == block
            &&& use_id(new) == use_id(block)
            &&& result_id(new) == result_id(block)
            &&& new.get("type"@) == block.get("type"@)
            &&& new.get("name"@) == block.get("name"@)
            &&& new.get("id"@) == block.get("id"@)
            &&& new.get("is_error"@) == block.get("is_error"@)
            &&& forall|k: Seq<char>| k != key ==> #[trigger] new.get(k) == block.get(k)
        }),
{
    if let Some(new) = rule(mi, ci, block) {
        lemma_set_keeps_ids(block, key, new.get(key)->0);
    }
}

/// The pairs that are stubbed are the same after the stubbing.
proof fn lemma_stubbed_kept(messages: Seq<JsonView>, cfg: &SlidingWindowConfig, id: Seq<char>)
    ensures
        ({
            let once = rewrite(messages, window_rule(messages, cfg));
            stubbed_id(once, cfg, id) == stubbed_id(messages, cfg, id)
        }),
{
    let rule = window_rule(messages, cfg);
    let once = rewrite(messages, rule);
    lemma_window_ids(messages, cfg);
    law_pairing_kept(messages, rule);
    lemma_cutoff_kept(messages, rule, kept_turns(cfg));
    let f = |mi: int, ci: int, b: JsonView| outside(once, cfg, mi, ci, b);
    let g = |mi: int, ci: int, b: JsonView| outside(messages, cfg, mi, ci, b);
    assert forall|mi: int, ci: int|
        match (#[trigger] block_at(once, mi, ci), block_at(messages, mi, ci)) {
            (Some(a), Some(b)) => f(mi, ci, a) == g(mi, ci, b) && a.get_str("id"@) == b.get_str(
                "id"@,
            ),
            (None, None) => true,
            _ => false,
        } by {
        lemma_block_at(messages, rule, mi, ci);
        if let Some(b) = block_at(messages, mi, ci) {
            lemma_role_kept(messages, rule, mi);
            lemma_window_block(messages, cfg, mi, ci, b);
        }
    }
    lemma_sites_agree(once, f, messages, g);
    let s = outside_calls(messages, cfg);
    lemma_sites(messages, g);
    assert forall|i: int| 0 <= i < s.len() implies id_at(once, #[trigger] s[i]) == id_at(
        messages,
        s[i],
    ) by {
        assert(block_at(once, s[i].0, s[i].1) is Some);
    }
    if stubbed_id(messages, cfg, id) {
        let i = choose|i: int| 0 <= i < s.len() && id_at(messages, #[trigger] s[i]) == Some(id);
        assert(id_at(once, s[i]) == Some(id));
    }
    if stubbed_id(once, cfg, id) {
        let i = choose|i: int| 0 <= i < s.len() && id_at(once, #[trigger] s[i]) == Some(id);
        assert(id_at(messages, s[i]) == Some(id));
    }
}

/// What the stubbing leaves of a block.
proof fn lemma_window_block(
    messages: Seq<JsonView>,
    cfg: &SlidingWindowConfig,
    mi: int,
    ci: int,
    b: JsonView,
)
    ensures
        ({
            let new = rewrite_block(b, mi, ci, window_rule(messages, cfg));
            &&& use_id(new) == use_id(b)
            &&& result_id(new) == result_id(b)
            &&& new.get("type"@) == b.get("type"@)
            &&& new.get("name"@) == b.get("name"@)
            &&& new.get("id"@) == b.get("id"@)
        }),
{
    let new = rewrite_block(b, mi, ci, window_rule(messages, cfg));
    if window_edit(messages, cfg, mi, ci, b) is Some {
        if stubbed_call(messages, cfg, mi, ci, b) {
            lemma_set_keeps_ids(b, "input"@, new.get("input"@)->0);
        } else {
            lemma_set_keeps_ids(b, "content"@, new.get("content"@)->0);
        }
    }
}

proof fn lemma_window_ids(messages: Seq<JsonView>, cfg: &SlidingWindowConfig)
    ensures
        keeps_ids(window_rule(messages, cfg)),
{
    let rule = window_rule(messages, cfg);
    assert forall|mi: int, ci: int, b: JsonView|
        #![trigger rule(mi, ci, b)]
        rule(mi, ci, b) is Some implies use_id(rule(mi, ci, b)->0) == use_id(b) && result_id(
        rule(mi, ci, b)->0,
    ) == result_id(b) by {
        lemma_window_block(messages, cfg, mi, ci, b);
    }
}

/// To slide the window again over what it went over changes nothing.
pub proof fn law_window_once(messages: Seq<JsonView>, cfg: &SlidingWindowConfig)
    requires
        cfg.stub@.len() > 0,
    ensures
        ({
            let once = rewrite(messages, window_rule(messages, cfg));
            rewrite(once, window_rule(once, cfg)) == once
        }),
{
    let rule = window_rule(messages, cfg);
    let once = rewrite(messages, rule);
    lemma_window_ids(messages, cfg);
    law_pairing_kept(messages, rule);
    assert forall|mi: int, ci: int| #![trigger block_at(once, mi, ci)]
        block_at(once, mi, ci) is Some implies window_rule(once, cfg)(
        mi,
        ci,
        block_at(once, mi, ci)->0,
    ) is None by {
        lemma_block_at(messages, rule, mi, ci);
        let b = block_at(messages, mi, ci)->0;
        let new = rewrite_block(b, mi, ci, rule);
        lemma_window_block(messages, cfg, mi, ci, b);
        if let Some(id) = use_id(b) {
            lemma_stubbed_kept(messages, cfg, id);
        }
        if let Some(id) = result_id(b) {
            lemma_stubbed_kept(messages, cfg, id);
        }
        assert(last_use(once, mi, ci, new) == last_use(messages, mi, ci, b));
        assert(stands_for(once, mi, ci, new) == stands_for(messages, mi, ci, b));
        assert(stubbed_call(once, cfg, mi, ci, new) == stubbed_call(messages, cfg, mi, ci, b));
        if stubbed_call(messages, cfg, mi, ci, b) {
            assert(input_stub(new) is None);
        } else if let Some(id) = stands_for(messages, mi, ci, b) {
            lemma_marker_bears(cfg.stub@, member_or_null(b, "content"@));
            if stubbed_id(messages, cfg, id) {
                assert(content_stub(cfg, new) is None);
            }
        }
    }
    lemma_settled(once, window_rule(once, cfg));
}

/// A recent pair stays: where no call that names an id is old, the call keeps its input and the
/// result its content.
pub proof fn law_window_spares_recent(
    messages: Seq<JsonView>,
    cfg: &SlidingWindowConfig,
    id: Seq<char>,
)
    requires
        forall|mi: int, ci: int|
            (#[trigger] block_at(messages, mi, ci) matches Some(b) && use_id(b) == Some(id))
                ==> !is_old(cutoff(messages, kept_turns(cfg)), mi),
    ensures
        forall|mi: int, ci: int, block: JsonView|
            #![trigger window_edit(messages, cfg, mi, ci, block)]
            use_id(block) == Some(id) || result_id(block) == Some(id) ==> window_edit(
                messages,
                cfg,
                mi,
                ci,
                block,
            ) is None,
{
    lemma_types();
    let s = outside_calls(messages, cfg);
    lemma_sites(messages, |mi: int, ci: int, b: JsonView| outside(messages, cfg, mi, ci, b));
    assert(!stubbed_id(messages, cfg, id)) by {
        if stubbed_id(messages, cfg, id) {
            let i = choose|i: int| 0 <= i < s.len() && id_at(messages, #[trigger] s[i]) == Some(id);
            assert(block_at(messages, s[i].0, s[i].1) matches Some(b) && use_id(b) == Some(id));
        }
    }
}

/// An old call to a listed tool takes its result with it, whichever calls share its id: the result
/// gives way to the stub, unless it bears a marker already.
pub proof fn law_window_stubs_old(
    messages: Seq<JsonView>,
    cfg: &SlidingWindowConfig,
    p: (int, int),
    mi: int,
    ci: int,
    block: JsonView,
)
    requires
        block_at(messages, p.0, p.1) matches Some(call) && outside(messages, cfg, p.0, p.1, call),
        id_at(messages, p) == stands_for(messages, mi, ci, block),
        content_stub(cfg, block) is Some,
    ensures
        window_edit(messages, cfg, mi, ci, block) == Some(
            block.with("content"@, marker(cfg.stub@, member_or_null(block, "content"@))),
        ),
{
    lemma_types();
    let s = outside_calls(messages, cfg);
    lemma_sites(messages, |mi: int, ci: int, b: JsonView| outside(messages, cfg, mi, ci, b));
    assert(s.contains(p));
    let i = choose|i: int| 0 <= i < s.len() && s[i] == p;
    assert(id_at(messages, s[i]) is Some);
}

/// The calls to listed tools are the same after the strip.
proof fn lemma_image_calls_kept(messages: Seq<JsonView>, cfg: &ImageStripConfig)
    ensures
        image_calls(rewrite(messages, image_rule(messages, cfg)), cfg) == image_calls(
            messages,
            cfg,
        ),
        forall|i: int|
            0 <= i < image_calls(messages, cfg).len() ==> id_at(
                rewrite(messages, image_rule(messages, cfg)),
                #[trigger] image_calls(messages, cfg)[i],
            ) == id_at(messages, image_calls(messages, cfg)[i]),
{
    let rule = image_rule(messages, cfg);
    let once = rewrite(messages, rule);
    lemma_only_sets_keeps_ids(rule, "tool_result"@, "content"@);
    law_pairing_kept(messages, rule);
    let f = |mi: int, ci: int, b: JsonView| listed_call(once, cfg, mi, ci, b);
    let g = |mi: int, ci: int, b: JsonView| listed_call(messages, cfg, mi, ci, b);
    assert forall|mi: int, ci: int|
        match (#[trigger] block_at(once, mi, ci), block_at(messages, mi, ci)) {
            (Some(a), Some(b)) => f(mi, ci, a) == g(mi, ci, b) && a.get_str("id"@) == b.get_str(
                "id"@,
            ),
            (None, None) => true,
            _ => false,
        } by {
        lemma_block_at(messages, rule, mi, ci);
        if let Some(b) = block_at(messages, mi, ci) {
            lemma_block_kept(b, mi, ci, rule, "tool_result"@, "content"@);
            lemma_role_kept(messages, rule, mi);
        }
    }
    lemma_sites_agree(once, f, messages, g);
    let s = listed_calls(messages, cfg);
    let f2 = |mi: int, ci: int, b: JsonView| image_call(once, cfg, mi, ci, b);
    let g2 = |mi: int, ci: int, b: JsonView| image_call(messages, cfg, mi, ci, b);
    assert forall|j: int| 0 <= j < s.len() implies id_at(once, #[trigger] s[j]) == id_at(
        messages,
        s[j],
    ) by {
        assert(block_at(once, s[j].0, s[j].1) is Some <==> block_at(messages, s[j].0, s[j].1) is Some);
    }
    assert forall|mi: int, ci: int|
        match (#[trigger] block_at(once, mi, ci), block_at(messages, mi, ci)) {
            (Some(a), Some(b)) => f2(mi, ci, a) == g2(mi, ci, b),
            (None, None) => true,
            _ => false,
        } by {
        if let (Some(a), Some(b)) = (block_at(once, mi, ci), block_at(messages, mi, ci)) {
            assert(f(mi, ci, a) == g(mi, ci, b));
        }
    }
    lemma_sites_agree(once, f2, messages, g2);
    let t = image_calls(messages, cfg);
    assert forall|j: int| 0 <= j < t.len() implies id_at(once, #[trigger] t[j]) == id_at(
        messages,
        t[j],
    ) by {
        assert(block_at(once, t[j].0, t[j].1) is Some <==> block_at(messages, t[j].0, t[j].1) is Some);
    }
}

/// A marker is no image.
pub proof fn lemma_marker_no_image(stub: Seq<char>, content: JsonView)
    ensures
        !image_content(marker(stub, content)),
{
    let text = marker_text(stub, content);
    reveal_strlit(" (");
    assert(" ("@[1] == '(');
    assert(text[stub.len() as int + 1] == '(');
    assert(!base64_char(text[stub.len() as int + 1]));
}

/// To strip images again changes nothing.
pub proof fn law_images_once(messages: Seq<JsonView>, cfg: &ImageStripConfig)
    ensures
        ({
            let once = rewrite(messages, image_rule(messages, cfg));
            rewrite(once, image_rule(once, cfg)) == once
        }),
{
    let rule = image_rule(messages, cfg);
    let once = rewrite(messages, rule);
    lemma_only_sets_keeps_ids(rule, "tool_result"@, "content"@);
    law_pairing_kept(messages, rule);
    lemma_image_calls_kept(messages, cfg);
    assert forall|mi: int, ci: int| #![trigger block_at(once, mi, ci)]
        block_at(once, mi, ci) is Some implies image_rule(once, cfg)(
        mi,
        ci,
        block_at(once, mi, ci)->0,
    ) is None by {
        lemma_block_at(messages, rule, mi, ci);
        let b = block_at(messages, mi, ci)->0;
        lemma_block_kept(b, mi, ci, rule, "tool_result"@, "content"@);
        if rule(mi, ci, b) is Some {
            lemma_marker_no_image(cfg.stub@, b.get("content"@)->0);
        }
    }
    lemma_settled(once, image_rule(once, cfg));
}

/// A result of a listed tool stands for the id of its call.
proof fn lemma_image_result(messages: Seq<JsonView>, cfg: &ImageStripConfig, k: int)
    requires
        0 <= k < image_results(messages, cfg).len(),
    ensures
        ({
            let p = image_results(messages, cfg)[k];
            block_at(messages, p.0, p.1) matches Some(b) && stands_for(messages, p.0, p.1, b)
                == id_at(messages, image_calls(messages, cfg)[k])
        }),
        id_at(messages, image_calls(messages, cfg)[k]) is Some,
{
    let s = image_calls(messages, cfg);
    lemma_sites(messages, |mi: int, ci: int, b: JsonView| image_call(messages, cfg, mi, ci, b));
    let call = block_at(messages, s[k].0, s[k].1)->0;
    assert(image_call(messages, cfg, s[k].0, s[k].1, call));
    lemma_positions(messages, true, call.get_str("id"@)->0);
}

/// No two of the calls that stand for results name one id.
proof fn lemma_image_ids_differ(messages: Seq<JsonView>, cfg: &ImageStripConfig, i: int, k: int)
    requires
        0 <= i < k < image_calls(messages, cfg).len(),
    ensures
        id_at(messages, image_calls(messages, cfg)[i]) != id_at(
            messages,
            image_calls(messages, cfg)[k],
        ),
{
    let s = image_calls(messages, cfg);
    let l = listed_calls(messages, cfg);
    lemma_sites(messages, |mi: int, ci: int, b: JsonView| image_call(messages, cfg, mi, ci, b));
    lemma_sites(messages, |mi: int, ci: int, b: JsonView| listed_call(messages, cfg, mi, ci, b));
    let a = block_at(messages, s[i].0, s[i].1)->0;
    let b = block_at(messages, s[k].0, s[k].1)->0;
    assert(image_call(messages, cfg, s[i].0, s[i].1, a));
    assert(image_call(messages, cfg, s[k].0, s[k].1, b));
    assert(l.contains(s[k]));
    let j = choose|j: int| 0 <= j < l.len() && l[j] == s[k];
    assert(before(s[i], s[k]));
    assert(id_at(messages, l[j]) == b.get_str("id"@));
}

/// Of the results of listed tools the most recent stay, as many as are to be kept; each older one
/// that is an image gives way to a marker.
pub proof fn law_recent_images_kept(messages: Seq<JsonView>, cfg: &ImageStripConfig, k: int)
    requires
        0 <= k < image_results(messages, cfg).len(),
    ensures
        ({
            let s = image_results(messages, cfg);
            let once = rewrite(messages, image_rule(messages, cfg));
            let block = block_at(messages, s[k].0, s[k].1)->0;
            let image = block.get("content"@) matches Some(content) && image_content(content);
            &&& block_at(messages, s[k].0, s[k].1) is Some
            &&& block_at(once, s[k].0, s[k].1) == Some(
                if image && k < s.len() - cfg.keep_recent_count {
                    block.with("content"@, marker(cfg.stub@, block.get("content"@)->0))
                } else {
                    block
                },
            )
        }),
{
    let rule = image_rule(messages, cfg);
    let calls = image_calls(messages, cfg);
    let p = image_results(messages, cfg)[k];
    lemma_image_result(messages, cfg, k);
    lemma_sites(messages, |mi: int, ci: int, b: JsonView| image_call(messages, cfg, mi, ci, b));
    lemma_block_at(messages, rule, p.0, p.1);
    assert forall|i: int| 0 <= i < calls.len() && i != k implies id_at(
        messages,
        #[trigger] calls[i],
    ) != id_at(messages, calls[k]) by {
        if i < k {
            lemma_image_ids_differ(messages, cfg, i, k);
        } else {
            lemma_image_ids_differ(messages, cfg, k, i);
        }
    }
    assert(id_at(messages, calls[k]) is Some);
}

/// The tracked operations are the same after the elision, and work on the same paths.
proof fn lemma_operations_kept(messages: Seq<JsonView>, cfg: &StaleReadsConfig)
    ensures
        ({
            let once = rewrite(messages, read_rule(messages, cfg));
            &&& operations(once, cfg) == operations(messages, cfg)
            &&& forall|i: int|
                0 <= i < operations(messages, cfg).len() ==> {
                    let p = #[trigger] operations(messages, cfg)[i];
                    path_at(once, p) == path_at(messages, p) && read_at(once, p) == read_at(
                        messages,
                        p,
                    ) && id_at(once, p) == id_at(messages, p)
                }
        }),
{
    let rule = read_rule(messages, cfg);
    let once = rewrite(messages, rule);
    let f = |mi: int, ci: int, b: JsonView| tracked_op(once, cfg, mi, ci, b);
    let g = |mi: int, ci: int, b: JsonView| tracked_op(messages, cfg, mi, ci, b);
    lemma_types();
    assert forall|mi: int, ci: int|
        match (#[trigger] block_at(once, mi, ci), block_at(messages, mi, ci)) {
            (Some(a), Some(b)) => f(mi, ci, a) == g(mi, ci, b) && (has_type(b, "tool_use"@) ==> a
                == b),
            (None, None) => true,
            _ => false,
        } by {
        lemma_block_at(messages, rule, mi, ci);
        if let Some(b) = block_at(messages, mi, ci) {
            lemma_block_kept(b, mi, ci, rule, "tool_result"@, "content"@);
            lemma_role_kept(messages, rule, mi);
        }
    }
    lemma_sites_agree(once, f, messages, g);
    lemma_sites(messages, g);
    let s = operations(messages, cfg);
    assert forall|i: int| 0 <= i < s.len() implies {
        let p = #[trigger] s[i];
        path_at(once, p) == path_at(messages, p) && read_at(once, p) == read_at(messages, p)
            && id_at(once, p) == id_at(messages, p)
    } by {
        let p = s[i];
        assert(block_at(once, p.0, p.1) == block_at(messages, p.0, p.1));
    }
}

proof fn lemma_types()
    ensures
        "tool_use"@ != "tool_result"@,
{
    reveal_strlit("tool_use");
    reveal_strlit("tool_result");
    assert("tool_use"@.len() == 8 && "tool_result"@.len() == 11);
}

/// What is known of the operation at a position is the same after the elision.
proof fn lemma_views_kept(messages: Seq<JsonView>, cfg: &StaleReadsConfig, p: (int, int))
    requires
        operations(messages, cfg).contains(p),
    ensures
        ({
            let once = rewrite(messages, read_rule(messages, cfg));
            &&& superseded(once, cfg, p) == superseded(messages, cfg, p)
            &&& sole_view(once, cfg, p) == sole_view(messages, cfg, p)
            &&& path_at(once, p) == path_at(messages, p)
            &&& id_at(once, p) == id_at(messages, p)
        }),
{
    let rule = read_rule(messages, cfg);
    let once = rewrite(messages, rule);
    let s = operations(messages, cfg);
    lemma_operations_kept(messages, cfg);
    let k = choose|k: int| 0 <= k < s.len() && s[k] == p;
    assert(path_at(once, s[k]) == path_at(messages, s[k]));
    if superseded(messages, cfg, p) {
        let j = choose|j: int|
            0 <= j < s.len() && path_at(messages, #[trigger] s[j]) == path_at(messages, p)
                && s[j].0 > p.0;
        assert(path_at(once, s[j]) == path_at(once, p) && s[j].0 > p.0);
        assert(superseded(once, cfg, p));
    }
    if superseded(once, cfg, p) {
        let j = choose|j: int|
            0 <= j < s.len() && path_at(once, #[trigger] s[j]) == path_at(once, p) && s[j].0 > p.0;
        assert(path_at(messages, s[j]) == path_at(messages, p) && s[j].0 > p.0);
        assert(superseded(messages, cfg, p));
    }
    assert(sole_view(once, cfg, p) == sole_view(messages, cfg, p)) by {
        assert forall|j: int| 0 <= j < s.len() implies path_at(once, #[trigger] s[j]) == path_at(
            messages,
            s[j],
        ) && read_at(once, s[j]) == read_at(messages, s[j]) by {}
    }
}

/// Which results are stale, and what is paged out to where, is the same after the elision.
proof fn lemma_paging_kept(
    messages: Seq<JsonView>,
    cfg: &StaleReadsConfig,
    id: Seq<char>,
    content: JsonView,
)
    ensures
        ({
            let once = rewrite(messages, read_rule(messages, cfg));
            &&& stale(once, cfg, id) == stale(messages, cfg, id)
            &&& paged(once, cfg, id, content) == paged(messages, cfg, id, content)
        }),
{
    let rule = read_rule(messages, cfg);
    let once = rewrite(messages, rule);
    let s = operations(messages, cfg);
    lemma_operations_kept(messages, cfg);
    lemma_cutoff_kept(messages, rule, keep_turns(cfg));
    assert forall|i: int| 0 <= i < s.len() implies superseded(once, cfg, #[trigger] s[i])
        == superseded(messages, cfg, s[i]) && id_at(once, s[i]) == id_at(messages, s[i]) by {
        assert(s.contains(s[i]));
        lemma_views_kept(messages, cfg, s[i]);
    }
    assert forall|i: int, path: Seq<char>| 0 <= i < s.len() implies #[trigger] old_view(
        once,
        cfg,
        id,
        s[i],
        path,
    ) == old_view(messages, cfg, id, s[i], path) by {
        assert(s.contains(s[i]));
        lemma_views_kept(messages, cfg, s[i]);
    }
    if stale(messages, cfg, id) {
        let i = choose|i: int|
            0 <= i < s.len() && id_at(messages, #[trigger] s[i]) == Some(id) && superseded(
                messages,
                cfg,
                s[i],
            );
        assert(id_at(once, s[i]) == Some(id) && superseded(once, cfg, s[i]));
    }
    if stale(once, cfg, id) {
        let i = choose|i: int|
            0 <= i < s.len() && id_at(once, #[trigger] s[i]) == Some(id) && superseded(
                once,
                cfg,
                s[i],
            );
        assert(id_at(messages, s[i]) == Some(id) && superseded(messages, cfg, s[i]));
    }
    assert forall|path: Seq<char>| #[trigger] pages_to(once, cfg, id, content, path) == pages_to(
        messages,
        cfg,
        id,
        content,
        path,
    ) by {
        if pages_to(messages, cfg, id, content, path) {
            let i = choose|i: int|
                0 <= i < s.len() && old_view(messages, cfg, id, #[trigger] s[i], path);
            assert(old_view(once, cfg, id, s[i], path));
        }
        if pages_to(once, cfg, id, content, path) {
            let i = choose|i: int|
                0 <= i < s.len() && old_view(once, cfg, id, #[trigger] s[i], path);
            assert(old_view(messages, cfg, id, s[i], path));
        }
    }
    assert forall|path: Seq<char>| #[trigger] named_path(once, cfg, id, content, path)
        == named_path(messages, cfg, id, content, path) by {
        if named_path(messages, cfg, id, content, path) {
            assert forall|other: Seq<char>| #[trigger]
                pages_to(once, cfg, id, content, other) implies !precedes(other, path) by {
                assert(pages_to(messages, cfg, id, content, other));
            }
        }
        if named_path(once, cfg, id, content, path) {
            assert forall|other: Seq<char>| #[trigger]
                pages_to(messages, cfg, id, content, other) implies !precedes(other, path) by {
                assert(pages_to(once, cfg, id, content, other));
            }
        }
    }
    if exists|path: Seq<char>| named_path(messages, cfg, id, content, path) {
        let a = choose|path: Seq<char>| named_path(messages, cfg, id, content, path);
        let b = choose|path: Seq<char>| named_path(once, cfg, id, content, path);
        assert(named_path(once, cfg, id, content, a));
        assert(named_path(messages, cfg, id, content, b));
        lemma_named_path(messages, cfg, id, content, a, b);
    }
}

/// What becomes of a read is the same after the elision.
proof fn lemma_read_stub_kept(
    messages: Seq<JsonView>,
    cfg: &StaleReadsConfig,
    id: Seq<char>,
    content: JsonView,
)
    ensures
        read_stub(rewrite(messages, read_rule(messages, cfg)), cfg, id, content) == read_stub(
            messages,
            cfg,
            id,
            content,
        ),
{
    lemma_paging_kept(messages, cfg, id, content);
    lemma_paging_kept(messages, cfg, id, marker(cfg.stub@, content));
}

/// To elide superseded reads again changes nothing, where the stub is known for a marker.
pub proof fn law_reads_once(messages: Seq<JsonView>, cfg: &StaleReadsConfig)
    requires
        begins(cfg.stub@, "[trimwire: "@),
    ensures
        ({
            let once = rewrite(messages, read_rule(messages, cfg));
            rewrite(once, read_rule(once, cfg)) == once
        }),
{
    let rule = read_rule(messages, cfg);
    let once = rewrite(messages, rule);
    lemma_only_sets_keeps_ids(rule, "tool_result"@, "content"@);
    law_pairing_kept(messages, rule);
    assert forall|mi: int, ci: int| #![trigger block_at(once, mi, ci)]
        block_at(once, mi, ci) is Some implies read_rule(once, cfg)(
        mi,
        ci,
        block_at(once, mi, ci)->0,
    ) is None by {
        lemma_block_at(messages, rule, mi, ci);
        let b = block_at(messages, mi, ci)->0;
        let new = rewrite_block(b, mi, ci, rule);
        lemma_block_kept(b, mi, ci, rule, "tool_result"@, "content"@);
        assert(stands_for(once, mi, ci, new) == stands_for(messages, mi, ci, b));
        if let Some(id) = stands_for(messages, mi, ci, b) {
            if let Some(content) = b.get("content"@) {
                lemma_read_stub_kept(messages, cfg, id, content);
                if rule(mi, ci, b) is Some {
                    lemma_read_markers(messages, cfg, id, content);
                }
            }
        }
    }
    lemma_settled(once, read_rule(once, cfg));
}

/// What takes the place of a read bears a marker.
proof fn lemma_read_markers(
    messages: Seq<JsonView>,
    cfg: &StaleReadsConfig,
    id: Seq<char>,
    content: JsonView,
)
    requires
        begins(cfg.stub@, "[trimwire: "@),
    ensures
        read_stub(messages, cfg, id, content) matches Some(new) ==> bears_marker(new),
{
    let word = "[trimwire: "@;
    let text = marker_text(cfg.stub@, content);
    assert(text.take(word.len() as int) =~= cfg.stub@.take(word.len() as int));
    reveal_strlit("[trimwire: ");
    reveal_strlit("[trimwire: paged out — Read ");
    let path = choose|path: Seq<char>| named_path(messages, cfg, id, content, path);
    if let JsonView::String(page) = page_marker(path, content) {
        assert(page.take(word.len() as int) =~= word);
    }
}

/// The last operation on a path is never taken for superseded, and without paging a result stays
/// whose id only such operations name.
pub proof fn law_last_view_kept(
    messages: Seq<JsonView>,
    cfg: &StaleReadsConfig,
    mi: int,
    ci: int,
    block: JsonView,
)
    requires
        forall|p: (int, int), q: (int, int)|
            operations(messages, cfg).contains(p) && operations(messages, cfg).contains(q)
                && #[trigger] id_at(messages, p) == stands_for(messages, mi, ci, block)
                && #[trigger] path_at(messages, q) == path_at(messages, p) ==> q.0 <= p.0,
    ensures
        stands_for(messages, mi, ci, block) matches Some(id) ==> !stale(messages, cfg, id),
        cfg.page_min_bytes == 0 ==> read_edit(messages, cfg, mi, ci, block) is None,
{
}

/// The result for an id is stale as soon as one read that names the id is superseded, whichever
/// calls share the id, and then gives way to a marker that is smaller.
pub proof fn law_stale_read_goes(
    messages: Seq<JsonView>,
    cfg: &StaleReadsConfig,
    p: (int, int),
    mi: int,
    ci: int,
    block: JsonView,
)
    requires
        begins(cfg.stub@, "[trimwire: "@),
        superseded(messages, cfg, p),
        id_at(messages, p) == stands_for(messages, mi, ci, block),
        block.get("content"@) matches Some(content) && !bears_marker(content) && text_len(
            marker(cfg.stub@, content),
        ) < text_len(content),
        block.get("is_error"@) != Some(JsonView::Bool(true)),
    ensures
        read_edit(messages, cfg, mi, ci, block) == Some(
            block.with("content"@, marker(cfg.stub@, block.get("content"@)->0)),
        ),
{
    let s = operations(messages, cfg);
    let content = block.get("content"@)->0;
    let i = choose|i: int| 0 <= i < s.len() && s[i] == p;
    lemma_sites(messages, |a: int, b: int, x: JsonView| tracked_op(messages, cfg, a, b, x));
    assert(id_at(messages, s[i]) is Some);
    assert(superseded(messages, cfg, s[i]));
    let word = "[trimwire: "@;
    let text = marker_text(cfg.stub@, content);
    assert(text.take(word.len() as int) =~= cfg.stub@.take(word.len() as int));
}

/// A path that was read more than once is not paged out: of its reads, all but those in the last
/// message that works on it are superseded, and the others stay.
pub proof fn law_hot_path_kept(
    messages: Seq<JsonView>,
    cfg: &StaleReadsConfig,
    p: (int, int),
    q: (int, int),
)
    requires
        p != q,
        operations(messages, cfg).contains(q),
        read_at(messages, q),
        path_at(messages, q) == path_at(messages, p),
    ensures
        !sole_view(messages, cfg, p),
{
    let s = operations(messages, cfg);
    let k = choose|k: int| 0 <= k < s.len() && s[k] == q;
    assert(path_at(messages, s[k]) == path_at(messages, p) && s[k] != p);
}

/// What takes the place of a read is smaller than what it held; errors and what bears a marker
/// already stay.
pub proof fn law_reads_shrink(
    messages: Seq<JsonView>,
    cfg: &StaleReadsConfig,
    mi: int,
    ci: int,
    block: JsonView,
)
    ensures
        read_edit(messages, cfg, mi, ci, block) matches Some(new) ==> text_len(
            new.get("content"@)->0,
        ) < text_len(block.get("content"@)->0) && block.get("is_error"@) != Some(
            JsonView::Bool(true),
        ) && !bears_marker(block.get("content"@)->0),
{
}

/// A trimmed text is smaller than the text, begins with the head and ends with the tail.
pub proof fn law_trim_shrinks(s: Seq<char>, head: nat, tail: nat, label: Seq<char>)
    ensures
        trimmed(s, head, tail, label) matches Some(t) ==> {
            let h = fit_prefix(s, head as int);
            let e = fit_suffix(s, tail as int);
            &&& utf8_len(t) < utf8_len(s)
            &&& t.take(h) == s.take(h)
            &&& t.skip(t.len() - e) == s.skip(s.len() - e)
        },
{
    if let Some(t) = trimmed(s, head, tail, label) {
        let h = fit_prefix(s, head as int);
        let e = fit_suffix(s, tail as int);
        lemma_fit_bounds(s, head as int);
        lemma_fit_bounds(s, tail as int);
        assert(t.take(h) =~= s.take(h));
        assert(t.skip(t.len() - e) =~= s.skip(s.len() - e));
    }
}

/// What takes the place of a near duplicate is smaller than what it held.
pub proof fn law_near_shrinks(
    messages: Seq<JsonView>,
    cfg: &SimHashDedupConfig,
    mi: int,
    ci: int,
    block: JsonView,
)
    ensures
        near_edit(messages, cfg, mi, ci, block) matches Some(new) ==> text_len(
            new.get("content"@)->0,
        ) < text_len(block.get("content"@)->0),
{
}

/// What takes the place of an authored value is smaller than the value.
pub proof fn law_authored_shrinks(verb: Seq<char>, path: Seq<char>, v: JsonView)
    ensures
        authored_value(verb, path, v) matches Some(new) ==> (new matches JsonView::String(t) && (
        bulk(v) matches Some(n) && utf8_len(t) < n)),
{
}

/// Whether every size in an input is one that the machine can hold.
pub open spec fn sizes_fit(input: JsonView) -> bool {
    input matches JsonView::Object(m) ==> forall|k: Seq<char>|
        m.contains_key(k) ==> (bulk(#[trigger] m[k]) matches Some(n) ==> n <= usize::MAX)
}

/// Whether every size in the inputs of a transcript is one that the machine can hold.
pub open spec fn all_sizes_fit(messages: Seq<JsonView>) -> bool {
    forall|mi: int, ci: int|
        #![trigger block_at(messages, mi, ci)]
        block_at(messages, mi, ci) matches Some(b) ==> (b.get("input"@) matches Some(input)
            ==> sizes_fit(input))
}

/// A marker of a size is no bulk.
pub proof fn lemma_size_marker_small(n: nat)
    requires
        n <= usize::MAX,
    ensures
        bulk(size_marker(n)) is None,
{
    reveal_strlit("[trimwire: ");
    reveal_strlit("B input elided]");
    lemma_machine_digits(n);
    let text = "[trimwire: "@ + decimal(n) + "B input elided]"@;
    lemma_utf8_len_bound(text);
}

/// An input without its bulk has no bulk: to take it out again changes nothing.
pub proof fn law_purged_once(input: JsonView)
    requires
        sizes_fit(input),
    ensures
        purged(input) matches Some(new) ==> purged(new) is None,
{
    let f = |v: JsonView| purge_value(v);
    if let JsonView::Object(m) = input {
        if some_member(m, f) {
            let new = map_members(m, f);
            assert forall|k: Seq<char>| new.contains_key(k) implies f(#[trigger] new[k]) is None by {
                if let Some(n) = bulk(m[k]) {
                    lemma_size_marker_small(n);
                }
            }
        }
    }
}

/// An input without its bulk has the members it had, and those that are no bulk as they were.
pub proof fn law_purged_shape(input: JsonView, key: Seq<char>)
    ensures
        purged(input) matches Some(new) ==> {
            &&& new.get(key) is Some <==> input.get(key) is Some
            &&& input.get(key) matches Some(v) ==> new.get(key) == match bulk(v) {
                Some(n) => Some(size_marker(n)),
                None => Some(v),
            }
        },
{
}

/// Whether a call failed is the same after the inputs of calls have changed.
proof fn lemma_failed_kept(messages: Seq<JsonView>, rule: Rule, call: JsonView, new: JsonView)
    requires
        only_sets(rule, "tool_use"@, "input"@),
        new.get("id"@) == call.get("id"@),
    ensures
        failed(rewrite(messages, rule), new) == failed(messages, call),
{
    lemma_only_sets_keeps_ids(rule, "tool_use"@, "input"@);
    law_pairing_kept(messages, rule);
    lemma_types();
    if let Some(id) = call.get_str("id"@) {
        assert(new.get_str("id"@) == Some(id));
        if result_positions(messages).contains_key(id) {
            let p = result_positions(messages)[id];
            lemma_positions(messages, true, id);
            lemma_block_at(messages, rule, p.0, p.1);
            let res = block_at(messages, p.0, p.1)->0;
            lemma_block_kept(res, p.0, p.1, rule, "tool_use"@, "input"@);
        }
    } else {
        assert(new.get_str("id"@) is None);
    }
}

/// To purge the inputs of failed calls again changes nothing.
pub proof fn law_purge_once(messages: Seq<JsonView>, cfg: &FailedInputPurgeConfig)
    requires
        all_sizes_fit(messages),
    ensures
        ({
            let once = rewrite(messages, purge_rule(messages, cfg));
            rewrite(once, purge_rule(once, cfg)) == once
        }),
{
    let rule = purge_rule(messages, cfg);
    let once = rewrite(messages, rule);
    lemma_cutoff_kept(messages, rule, cfg.keep_recent_turns as nat);
    assert forall|mi: int, ci: int| #![trigger block_at(once, mi, ci)]
        block_at(once, mi, ci) is Some implies purge_rule(once, cfg)(
        mi,
        ci,
        block_at(once, mi, ci)->0,
    ) is None by {
        lemma_block_at(messages, rule, mi, ci);
        let b = block_at(messages, mi, ci)->0;
        let new = rewrite_block(b, mi, ci, rule);
        lemma_block_kept(b, mi, ci, rule, "tool_use"@, "input"@);
        lemma_failed_kept(messages, rule, b, new);
        lemma_role_kept(messages, rule, mi);
        if let Some(input) = b.get("input"@) {
            law_purged_once(input);
        }
    }
    lemma_settled(once, purge_rule(once, cfg));
}

/// The purge spares what is recent, what did not fail, and whatever a tool that writes files was
/// given.
pub proof fn law_purge_spares(
    messages: Seq<JsonView>,
    cfg: &FailedInputPurgeConfig,
    mi: int,
    block: JsonView,
)
    ensures
        !is_old(cutoff(messages, cfg.keep_recent_turns as nat), mi) ==> purge_edit(
            messages,
            cfg,
            mi,
            block,
        ) is None,
        !failed(messages, block) ==> purge_edit(messages, cfg, mi, block) is None,
        (block.get_str("name"@) matches Some(name) && authoring(name)) ==> purge_edit(
            messages,
            cfg,
            mi,
            block,
        ) is None,
{
}

/// A marker that names a file is longer than the name, and the longer, the longer the name.
proof fn lemma_restore_marker(verb: Seq<char>, path: Seq<char>, n: nat)
    ensures
        utf8_len(restore_marker(verb, path, n)) >= utf8_len(path),
        begins(restore_marker(verb, path, n), "[trimwire:"@),
        forall|other: Seq<char>|
            utf8_len(other) >= utf8_len(path) ==> utf8_len(
                #[trigger] restore_marker(verb, other, n),
            ) >= utf8_len(restore_marker(verb, path, n)),
{
    let head = "[trimwire: "@ + verb + " "@;
    let tail = " ("@ + decimal(n) + "B) — read the file to restore]"@;
    let text = restore_marker(verb, path, n);
    assert forall|p: Seq<char>| utf8_len(#[trigger] restore_marker(verb, p, n)) == utf8_len(head)
        + utf8_len(p) + utf8_len(tail) by {
        assert(restore_marker(verb, p, n) =~= head + p + tail);
        lemma_utf8_concat(head, p);
        lemma_utf8_concat(head + p, tail);
    }
    reveal_strlit("[trimwire: ");
    reveal_strlit("[trimwire:");
    assert(text.take("[trimwire:"@.len() as int) =~= "[trimwire:"@);
}

/// An authored input without its bulk has none that could go: to take it out again changes nothing.
pub proof fn law_authored_once(name: Seq<char>, input: JsonView)
    ensures
        authored(name, input) matches Some(new) ==> authored(name, new) is None,
{
    if let JsonView::Object(m) = input {
        let verb = deed(name);
        let path = named_file(input);
        let f = |v: JsonView| authored_value(verb, path, v);
        if some_member(m, f) {
            let all = map_members(m, f);
            let new = JsonView::Object(all);
            let again = named_file(new);
            let g = |v: JsonView| authored_value(verb, again, v);
            assert forall|k: Seq<char>| m.contains_key(k) implies all.contains_key(k) && (
            #[trigger] all[k] == m[k] || (all[k].as_str() matches Some(t) && begins(
                t,
                "[trimwire:"@,
            ))) by {
                if let Some(n) = bulk(m[k]) {
                    lemma_restore_marker(verb, path, n);
                }
            }
            if path != "the file"@ {
                lemma_restore_marker(verb, path, utf8_len(path));
                assert(f(JsonView::String(path)) is None);
                assert(input.get("file_path"@) is Some <==> new.get("file_path"@) is Some);
                assert(input.get("notebook_path"@) is Some <==> new.get("notebook_path"@) is Some);
                assert(again == path);
            } else {
                assert(again == path || begins(again, "[trimwire:"@));
                if again != path {
                    reveal_strlit("[trimwire:");
                    reveal_strlit("the file");
                    lemma_utf8_len_bound(again);
                    lemma_the_file();
                }
            }
            assert(utf8_len(again) >= utf8_len(path));
            assert forall|k: Seq<char>| all.contains_key(k) implies g(#[trigger] all[k]) is None by {
                if let Some(n) = bulk(m[k]) {
                    lemma_restore_marker(verb, path, n);
                }
            }
        }
    }
}

/// The words for a file that is not named are of ASCII: eight bytes.
proof fn lemma_the_file()
    ensures
        utf8_len("the file"@) <= 10,
{
    reveal_strlit("the file");
    lemma_ascii_len("the file"@);
}

/// To cap the inputs of old calls again changes nothing.
pub proof fn law_cap_once(messages: Seq<JsonView>, cfg: &StaleInputCapConfig)
    requires
        all_sizes_fit(messages),
    ensures
        ({
            let once = rewrite(messages, cap_rule(messages, cfg));
            rewrite(once, cap_rule(once, cfg)) == once
        }),
{
    let rule = cap_rule(messages, cfg);
    let once = rewrite(messages, rule);
    lemma_cutoff_kept(messages, rule, at_least_one(cfg.keep_recent_turns));
    lemma_cutoff_kept(messages, rule, at_least_one(cfg.authoring_keep_recent_turns));
    assert forall|mi: int, ci: int| #![trigger block_at(once, mi, ci)]
        block_at(once, mi, ci) is Some implies cap_rule(once, cfg)(
        mi,
        ci,
        block_at(once, mi, ci)->0,
    ) is None by {
        lemma_block_at(messages, rule, mi, ci);
        let b = block_at(messages, mi, ci)->0;
        let new = rewrite_block(b, mi, ci, rule);
        lemma_block_kept(b, mi, ci, rule, "tool_use"@, "input"@);
        lemma_failed_kept(messages, rule, b, new);
        lemma_role_kept(messages, rule, mi);
        if let Some(input) = b.get("input"@) {
            law_purged_once(input);
            if let Some(name) = b.get_str("name"@) {
                law_authored_once(name, input);
            }
        }
    }
    lemma_settled(once, cap_rule(once, cfg));
}

/// The cap spares what failed, what is recent, and what a tool that writes files was given within
/// the window for such tools.
pub proof fn law_cap_spares(
    messages: Seq<JsonView>,
    cfg: &StaleInputCapConfig,
    mi: int,
    block: JsonView,
)
    ensures
        failed(messages, block) ==> cap_edit(messages, cfg, mi, block) is None,
        (block.get_str("name"@) matches Some(name) && authoring(name)) && !is_old(
            cutoff(messages, at_least_one(cfg.authoring_keep_recent_turns)),
            mi,
        ) ==> cap_edit(messages, cfg, mi, block) is None,
        !(block.get_str("name"@) matches Some(name) && authoring(name)) && !is_old(
            cutoff(messages, at_least_one(cfg.keep_recent_turns)),
            mi,
        ) ==> cap_edit(messages, cfg, mi, block) is None,
{
}

/// What a failed call was given is left to the purge, what another was given to the cap: no input
/// is changed by both.
pub proof fn law_purge_and_cap_apart(
    messages: Seq<JsonView>,
    purge: &FailedInputPurgeConfig,
    cap: &StaleInputCapConfig,
    mi: int,
    block: JsonView,
)
    ensures
        purge_edit(messages, purge, mi, block) is None || cap_edit(messages, cap, mi, block) is None,
{
}

/// Which tool a result comes from is the same after contents of results have changed.
proof fn lemma_tool_kept(messages: Seq<JsonView>, rule: Rule, block: JsonView, new: JsonView)
    requires
        only_sets(rule, "tool_result"@, "content"@),
        new.get("tool_use_id"@) == block.get("tool_use_id"@),
    ensures
        tool_of(rewrite(messages, rule), new) == tool_of(messages, block),
{
    lemma_only_sets_keeps_ids(rule, "tool_result"@, "content"@);
    law_pairing_kept(messages, rule);
    lemma_types();
    assert(new.get_str("tool_use_id"@) == block.get_str("tool_use_id"@));
    let id = match block.get_str("tool_use_id"@) {
        Some(id) => id,
        None => Seq::empty(),
    };
    if use_positions(messages).contains_key(id) {
        let p = use_positions(messages)[id];
        lemma_positions(messages, false, id);
        lemma_block_at(messages, rule, p.0, p.1);
        let call = block_at(messages, p.0, p.1)->0;
        lemma_block_kept(call, p.0, p.1, rule, "tool_result"@, "content"@);
    }
}

proof fn lemma_content_key()
    ensures
        "content"@ != "tool_use_id"@,
        "content"@ != "is_error"@,
        "content"@ != "type"@,
{
    reveal_strlit("content");
    reveal_strlit("tool_use_id");
    reveal_strlit("is_error");
    reveal_strlit("type");
    assert("content"@.len() == 7 && "tool_use_id"@.len() == 11 && "is_error"@.len() == 8
        && "type"@.len() == 4);
}

/// What is compared after the collapse was compared before, and is unchanged.
proof fn lemma_compared_back(
    messages: Seq<JsonView>,
    cfg: &SimHashDedupConfig,
    mi: int,
    ci: int,
    b: JsonView,
)
    requires
        begins(cfg.stub@, "[trimwire: "@),
        block_at(messages, mi, ci) == Some(b),
    ensures
        ({
            let rule = near_rule(messages, cfg);
            let once = rewrite(messages, rule);
            let new = rewrite_block(b, mi, ci, rule);
            &&& compared(once, cfg, mi, ci, new) ==> new == b && compared(messages, cfg, mi, ci, b)
            &&& new == b ==> compared(once, cfg, mi, ci, new) == compared(messages, cfg, mi, ci, b)
        }),
{
    let rule = near_rule(messages, cfg);
    let new = rewrite_block(b, mi, ci, rule);
    lemma_content_key();
    lemma_block_kept(b, mi, ci, rule, "tool_result"@, "content"@);
    lemma_tool_kept(messages, rule, b, new);
    lemma_role_kept(messages, rule, mi);
    if rule(mi, ci, b) is Some {
        let content = member_or_null(b, "content"@);
        let word = "[trimwire: "@;
        let text = marker_text(cfg.stub@, content);
        assert(text.take(word.len() as int) =~= cfg.stub@.take(word.len() as int));
        assert(new.get("content"@) == Some(marker(cfg.stub@, content)));
    }
}

/// What a later result is near to after the collapse, it was near to before.
proof fn lemma_near_back(messages: Seq<JsonView>, cfg: &SimHashDedupConfig, p: (int, int))
    requires
        begins(cfg.stub@, "[trimwire: "@),
        near_later(rewrite(messages, near_rule(messages, cfg)), cfg, p),
    ensures
        near_later(messages, cfg, p),
{
    let rule = near_rule(messages, cfg);
    let once = rewrite(messages, rule);
    let old = candidates(messages, cfg);
    let new = candidates(once, cfg);
    let test_old = |mi: int, ci: int, b: JsonView| compared(messages, cfg, mi, ci, b);
    let test_new = |mi: int, ci: int, b: JsonView| compared(once, cfg, mi, ci, b);
    lemma_sites(messages, test_old);
    lemma_sites(once, test_new);
    let (i, j) = choose|i: int, j: int|
        0 <= i < j < new.len() && #[trigger] new[i] == p && distance(
            hash_at(once, p),
            hash_at(once, #[trigger] new[j]),
        ) <= cfg.hamming_threshold;
    let q = new[j];
    assert(before(p, q));
    lemma_block_at(messages, rule, p.0, p.1);
    lemma_block_at(messages, rule, q.0, q.1);
    lemma_compared_back(messages, cfg, p.0, p.1, block_at(messages, p.0, p.1)->0);
    lemma_compared_back(messages, cfg, q.0, q.1, block_at(messages, q.0, q.1)->0);
    assert(test_new(p.0, p.1, block_at(once, p.0, p.1)->0));
    assert(test_new(q.0, q.1, block_at(once, q.0, q.1)->0));
    assert(test_old(p.0, p.1, block_at(messages, p.0, p.1)->0));
    assert(test_old(q.0, q.1, block_at(messages, q.0, q.1)->0));
    assert(old.contains((p.0, p.1)) && old.contains((q.0, q.1)));
    let a = choose|a: int| 0 <= a < old.len() && old[a] == (p.0, p.1);
    let b = choose|b: int| 0 <= b < old.len() && old[b] == (q.0, q.1);
    assert(a < b) by {
        if b < a {
            assert(before(old[b], old[a]));
        }
    }
    assert(old[a] == p && old[b] == q);
    assert(hash_at(messages, p) == hash_at(once, p) && hash_at(messages, q) == hash_at(once, q));
}

/// To collapse near duplicates again changes nothing, where the stub is known for a marker.
pub proof fn law_near_once(messages: Seq<JsonView>, cfg: &SimHashDedupConfig)
    requires
        begins(cfg.stub@, "[trimwire: "@),
    ensures
        ({
            let once = rewrite(messages, near_rule(messages, cfg));
            rewrite(once, near_rule(once, cfg)) == once
        }),
{
    let rule = near_rule(messages, cfg);
    let once = rewrite(messages, rule);
    lemma_cutoff_kept(messages, rule, cfg.keep_recent_turns as nat);
    assert forall|mi: int, ci: int| #![trigger block_at(once, mi, ci)]
        block_at(once, mi, ci) is Some implies near_rule(once, cfg)(
        mi,
        ci,
        block_at(once, mi, ci)->0,
    ) is None by {
        lemma_block_at(messages, rule, mi, ci);
        let b = block_at(messages, mi, ci)->0;
        lemma_compared_back(messages, cfg, mi, ci, b);
        if near_later(once, cfg, (mi, ci)) {
            lemma_near_back(messages, cfg, (mi, ci));
        }
    }
    lemma_settled(once, near_rule(once, cfg));
}

/// The last of the results that are compared stays, and so does every recent one; what takes the
/// place of another is smaller than what it held.
pub proof fn law_near_spares(
    messages: Seq<JsonView>,
    cfg: &SimHashDedupConfig,
    mi: int,
    ci: int,
    block: JsonView,
)
    ensures
        candidates(messages, cfg).len() > 0 && candidates(messages, cfg).last() == (mi, ci)
            ==> near_edit(messages, cfg, mi, ci, block) is None,
        !is_old(cutoff(messages, cfg.keep_recent_turns as nat), mi) ==> near_edit(
            messages,
            cfg,
            mi,
            ci,
            block,
        ) is None,
        near_edit(messages, cfg, mi, ci, block) matches Some(new) ==> text_len(
            new.get("content"@)->0,
        ) < text_len(block.get("content"@)->0),
{
    let s = candidates(messages, cfg);
    lemma_sites(messages, |mi: int, ci: int, b: JsonView| compared(messages, cfg, mi, ci, b));
    if s.len() > 0 && s.last() == (mi, ci) && near_later(messages, cfg, (mi, ci)) {
        let (i, j) = choose|i: int, j: int|
            0 <= i < j < s.len() && #[trigger] s[i] == (mi, ci) && distance(
                hash_at(messages, (mi, ci)),
                hash_at(messages, #[trigger] s[j]),
            ) <= cfg.hamming_threshold;
        assert(before(s[i], s[s.len() - 1]));
    }
}

/// The cap spares whatever is recent, unless results of catastrophic size are to be capped too.
pub proof fn law_bloat_spares(
    messages: Seq<JsonView>,
    cfg: &BloatCapConfig,
    mi: int,
    block: JsonView,
)
    ensures
        cfg.catastrophic_bytes == 0 && !is_old(
            cutoff(messages, cfg.keep_recent_turns as nat),
            mi,
        ) ==> bloat_edit(messages, cfg, mi, block) is None,
{
}

/// Whether what is left of a result is within the limit, or bears a marker.
pub open spec fn within(content: JsonView, cfg: &BloatCapConfig, recent: bool) -> bool {
    match content {
        JsonView::String(s) => begins(s, "[trimwire: "@) || utf8_len(s) <= limit(cfg, recent),
        JsonView::Array(items) => array_stub(items) || text_len(content) <= limit(cfg, recent),
        _ => true,
    }
}

/// To cap again changes nothing, where what the cap left of each result is within the limit. (Where
/// the limit is smaller than the ends that are kept, the marker itself can be trimmed again.)
pub proof fn law_bloat_once(messages: Seq<JsonView>, cfg: &BloatCapConfig)
    requires
        forall|mi: int, ci: int|
            #![trigger block_at(messages, mi, ci)]
            block_at(messages, mi, ci) matches Some(b) ==> (bloat_edit(messages, cfg, mi, b) matches
                Some(new) ==> within(
                new.get("content"@)->0,
                cfg,
                !is_old(cutoff(messages, cfg.keep_recent_turns as nat), mi),
            )),
    ensures
        ({
            let once = rewrite(messages, bloat_rule(messages, cfg));
            rewrite(once, bloat_rule(once, cfg)) == once
        }),
{
    let rule = bloat_rule(messages, cfg);
    let once = rewrite(messages, rule);
    lemma_content_key();
    lemma_types();
    lemma_only_sets_keeps_ids(rule, "tool_result"@, "content"@);
    law_pairing_kept(messages, rule);
    lemma_cutoff_kept(messages, rule, cfg.keep_recent_turns as nat);
    lemma_cutoff_kept(messages, rule, cfg.stub_age_turns as nat);
    assert forall|mi: int, ci: int| #![trigger block_at(once, mi, ci)]
        block_at(once, mi, ci) is Some implies bloat_rule(once, cfg)(
        mi,
        ci,
        block_at(once, mi, ci)->0,
    ) is None by {
        lemma_block_at(messages, rule, mi, ci);
        let b = block_at(messages, mi, ci)->0;
        let new = rewrite_block(b, mi, ci, rule);
        lemma_block_kept(b, mi, ci, rule, "tool_result"@, "content"@);
        assert(new.get_str("tool_use_id"@) == b.get_str("tool_use_id"@));
        if let Some(id) = b.get_str("tool_use_id"@) {
            if use_positions(messages).contains_key(id) {
                let p = use_positions(messages)[id];
                lemma_positions(messages, false, id);
                lemma_block_at(messages, rule, p.0, p.1);
                let call = block_at(messages, p.0, p.1)->0;
                lemma_block_kept(call, p.0, p.1, rule, "tool_result"@, "content"@);
            }
        }
        assert(paired_use(once, new) == paired_use(messages, b));
    }
    lemma_settled(once, bloat_rule(once, cfg));
}

/// A pruned body keeps every member but its messages; its system text too, unless the repair of a
/// stray system message is on.
pub proof fn law_body_members(body: Seq<u8>, cfg: &StrategiesConfig, key: Seq<char>)
    requires
        parsed_json(body) is Some,
        pruned_body(body, cfg) is Some,
        key != "messages"@,
        key != "system"@ || !cfg.system_shape_normalize.enabled,
    ensures
        (pruned_body(body, cfg)->0).0.get(key) == (parsed_json(body)->0).get(key),
{
    let root = parsed_json(body)->0;
    law_normalized_scope(root);
    assert(repaired(root, cfg).get(key) == root.get(key));
}

/// Whether no strategy is on.
pub open spec fn all_off(cfg: &StrategiesConfig) -> bool {
    &&& !cfg.failed_input_purge.enabled
    &&& !cfg.stale_input_cap.enabled
    &&& !cfg.cross_turn_dedup.enabled
    &&& !cfg.stale_reads.enabled
    &&& !cfg.simhash_dedup.enabled
    &&& !cfg.bloat_cap.enabled
    &&& !cfg.sliding_window.enabled
    &&& !cfg.image_strip.enabled
    &&& !cfg.thinking_strip.enabled
}

/// With every strategy off, nothing is said to have happened and the transcript stays: all that a
/// body can then lose is empty blocks.
pub proof fn law_all_off(messages: Seq<JsonView>, cfg: &StrategiesConfig)
    requires
        all_off(cfg),
    ensures
        passage(messages, cfg).messages == messages,
        passage(messages, cfg).fired.len() == 0,
        pruned(messages, cfg) == strip_until(messages, Removal::Empty, messages.len() as int),
{
    reveal(after_failed_input_purge);
    reveal(after_stale_input_cap);
    reveal(after_cross_turn_dedup);
    reveal(after_stale_reads);
    reveal(after_simhash_dedup);
    reveal(after_bloat_cap);
    reveal(after_sliding_window);
    reveal(after_image_strip);
    reveal(after_thinking_strip);
}

} // verus!
