//! Removes the thinking of old turns, and blocks that are empty.

use super::{assistant_cutoff, cutoff, has_role, serialized_len, transcript_len, Stats};
use crate::config::ThinkingStripConfig;
use crate::json::{lemma_views, lemma_views_push, nests, views, Json, JsonView};
use crate::pairing::{
    block_at, blocks_of, has_type, id_of, lemma_describes_paired, lemma_positions, paired,
    positions, refused, result_id, use_id, use_positions, PairingError, PairingIndex,
};
use crate::rewrite::machine;
use super::stale_input_cap::at_least_one;
use vstd::prelude::*;

verus! {

/// What is removed.
#[derive(Clone, Copy, PartialEq, Eq, Structural)]
pub enum Removal {
    /// Thinking, readable or redacted.
    Thinking,
    /// Thinking and text without content.
    Empty,
    /// Thinking without content.
    EmptyThinking,
}

/// Whether a block is thinking.
pub open spec fn thinking(block: JsonView) -> bool {
    has_type(block, "thinking"@) || has_type(block, "redacted_thinking"@)
}

/// Whether a member of a block is no text or an empty one.
pub open spec fn without_text(block: JsonView, key: Seq<char>) -> bool {
    match block.get_str(key) {
        Some(s) => s.len() == 0,
        None => true,
    }
}

/// Whether a block is thinking without content.
pub open spec fn empty_thinking(block: JsonView) -> bool {
    has_type(block, "thinking"@) && without_text(block, "thinking"@)
}

/// Whether a block is text without content.
pub open spec fn empty_text(block: JsonView) -> bool {
    has_type(block, "text"@) && without_text(block, "text"@)
}

/// Whether a block is removed.
pub open spec fn goes(removal: Removal, block: JsonView) -> bool {
    match removal {
        Removal::Thinking => thinking(block),
        Removal::Empty => empty_thinking(block) || empty_text(block),
        Removal::EmptyThinking => empty_thinking(block),
    }
}

/// Whether a block is thinking.
pub fn is_thinking(block: &Json) -> (r: bool)
    ensures
        r == thinking(block@),
{
    block.member_is("type", "thinking") || block.member_is("type", "redacted_thinking")
}

fn has_no_text(block: &Json, key: &str) -> (r: bool)
    ensures
        r == without_text(block@, key@),
{
    match block.get_str(key) {
        Some(s) => s.is_empty(),
        None => true,
    }
}

/// Whether a block is thinking without content.
pub fn is_empty_thinking(block: &Json) -> (r: bool)
    ensures
        r == empty_thinking(block@),
{
    block.member_is("type", "thinking") && has_no_text(block, "thinking")
}

/// Whether a block is text without content.
pub fn is_empty_text(block: &Json) -> (r: bool)
    ensures
        r == empty_text(block@),
{
    block.member_is("type", "text") && has_no_text(block, "text")
}

/// Whether a block is empty in a way that makes a request invalid.
pub fn is_empty_invalid(block: &Json) -> (r: bool)
    ensures
        r == goes(Removal::Empty, block@),
{
    is_empty_thinking(block) || is_empty_text(block)
}

fn is_removed(removal: Removal, block: &Json) -> (r: bool)
    ensures
        r == goes(removal, block@),
{
    match removal {
        Removal::Thinking => is_thinking(block),
        Removal::Empty => is_empty_invalid(block),
        Removal::EmptyThinking => is_empty_thinking(block),
    }
}

/// The blocks that stay, in order.
pub open spec fn kept(blocks: Seq<JsonView>, removal: Removal) -> Seq<JsonView>
    decreases blocks.len(),
{
    if blocks.len() == 0 {
        Seq::empty()
    } else {
        let before = kept(blocks.drop_last(), removal);
        if goes(removal, blocks.last()) {
            before
        } else {
            before.push(blocks.last())
        }
    }
}

/// What stays of blocks that do not nest too deep does not either.
pub proof fn lemma_kept_nests(blocks: Seq<JsonView>, removal: Removal, depth: nat)
    requires
        forall|i: int| 0 <= i < blocks.len() ==> nests(#[trigger] blocks[i], depth),
    ensures
        forall|i: int|
            0 <= i < kept(blocks, removal).len() ==> nests(
                #[trigger] kept(blocks, removal)[i],
                depth,
            ),
    decreases blocks.len(),
{
    if blocks.len() > 0 {
        let init = blocks.drop_last();
        let stay = kept(init, removal);
        let all = kept(blocks, removal);
        assert forall|i: int| 0 <= i < init.len() implies nests(#[trigger] init[i], depth) by {
            assert(nests(blocks[i], depth));
        }
        lemma_kept_nests(init, removal, depth);
        assert(nests(blocks[blocks.len() - 1], depth));
        assert forall|i: int| 0 <= i < all.len() implies nests(#[trigger] all[i], depth) by {
            if i < stay.len() {
                assert(nests(stay[i], depth));
            }
        }
    }
}

/// A message after the removal. Only an assistant's blocks are removed, and never all of them.
pub open spec fn strip_message(msg: JsonView, removal: Removal) -> JsonView {
    match msg.get_array("content"@) {
        Some(blocks) => if has_role(msg, "assistant"@) && kept(blocks, removal).len() > 0 {
            msg.with("content"@, JsonView::Array(kept(blocks, removal)))
        } else {
            msg
        },
        None => msg,
    }
}

/// How many blocks a message loses.
pub open spec fn lost(msg: JsonView, removal: Removal) -> nat {
    match msg.get_array("content"@) {
        Some(blocks) => if has_role(msg, "assistant"@) && kept(blocks, removal).len() > 0 {
            (blocks.len() - kept(blocks, removal).len()) as nat
        } else {
            0
        },
        None => 0,
    }
}

/// The transcript after the removal from its first `upto` messages.
pub open spec fn strip_until(messages: Seq<JsonView>, removal: Removal, upto: int) -> Seq<JsonView> {
    Seq::new(
        messages.len(),
        |mi: int|
            if mi < upto {
                strip_message(messages[mi], removal)
            } else {
                messages[mi]
            },
    )
}

/// How many blocks the messages lose.
pub open spec fn total_lost(messages: Seq<JsonView>, removal: Removal) -> nat
    decreases messages.len(),
{
    if messages.len() == 0 {
        0
    } else {
        total_lost(messages.drop_last(), removal) + lost(messages.last(), removal)
    }
}

/// How many messages the strip of thinking looks at: those at or before the cutoff.
pub open spec fn old_messages(messages: Seq<JsonView>, cfg: &ThinkingStripConfig) -> int {
    match cutoff(messages, at_least_one(cfg.keep_recent_turns)) {
        Some(c) => c + 1,
        None => 0,
    }
}

/// The blocks that stay are no more than there were, and all of them if none went.
pub proof fn lemma_kept_len(blocks: Seq<JsonView>, removal: Removal)
    ensures
        kept(blocks, removal).len() <= blocks.len(),
        kept(blocks, removal).len() == blocks.len() ==> kept(blocks, removal) == blocks,
    decreases blocks.len(),
{
    if blocks.len() > 0 {
        lemma_kept_len(blocks.drop_last(), removal);
        if kept(blocks, removal).len() == blocks.len() {
            assert(kept(blocks, removal) =~= blocks);
        }
    }
}

/// The blocks that stay, in order.
pub fn keep_blocks(content: &Vec<Json>, removal: Removal) -> (r: Vec<Json>)
    ensures
        views(r@) == kept(views(content@), removal),
{
    let ghost blocks = views(content@);
    let mut r: Vec<Json> = Vec::new();
    let mut i: usize = 0;
    assert(views(r@) =~= Seq::empty());
    assert(blocks.take(0) =~= Seq::empty());
    while i < content.len()
        invariant
            i <= content@.len(),
            blocks == views(content@),
            views(r@) == kept(blocks.take(i as int), removal),
        decreases content@.len() - i,
    {
        proof {
            lemma_views(content@);
            assert(blocks.take(i + 1).drop_last() =~= blocks.take(i as int));
            assert(blocks.take(i + 1).last() == blocks[i as int]);
        }
        if !is_removed(removal, &content[i]) {
            let b = content[i].copy();
            proof {
                lemma_views_push(r@, b);
            }
            r.push(b);
        }
        i = i + 1;
    }
    assert(blocks.take(i as int) =~= blocks);
    r
}

fn strip_one(msg: &mut Json, removal: Removal) -> (r: usize)
    ensures
        final(msg)@ == strip_message(old(msg)@, removal),
        r == lost(old(msg)@, removal),
{
    proof {
        if let JsonView::Object(m) = msg@ {
            if m.contains_key("content"@) {
                assert(m.insert("content"@, m["content"@]) =~= m);
            }
        }
    }
    if !msg.member_is("role", "assistant") {
        return 0;
    }
    match msg {
        Json::Object(m) => match m.get_mut("content") {
            Some(content) => match content {
                Json::Array(blocks) => {
                    let stay = keep_blocks(blocks, removal);
                    proof {
                        lemma_views(blocks@);
                        lemma_views(stay@);
                        lemma_kept_len(views(blocks@), removal);
                    }
                    if stay.len() == 0 {
                        0
                    } else {
                        let n: usize = blocks.len() - stay.len();
                        *blocks = stay;
                        n
                    }
                },
                _ => 0,
            },
            None => 0,
        },
        _ => 0,
    }
}

fn strip_first(messages: &mut Vec<Json>, removal: Removal, upto: usize) -> (r: usize)
    requires
        upto <= old(messages)@.len(),
    ensures
        views(final(messages)@) == strip_until(views(old(messages)@), removal, upto as int),
        r == machine(total_lost(views(old(messages)@).take(upto as int), removal)),
{
    let ghost all = views(messages@);
    let ghost n = messages@.len();
    let mut removed: usize = 0;
    let mut i: usize = 0;
    proof {
        lemma_views(messages@);
        assert(all.take(0) =~= Seq::empty());
    }
    while i < upto
        invariant
            i <= upto <= n,
            n == messages@.len(),
            n == all.len(),
            forall|j: int| 0 <= j < i ==> (#[trigger] messages@[j])@ == strip_message(all[j], removal),
            forall|j: int| i <= j < n ==> (#[trigger] messages@[j])@ == all[j],
            removed == machine(total_lost(all.take(i as int), removal)),
        decreases upto - i,
    {
        assert(all.take(i + 1).drop_last() =~= all.take(i as int));
        assert(all.take(i + 1).last() == all[i as int]);
        let k: usize = strip_one(&mut messages[i], removal);
        removed = removed.saturating_add(k);
        i = i + 1;
    }
    proof {
        lemma_views(messages@);
        assert(views(messages@) =~= strip_until(all, removal, upto as int));
    }
    removed
}

/// Removes the empty blocks of every assistant message and says how many were removed.
pub fn strip_empty(messages: &mut Vec<Json>) -> (r: usize)
    ensures
        views(final(messages)@) == strip_until(
            views(old(messages)@),
            Removal::Empty,
            old(messages)@.len() as int,
        ),
        r == machine(total_lost(views(old(messages)@), Removal::Empty)),
{
    let n: usize = messages.len();
    proof {
        lemma_views(messages@);
        assert(views(messages@).take(n as int) =~= views(messages@));
    }
    strip_first(messages, Removal::Empty, n)
}

proof fn lemma_cutoff_bound(messages: Seq<JsonView>, keep: nat)
    ensures
        cutoff(messages, keep) matches Some(c) ==> 0 <= c < messages.len(),
    decreases messages.len(),
{
    if messages.len() > 0 {
        lemma_cutoff_bound(messages.drop_last(), keep);
        if keep > 0 {
            lemma_cutoff_bound(messages.drop_last(), (keep - 1) as nat);
        }
    }
}

/// The strip of thinking looks at no more messages than there are.
pub proof fn lemma_old_messages(messages: Seq<JsonView>, cfg: &ThinkingStripConfig)
    ensures
        0 <= old_messages(messages, cfg) <= messages.len(),
{
    lemma_cutoff_bound(messages, at_least_one(cfg.keep_recent_turns));
}

/// Removes the thinking of old turns and says how many blocks were removed.
pub fn apply_counted(messages: &mut Vec<Json>, cfg: &ThinkingStripConfig) -> (r: Result<
    usize,
    PairingError,
>)
    ensures
        ({
            let before = views(old(messages)@);
            let after = views(final(messages)@);
            let upto = old_messages(before, cfg);
            match r {
                Ok(n) => paired(before) && after == strip_until(before, Removal::Thinking, upto)
                    && n == machine(total_lost(before.take(upto), Removal::Thinking)),
                Err(e) => refused(before, e) && after == before,
            }
        }),
{
    let ghost all = views(messages@);
    let index = PairingIndex::build(messages);
    proof {
        lemma_describes_paired(index, all);
    }
    index.validate()?;
    let keep: usize = if cfg.keep_recent_turns == 0 {
        1
    } else {
        cfg.keep_recent_turns
    };
    proof {
        lemma_views(messages@);
        lemma_cutoff_bound(all, keep as nat);
    }
    let len: usize = messages.len();
    let cut = assistant_cutoff(messages, keep);
    match cut {
        Some(c) => {
            assert(c < len);
            Ok(strip_first(messages, Removal::Thinking, c + 1))
        },
        None => {
            proof {
                assert(strip_until(all, Removal::Thinking, 0) =~= all);
                assert(all.take(0) =~= Seq::empty());
            }
            Ok(0)
        },
    }
}

/// Removes the thinking of old turns.
pub fn apply(messages: &mut Vec<Json>, cfg: &ThinkingStripConfig) -> (r: Result<
    Stats,
    PairingError,
>)
    ensures
        ({
            let before = views(old(messages)@);
            let after = views(final(messages)@);
            let upto = old_messages(before, cfg);
            match r {
                Ok(stats) => paired(before) && after == strip_until(
                    before,
                    Removal::Thinking,
                    upto,
                ) && stats.stubbed == machine(total_lost(before.take(upto), Removal::Thinking))
                    && stats.original_bytes == transcript_len(before) && stats.final_bytes
                    == transcript_len(after),
                Err(e) => refused(before, e) && after == before,
            }
        }),
{
    let original_bytes: usize = serialized_len(messages);
    let stubbed: usize = apply_counted(messages, cfg)?;
    let final_bytes: usize = serialized_len(messages);
    Ok(Stats { stubbed, original_bytes, final_bytes })
}

/// A message keeps its blocks where it loses none.
proof fn lemma_lost_zero(msg: JsonView, removal: Removal)
    requires
        lost(msg, removal) == 0,
    ensures
        strip_message(msg, removal) == msg,
{
    if let Some(blocks) = msg.get_array("content"@) {
        lemma_kept_len(blocks, removal);
        if let JsonView::Object(m) = msg {
            assert(m.insert("content"@, m["content"@]) =~= m);
        }
    }
}

/// Where no block is counted as removed, nothing has changed.
pub proof fn law_strip_no_change(messages: Seq<JsonView>, removal: Removal, upto: int)
    requires
        0 <= upto <= messages.len(),
        total_lost(messages.take(upto), removal) == 0,
    ensures
        strip_until(messages, removal, upto) == messages,
    decreases upto,
{
    if upto > 0 {
        assert(messages.take(upto).drop_last() =~= messages.take(upto - 1));
        assert(messages.take(upto).last() == messages[upto - 1]);
        law_strip_no_change(messages, removal, upto - 1);
        lemma_lost_zero(messages[upto - 1], removal);
        assert forall|i: int| 0 <= i < messages.len() implies strip_until(messages, removal, upto)[i] == messages[i] by {
            if i != upto - 1 {
                assert(strip_until(messages, removal, upto - 1)[i] == messages[i]);
            }
        }
    }
    assert(strip_until(messages, removal, upto) =~= messages);
}

/// The blocks that stay are those that are not removed.
proof fn lemma_kept(blocks: Seq<JsonView>, removal: Removal)
    ensures
        forall|i: int|
            0 <= i < kept(blocks, removal).len() ==> !goes(
                removal,
                #[trigger] kept(blocks, removal)[i],
            ) && blocks.contains(kept(blocks, removal)[i]),
        forall|i: int|
            0 <= i < blocks.len() && !goes(removal, #[trigger] blocks[i]) ==> kept(
                blocks,
                removal,
            ).contains(blocks[i]),
    decreases blocks.len(),
{
    if blocks.len() > 0 {
        let init = blocks.drop_last();
        let k0 = kept(init, removal);
        let k = kept(blocks, removal);
        lemma_kept(init, removal);
        assert forall|i: int| 0 <= i < k.len() implies !goes(removal, #[trigger] k[i]) && blocks.contains(k[i]) by {
            if i < k0.len() {
                assert(k[i] == k0[i]);
                let j = choose|j: int| 0 <= j < init.len() && init[j] == k0[i];
                assert(blocks[j] == k[i]);
            } else {
                assert(blocks[blocks.len() - 1] == k[i]);
            }
        }
        assert forall|i: int| 0 <= i < blocks.len() && !goes(removal, #[trigger] blocks[i]) implies k.contains(blocks[i]) by {
            if i < init.len() {
                assert(init[i] == blocks[i]);
                let j = choose|j: int| 0 <= j < k0.len() && k0[j] == blocks[i];
                assert(k[j] == blocks[i]);
            } else {
                assert(k[k.len() - 1] == blocks[i]);
            }
        }
    }
}

/// No call and no result is removed.
proof fn lemma_pairs_stay(block: JsonView, removal: Removal)
    ensures
        use_id(block) is Some || result_id(block) is Some ==> !goes(removal, block),
{
    reveal_strlit("tool_use");
    reveal_strlit("tool_result");
    reveal_strlit("thinking");
    reveal_strlit("redacted_thinking");
    reveal_strlit("text");
    assert("tool_use"@.len() == 8 && "tool_result"@.len() == 11 && "thinking"@.len() == 8
        && "redacted_thinking"@.len() == 17 && "text"@.len() == 4);
    assert("tool_use"@[1] != "thinking"@[1]);
}

proof fn lemma_same_ids(a: Seq<JsonView>, b: Seq<JsonView>, results: bool, id: Seq<char>)
    requires
        forall|mi: int, ci: int|
            #![trigger block_at(a, mi, ci)]
            (block_at(a, mi, ci) matches Some(x) && id_of(x, results) == Some(id)) ==> exists|
                cj: int,
            |
                #[trigger] block_at(b, mi, cj) == block_at(a, mi, ci),
    ensures
        positions(a, results).contains_key(id) ==> positions(b, results).contains_key(id),
{
    lemma_positions(a, results, id);
    lemma_positions(b, results, id);
    if positions(a, results).contains_key(id) {
        let (mi, ci) = positions(a, results)[id];
        assert(block_at(a, mi, ci) is Some);
        let cj = choose|cj: int| #[trigger] block_at(b, mi, cj) == block_at(a, mi, ci);
        assert(block_at(b, mi, cj) is Some);
    }
}

/// The removal takes no call and no result, so it cannot part one from the other; and no message
/// that has blocks is left without.
pub proof fn law_strip_pairing(messages: Seq<JsonView>, removal: Removal, upto: int)
    ensures
        paired(strip_until(messages, removal, upto)) <==> paired(messages),
        forall|mi: int|
            0 <= mi < messages.len() && blocks_of(#[trigger] messages[mi]).len() > 0 ==> blocks_of(
                strip_until(messages, removal, upto)[mi],
            ).len() > 0,
{
    let new = strip_until(messages, removal, upto);
    assert forall|mi: int, ci: int, results: bool|
        #![trigger block_at(messages, mi, ci), id_of(block_at(messages, mi, ci)->0, results)]
        (block_at(messages, mi, ci) matches Some(x) && id_of(x, results) is Some) implies exists|
            cj: int,
        |
            #[trigger] block_at(new, mi, cj) == block_at(messages, mi, ci) by {
        let blocks = blocks_of(messages[mi]);
        let x = blocks[ci];
        lemma_pairs_stay(x, removal);
        lemma_kept(blocks, removal);
        if new[mi] == messages[mi] {
            assert(block_at(new, mi, ci) == block_at(messages, mi, ci));
        } else {
            let k = kept(blocks, removal);
            assert(blocks_of(new[mi]) == k);
            let cj = choose|cj: int| 0 <= cj < k.len() && k[cj] == x;
            assert(block_at(new, mi, cj) == Some(x));
        }
    }
    assert forall|mi: int, ci: int|
        #![trigger block_at(new, mi, ci)]
        block_at(new, mi, ci) is Some implies exists|cj: int|
            #[trigger] block_at(messages, mi, cj) == block_at(new, mi, ci) by {
        let blocks = blocks_of(messages[mi]);
        lemma_kept(blocks, removal);
        if new[mi] == messages[mi] {
            assert(block_at(messages, mi, ci) == block_at(new, mi, ci));
        } else {
            let k = kept(blocks, removal);
            assert(blocks_of(new[mi]) == k);
            let cj = choose|cj: int| 0 <= cj < blocks.len() && blocks[cj] == k[ci];
            assert(block_at(messages, mi, cj) == Some(k[ci]));
        }
    }
    assert forall|id: Seq<char>| #[trigger] use_positions(new).contains_key(id) <==> use_positions(messages).contains_key(id) by {
        assert forall|mi: int, ci: int|
            #![trigger block_at(messages, mi, ci)]
            (block_at(messages, mi, ci) matches Some(x) && id_of(x, false) == Some(id)) implies exists|
                cj: int,
            |
                #[trigger] block_at(new, mi, cj) == block_at(messages, mi, ci) by {
            assert(id_of(block_at(messages, mi, ci)->0, false) is Some);
        }
        lemma_same_ids(messages, new, false, id);
        lemma_same_ids(new, messages, false, id);
    }
    if paired(messages) {
        assert forall|mi: int, ci: int|
            #![trigger block_at(new, mi, ci)]
            (block_at(new, mi, ci) matches Some(b) && result_id(b) is Some) implies use_positions(new).contains_key(result_id(block_at(new, mi, ci)->0)->0) by {
            let cj = choose|cj: int| #[trigger] block_at(messages, mi, cj) == block_at(new, mi, ci);
            assert(block_at(messages, mi, cj) is Some);
        }
    }
    if paired(new) {
        assert forall|mi: int, ci: int|
            #![trigger block_at(messages, mi, ci)]
            (block_at(messages, mi, ci) matches Some(b) && result_id(b) is Some) implies use_positions(messages).contains_key(result_id(block_at(messages, mi, ci)->0)->0) by {
            assert(id_of(block_at(messages, mi, ci)->0, true) is Some);
            let cj = choose|cj: int| #[trigger] block_at(new, mi, cj) == block_at(messages, mi, ci);
            assert(block_at(new, mi, cj) is Some);
        }
    }
}

/// What stays is not what goes, and it stays again.
pub proof fn lemma_kept_twice(blocks: Seq<JsonView>, removal: Removal)
    ensures
        kept(kept(blocks, removal), removal) == kept(blocks, removal),
        forall|i: int|
            0 <= i < kept(blocks, removal).len() ==> !goes(
                removal,
                #[trigger] kept(blocks, removal)[i],
            ),
    decreases blocks.len(),
{
    if blocks.len() > 0 {
        let init = kept(blocks.drop_last(), removal);
        lemma_kept_twice(blocks.drop_last(), removal);
        if !goes(removal, blocks.last()) {
            assert(init.push(blocks.last()).drop_last() =~= init);
        }
    }
}

/// A removal leaves the role of a message as it is.
proof fn lemma_strip_role(msg: JsonView, removal: Removal)
    ensures
        strip_message(msg, removal).get_str("role"@) == msg.get_str("role"@),
{
    reveal_strlit("role");
    reveal_strlit("content");
    assert("role"@.len() == 4 && "content"@.len() == 7);
    assert(strip_message(msg, removal).get("role"@) == msg.get("role"@));
}

proof fn lemma_strip_message_once(msg: JsonView, removal: Removal)
    ensures
        strip_message(strip_message(msg, removal), removal) == strip_message(msg, removal),
{
    let once = strip_message(msg, removal);
    lemma_strip_role(msg, removal);
    if let Some(blocks) = msg.get_array("content"@) {
        if has_role(msg, "assistant"@) && kept(blocks, removal).len() > 0 {
            lemma_kept_twice(blocks, removal);
            assert(once.get_array("content"@) == Some(kept(blocks, removal)));
            if let JsonView::Object(m) = once {
                assert(m.insert("content"@, m["content"@]) =~= m);
            }
        }
    }
}

/// To remove again what was removed changes nothing.
pub proof fn law_strip_once(messages: Seq<JsonView>, removal: Removal, upto: int)
    ensures
        ({
            let once = strip_until(messages, removal, upto);
            strip_until(once, removal, upto) == once
        }),
{
    let once = strip_until(messages, removal, upto);
    assert forall|mi: int| 0 <= mi < messages.len() implies strip_until(once, removal, upto)[mi]
        == once[mi] by {
        lemma_strip_message_once(messages[mi], removal);
    }
    assert(strip_until(once, removal, upto) =~= once);
}

proof fn lemma_cutoff_stripped(messages: Seq<JsonView>, removal: Removal, upto: int, keep: nat)
    ensures
        cutoff(strip_until(messages, removal, upto), keep) == cutoff(messages, keep),
    decreases messages.len(),
{
    let new = strip_until(messages, removal, upto);
    if messages.len() > 0 {
        let init = messages.drop_last();
        assert(new.drop_last() =~= strip_until(init, removal, upto));
        lemma_strip_role(messages.last(), removal);
        lemma_cutoff_stripped(init, removal, upto, keep);
        if keep > 0 {
            lemma_cutoff_stripped(init, removal, upto, (keep - 1) as nat);
        }
    }
}

/// To strip the thinking of old turns again changes nothing: the same turns are old, and they have
/// no thinking left that could go.
pub proof fn law_thinking_once(messages: Seq<JsonView>, cfg: &ThinkingStripConfig)
    ensures
        ({
            let once = strip_until(messages, Removal::Thinking, old_messages(messages, cfg));
            strip_until(once, Removal::Thinking, old_messages(once, cfg)) == once
        }),
{
    let upto = old_messages(messages, cfg);
    lemma_cutoff_stripped(
        messages,
        Removal::Thinking,
        upto,
        at_least_one(cfg.keep_recent_turns),
    );
    law_strip_once(messages, Removal::Thinking, upto);
}

/// A removal goes no further than it is told, touches only what the assistant said, and leaves
/// every member of a message but its content alone. What stays stays in order, and it is all that
/// does not go.
pub proof fn law_strip_scope(messages: Seq<JsonView>, removal: Removal, upto: int, mi: int)
    requires
        0 <= mi < messages.len(),
    ensures
        mi >= upto ==> strip_until(messages, removal, upto)[mi] == messages[mi],
        !has_role(messages[mi], "assistant"@) ==> strip_until(messages, removal, upto)[mi]
            == messages[mi],
        forall|key: Seq<char>|
            key != "content"@ ==> #[trigger] strip_until(messages, removal, upto)[mi].get(key)
                == messages[mi].get(key),
        blocks_of(strip_until(messages, removal, upto)[mi]) == blocks_of(messages[mi]) || blocks_of(
            strip_until(messages, removal, upto)[mi],
        ) == blocks_of(messages[mi]).filter(|b: JsonView| !goes(removal, b)),
{
    lemma_kept_filter(blocks_of(messages[mi]), removal);
}

proof fn lemma_kept_filter(blocks: Seq<JsonView>, removal: Removal)
    ensures
        kept(blocks, removal) == blocks.filter(|b: JsonView| !goes(removal, b)),
    decreases blocks.len(),
{
    reveal(Seq::filter);
    if blocks.len() > 0 {
        lemma_kept_filter(blocks.drop_last(), removal);
    }
}

} // verus!
