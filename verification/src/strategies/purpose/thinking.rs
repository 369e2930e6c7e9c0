//! The removal of blocks: which go, and that a message keeps the others in their order.

use super::{inputs::kept_turns, law_old, said_by, turns_from};
use crate::config::ThinkingStripConfig;
use crate::json::JsonView;
use crate::strategies::stale_input_cap::at_least_one;
use crate::strategies::thinking_strip::{
    goes, kept, lost, old_messages, strip_message, strip_until, total_lost, Removal,
};
use vstd::prelude::*;

verus! {

/// Whether a block is of a type.
pub open spec fn typed(b: JsonView, kind: Seq<char>) -> bool {
    b.get("type"@) == Some(JsonView::String(kind))
}

/// Whether a block holds a text that is not empty under a key.
pub open spec fn worded(b: JsonView, key: Seq<char>) -> bool {
    b.get(key) matches Some(JsonView::String(s)) && s.len() > 0
}

/// Whether a block stays in a removal.
pub open spec fn stays(removal: Removal, b: JsonView) -> bool {
    match removal {
        Removal::Thinking => !typed(b, "thinking"@) && !typed(b, "redacted_thinking"@),
        Removal::Empty => !(typed(b, "thinking"@) && !worded(b, "thinking"@)) && !(typed(b, "text"@)
            && !worded(b, "text"@)),
        Removal::EmptyThinking => !(typed(b, "thinking"@) && !worded(b, "thinking"@)),
    }
}

/// What stays of some blocks, in their order.
pub open spec fn staying(blocks: Seq<JsonView>, removal: Removal) -> Seq<JsonView> {
    blocks.filter(|b: JsonView| stays(removal, b))
}

/// The blocks that are kept are exactly those that stay: all thinking goes, readable or redacted; or
/// thinking and text without words; or thinking without words.
pub proof fn law_kept(blocks: Seq<JsonView>, removal: Removal)
    ensures
        kept(blocks, removal) == staying(blocks, removal),
    decreases blocks.len(),
{
    reveal(Seq::filter);
    if blocks.len() == 0 {
        assert(staying(blocks, removal) =~= Seq::empty());
    } else {
        law_kept(blocks.drop_last(), removal);
        assert(goes(removal, blocks.last()) == !stays(removal, blocks.last()));
    }
}

/// A message after a removal: the blocks of the assistant's that stay, unless none does.
pub open spec fn stripped(messages: Seq<JsonView>, mi: int, removal: Removal) -> JsonView {
    let msg = messages[mi];
    match msg.get("content"@) {
        Some(JsonView::Array(blocks)) => if said_by(messages, mi, "assistant"@) && staying(
            blocks,
            removal,
        ).len() > 0 {
            msg.with("content"@, JsonView::Array(staying(blocks, removal)))
        } else {
            msg
        },
        _ => msg,
    }
}

/// The strip of thinking takes it from the assistant's messages that have more turns at them or
/// behind them than are kept, one at least; no message is emptied, and every other message stays.
pub proof fn law_thinking_goes(messages: Seq<JsonView>, cfg: &ThinkingStripConfig, mi: int)
    requires
        0 <= mi < messages.len(),
    ensures
        ({
            let after = strip_until(messages, Removal::Thinking, old_messages(messages, cfg));
            &&& after.len() == messages.len()
            &&& after[mi] == if turns_from(messages, mi) > kept_turns(cfg.keep_recent_turns) {
                stripped(messages, mi, Removal::Thinking)
            } else {
                messages[mi]
            }
        }),
{
    assert(at_least_one(cfg.keep_recent_turns) == kept_turns(cfg.keep_recent_turns));
    law_old(messages, kept_turns(cfg.keep_recent_turns), mi);
    if let Some(blocks) = messages[mi].get_array("content"@) {
        law_kept(blocks, Removal::Thinking);
    }
}

/// A removal from all messages takes from each of the assistant's what does not stay.
pub proof fn law_blocks_go(messages: Seq<JsonView>, removal: Removal, mi: int)
    requires
        0 <= mi < messages.len(),
    ensures
        strip_until(messages, removal, messages.len() as int).len() == messages.len(),
        strip_until(messages, removal, messages.len() as int)[mi] == stripped(messages, mi, removal),
{
    if let Some(blocks) = messages[mi].get_array("content"@) {
        law_kept(blocks, removal);
    }
}

/// How many blocks a message has.
pub open spec fn block_count(msg: JsonView) -> nat {
    match msg.get("content"@) {
        Some(JsonView::Array(blocks)) => blocks.len(),
        _ => 0,
    }
}

/// How many blocks some messages have.
pub open spec fn all_blocks(messages: Seq<JsonView>) -> nat
    decreases messages.len(),
{
    if messages.len() == 0 {
        0
    } else {
        all_blocks(messages.drop_last()) + block_count(messages.last())
    }
}

proof fn lemma_kept_fewer(blocks: Seq<JsonView>, removal: Removal)
    ensures
        kept(blocks, removal).len() <= blocks.len(),
    decreases blocks.len(),
{
    if blocks.len() > 0 {
        lemma_kept_fewer(blocks.drop_last(), removal);
    }
}

/// What is counted as lost is by how many blocks there are fewer.
pub proof fn law_lost(messages: Seq<JsonView>, removal: Removal)
    ensures
        total_lost(messages, removal) + all_blocks(
            strip_until(messages, removal, messages.len() as int),
        ) == all_blocks(messages),
    decreases messages.len(),
{
    let after = strip_until(messages, removal, messages.len() as int);
    if messages.len() > 0 {
        let init = messages.drop_last();
        let last = messages.last();
        law_lost(init, removal);
        assert(after.drop_last() =~= strip_until(init, removal, init.len() as int));
        assert(after.last() == strip_message(last, removal));
        if let Some(blocks) = last.get_array("content"@) {
            lemma_kept_fewer(blocks, removal);
        }
        assert(lost(last, removal) + block_count(strip_message(last, removal)) == block_count(last));
    }
}

} // verus!
