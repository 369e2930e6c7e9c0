//! What calls and results are and which belong together, said of the blocks themselves.

use crate::json::JsonView;
use crate::pairing::{
    block_at, blocks_of, enter_blocks, id_of, last_use, lemma_positions, paired, paired_use,
    positions, result_id, result_positions, stands_for, use_id, use_positions,
};
use crate::rewrite::{count_blocks, count_changes, Rule};
use crate::sites::{before, sites, sites_in};
use vstd::prelude::*;

verus! {

/// The block at a position is that item of the content of that message, where the content is an
/// array that has it.
pub proof fn law_block_at(messages: Seq<JsonView>, mi: int, ci: int, b: JsonView)
    ensures
        block_at(messages, mi, ci) == Some(b) <==> {
            &&& 0 <= mi < messages.len()
            &&& messages[mi].get("content"@) matches Some(JsonView::Array(items)) && 0 <= ci
                < items.len() && items[ci] == b
        },
{
}

/// Whether a block is a call with an id.
pub open spec fn calls_as(b: JsonView, id: Seq<char>) -> bool {
    b.get("type"@) == Some(JsonView::String("tool_use"@)) && b.get("id"@) == Some(
        JsonView::String(id),
    )
}

/// Whether a block is a result that names an id.
pub open spec fn answers_as(b: JsonView, id: Seq<char>) -> bool {
    b.get("type"@) == Some(JsonView::String("tool_result"@)) && b.get("tool_use_id"@) == Some(
        JsonView::String(id),
    )
}

/// A block calls under an id, or answers to one, exactly where its type and its id say so.
pub proof fn law_ids(b: JsonView, id: Seq<char>)
    ensures
        use_id(b) == Some(id) <==> calls_as(b, id),
        result_id(b) == Some(id) <==> answers_as(b, id),
{
}

proof fn lemma_enter_last(
    table: Map<Seq<char>, (int, int)>,
    blocks: Seq<JsonView>,
    mi: int,
    results: bool,
    id: Seq<char>,
    ci: int,
)
    requires
        0 <= ci < blocks.len(),
        id_of(blocks[ci], results) == Some(id),
        forall|k: int| ci < k < blocks.len() ==> id_of(#[trigger] blocks[k], results) != Some(id),
    ensures
        enter_blocks(table, blocks, mi, results).contains_key(id),
        enter_blocks(table, blocks, mi, results)[id] == (mi, ci),
    decreases blocks.len(),
{
    let init = blocks.drop_last();
    if ci < blocks.len() - 1 {
        assert(init[ci] == blocks[ci]);
        assert forall|k: int| ci < k < init.len() implies id_of(#[trigger] init[k], results) != Some(
            id,
        ) by {
            assert(init[k] == blocks[k]);
        }
        lemma_enter_last(table, init, mi, results, id, ci);
        assert(id_of(blocks[blocks.len() - 1], results) != Some(id));
    }
}

proof fn lemma_enter_none(
    table: Map<Seq<char>, (int, int)>,
    blocks: Seq<JsonView>,
    mi: int,
    results: bool,
    id: Seq<char>,
)
    requires
        forall|k: int| 0 <= k < blocks.len() ==> id_of(#[trigger] blocks[k], results) != Some(id),
    ensures
        enter_blocks(table, blocks, mi, results).contains_key(id) == table.contains_key(id),
        table.contains_key(id) ==> enter_blocks(table, blocks, mi, results)[id] == table[id],
    decreases blocks.len(),
{
    if blocks.len() > 0 {
        let init = blocks.drop_last();
        assert forall|k: int| 0 <= k < init.len() implies id_of(#[trigger] init[k], results) != Some(
            id,
        ) by {
            assert(init[k] == blocks[k]);
        }
        lemma_enter_none(table, init, mi, results, id);
        assert(id_of(blocks[blocks.len() - 1], results) != Some(id));
    }
}

/// Whether a block at a position has an id and none behind it has.
pub open spec fn last_with(
    messages: Seq<JsonView>,
    results: bool,
    id: Seq<char>,
    mi: int,
    ci: int,
) -> bool {
    &&& block_at(messages, mi, ci) matches Some(b) && id_of(b, results) == Some(id)
    &&& forall|mj: int, cj: int|
        (#[trigger] block_at(messages, mj, cj) matches Some(b) && before((mi, ci), (mj, cj)))
            ==> id_of(block_at(messages, mj, cj)->0, results) != Some(id)
}

proof fn lemma_last_position(
    messages: Seq<JsonView>,
    results: bool,
    id: Seq<char>,
    mi: int,
    ci: int,
)
    requires
        last_with(messages, results, id, mi, ci),
    ensures
        positions(messages, results).contains_key(id),
        positions(messages, results)[id] == (mi, ci),
    decreases messages.len(),
{
    let init = messages.drop_last();
    let last = messages.len() - 1;
    let blocks = blocks_of(messages[last]);
    let table = positions(init, results);
    if mi == last {
        assert forall|k: int| ci < k < blocks.len() implies id_of(#[trigger] blocks[k], results)
            != Some(id) by {
            assert(block_at(messages, last, k) == Some(blocks[k]));
        }
        lemma_enter_last(table, blocks, last, results, id, ci);
    } else {
        assert(block_at(init, mi, ci) == block_at(messages, mi, ci));
        assert forall|mj: int, cj: int|
            (#[trigger] block_at(init, mj, cj) matches Some(b) && before((mi, ci), (mj, cj))) implies id_of(
            block_at(init, mj, cj)->0,
            results,
        ) != Some(id) by {
            assert(block_at(messages, mj, cj) == block_at(init, mj, cj));
        }
        lemma_last_position(init, results, id, mi, ci);
        assert forall|k: int| 0 <= k < blocks.len() implies id_of(#[trigger] blocks[k], results)
            != Some(id) by {
            assert(block_at(messages, last, k) == Some(blocks[k]));
        }
        lemma_enter_none(table, blocks, last, results, id);
    }
}

/// A table leads from an id to the block that has it behind all others that have it.
pub proof fn law_last_position(
    messages: Seq<JsonView>,
    results: bool,
    id: Seq<char>,
    mi: int,
    ci: int,
)
    ensures
        last_with(messages, results, id, mi, ci) <==> positions(messages, results).contains_key(id)
            && positions(messages, results)[id] == (mi, ci),
{
    if last_with(messages, results, id, mi, ci) {
        lemma_last_position(messages, results, id, mi, ci);
    }
    if positions(messages, results).contains_key(id) && positions(messages, results)[id] == (mi, ci) {
        lemma_positions(messages, results, id);
        assert forall|mj: int, cj: int|
            (#[trigger] block_at(messages, mj, cj) matches Some(b) && before((mi, ci), (mj, cj))) implies id_of(
            block_at(messages, mj, cj)->0,
            results,
        ) != Some(id) by {
            if id_of(block_at(messages, mj, cj)->0, results) == Some(id) {
                let (a, b) = lemma_furthest(messages, results, id, mj, cj);
                lemma_last_position(messages, results, id, a, b);
            }
        }
    }
}

/// From a block that has an id on, some block has it last.
proof fn lemma_furthest(
    messages: Seq<JsonView>,
    results: bool,
    id: Seq<char>,
    mi: int,
    ci: int,
) -> (r: (int, int))
    requires
        block_at(messages, mi, ci) matches Some(b) && id_of(b, results) == Some(id),
    ensures
        last_with(messages, results, id, r.0, r.1),
        r == (mi, ci) || before((mi, ci), r),
    decreases messages.len() - mi, blocks_of(messages[mi]).len() - ci,
{
    if exists|mj: int, cj: int|
        (#[trigger] block_at(messages, mj, cj) matches Some(b) && id_of(b, results) == Some(id))
            && before((mi, ci), (mj, cj)) {
        let (mj, cj) = choose|mj: int, cj: int|
            (#[trigger] block_at(messages, mj, cj) matches Some(b) && id_of(b, results) == Some(id))
                && before((mi, ci), (mj, cj));
        lemma_furthest(messages, results, id, mj, cj)
    } else {
        (mi, ci)
    }
}

/// Whether a block of a transcript is a call with an id.
pub open spec fn called(messages: Seq<JsonView>, id: Seq<char>) -> bool {
    exists|mi: int, ci: int|
        #![trigger block_at(messages, mi, ci)]
        block_at(messages, mi, ci) matches Some(b) && calls_as(b, id)
}

/// Whether the block at a position is a result that names an id.
pub open spec fn answered_at(messages: Seq<JsonView>, id: Seq<char>, mi: int, ci: int) -> bool {
    block_at(messages, mi, ci) matches Some(b) && answers_as(b, id)
}

/// A transcript is in order exactly where for each result, wherever it stands, there is a call with
/// its id, wherever that stands.
pub proof fn law_paired(messages: Seq<JsonView>)
    ensures
        paired(messages) <==> forall|mi: int, ci: int, id: Seq<char>|
            #[trigger] answered_at(messages, id, mi, ci) ==> called(messages, id),
{
    if paired(messages) {
        assert forall|mi: int, ci: int, id: Seq<char>|
            #[trigger] answered_at(messages, id, mi, ci) implies called(messages, id) by {
            let b = block_at(messages, mi, ci)->0;
            assert(result_id(b) == Some(id));
            lemma_positions(messages, false, id);
            let (mj, cj) = use_positions(messages)[id];
            assert(block_at(messages, mj, cj) matches Some(c) && calls_as(c, id));
        }
    }
    if forall|mi: int, ci: int, id: Seq<char>|
        #[trigger] answered_at(messages, id, mi, ci) ==> called(messages, id) {
        assert forall|mi: int, ci: int|
            #![trigger block_at(messages, mi, ci)]
            (block_at(messages, mi, ci) matches Some(b) && result_id(b) matches Some(id)) implies use_positions(
            messages,
        ).contains_key(result_id(block_at(messages, mi, ci)->0)->0) by {
            let id = result_id(block_at(messages, mi, ci)->0)->0;
            assert(answered_at(messages, id, mi, ci));
            assert(called(messages, id));
            let (mj, cj) = choose|mj: int, cj: int|
                #![trigger block_at(messages, mj, cj)]
                block_at(messages, mj, cj) matches Some(b) && calls_as(b, id);
            assert(block_at(messages, mj, cj) matches Some(b) && use_id(b) == Some(id));
            lemma_positions(messages, false, id);
        }
    }
}

/// Whether the block at a position is the result that counts for an id: it names the id, and no
/// result behind it does.
pub open spec fn answer_at(messages: Seq<JsonView>, id: Seq<char>, mi: int, ci: int) -> bool {
    &&& block_at(messages, mi, ci) matches Some(b) && answers_as(b, id)
    &&& forall|mj: int, cj: int|
        (#[trigger] block_at(messages, mj, cj) matches Some(b) && before((mi, ci), (mj, cj)))
            ==> !answers_as(block_at(messages, mj, cj)->0, id)
}

/// Whether the block at a position is the call that counts for an id.
pub open spec fn call_at(messages: Seq<JsonView>, id: Seq<char>, mi: int, ci: int) -> bool {
    &&& block_at(messages, mi, ci) matches Some(b) && calls_as(b, id)
    &&& forall|mj: int, cj: int|
        (#[trigger] block_at(messages, mj, cj) matches Some(b) && before((mi, ci), (mj, cj)))
            ==> !calls_as(block_at(messages, mj, cj)->0, id)
}

/// The result of an id is the last block that names it as a result, and the call of an id the last
/// that names it as a call.
pub proof fn law_stands_for(messages: Seq<JsonView>, id: Seq<char>, mi: int, ci: int)
    requires
        block_at(messages, mi, ci) is Some,
    ensures
        stands_for(messages, mi, ci, block_at(messages, mi, ci)->0) == Some(id) <==> answer_at(
            messages,
            id,
            mi,
            ci,
        ),
        last_use(messages, mi, ci, block_at(messages, mi, ci)->0) == Some(id) <==> call_at(
            messages,
            id,
            mi,
            ci,
        ),
        result_positions(messages).contains_key(id) && result_positions(messages)[id] == (mi, ci)
            <==> answer_at(messages, id, mi, ci),
        use_positions(messages).contains_key(id) && use_positions(messages)[id] == (mi, ci)
            <==> call_at(messages, id, mi, ci),
{
    law_last_position(messages, true, id, mi, ci);
    law_last_position(messages, false, id, mi, ci);
    lemma_last_is_answer(messages, id, mi, ci);
}

proof fn lemma_last_is_answer(messages: Seq<JsonView>, id: Seq<char>, mi: int, ci: int)
    ensures
        last_with(messages, true, id, mi, ci) == answer_at(messages, id, mi, ci),
        last_with(messages, false, id, mi, ci) == call_at(messages, id, mi, ci),
{
    assert forall|b: JsonView| (id_of(b, true) == Some(id)) == #[trigger] answers_as(b, id) by {}
    assert forall|b: JsonView| (id_of(b, false) == Some(id)) == #[trigger] calls_as(b, id) by {}
    if last_with(messages, true, id, mi, ci) {
        assert(answers_as(block_at(messages, mi, ci)->0, id));
        assert(answer_at(messages, id, mi, ci));
    }
    if answer_at(messages, id, mi, ci) {
        assert(last_with(messages, true, id, mi, ci));
    }
    if last_with(messages, false, id, mi, ci) {
        assert(calls_as(block_at(messages, mi, ci)->0, id));
        assert(call_at(messages, id, mi, ci));
    }
    if call_at(messages, id, mi, ci) {
        assert(last_with(messages, false, id, mi, ci));
    }
}

/// An id has a result that counts exactly where some block names it as a result.
pub proof fn law_has_answer(messages: Seq<JsonView>, id: Seq<char>)
    ensures
        result_positions(messages).contains_key(id) <==> exists|mi: int, ci: int|
            #![trigger block_at(messages, mi, ci)]
            block_at(messages, mi, ci) matches Some(b) && answers_as(b, id),
        result_positions(messages).contains_key(id) <==> exists|mi: int, ci: int| #[trigger]
            answer_at(messages, id, mi, ci),
        use_positions(messages).contains_key(id) <==> called(messages, id),
{
    lemma_positions(messages, true, id);
    lemma_positions(messages, false, id);
    if result_positions(messages).contains_key(id) {
        let (mi, ci) = result_positions(messages)[id];
        law_last_position(messages, true, id, mi, ci);
        lemma_last_is_answer(messages, id, mi, ci);
        assert(answer_at(messages, id, mi, ci));
        assert(block_at(messages, mi, ci) matches Some(b) && answers_as(b, id));
    }
    if exists|mi: int, ci: int| #[trigger] answer_at(messages, id, mi, ci) {
        let (mi, ci) = choose|mi: int, ci: int| #[trigger] answer_at(messages, id, mi, ci);
        assert(block_at(messages, mi, ci) matches Some(b) && id_of(b, true) == Some(id));
    }
    if exists|mi: int, ci: int|
        #![trigger block_at(messages, mi, ci)]
        block_at(messages, mi, ci) matches Some(b) && answers_as(b, id) {
        let (mi, ci) = choose|mi: int, ci: int|
            #![trigger block_at(messages, mi, ci)]
            block_at(messages, mi, ci) matches Some(b) && answers_as(b, id);
        assert(block_at(messages, mi, ci) matches Some(b) && id_of(b, true) == Some(id));
    }
    if use_positions(messages).contains_key(id) {
        let (mi, ci) = use_positions(messages)[id];
        assert(block_at(messages, mi, ci) matches Some(b) && calls_as(b, id));
    }
    if called(messages, id) {
        let (mi, ci) = choose|mi: int, ci: int|
            #![trigger block_at(messages, mi, ci)]
            block_at(messages, mi, ci) matches Some(b) && calls_as(b, id);
        assert(block_at(messages, mi, ci) matches Some(b) && id_of(b, false) == Some(id));
    }
}

/// The call that a result belongs to is the last that has the id that the result names; where the
/// result names none, it belongs to none.
pub proof fn law_paired_use(messages: Seq<JsonView>, block: JsonView, id: Seq<char>, call: JsonView)
    ensures
        block.get("tool_use_id"@) == Some(JsonView::String(id)) ==> (paired_use(messages, block)
            == Some(call) <==> exists|mi: int, ci: int| #[trigger]
            call_at(messages, id, mi, ci) && block_at(messages, mi, ci) == Some(call)),
        !(block.get("tool_use_id"@) matches Some(JsonView::String(_))) ==> paired_use(
            messages,
            block,
        ) is None,
{
    if block.get_str("tool_use_id"@) == Some(id) {
        if paired_use(messages, block) == Some(call) {
            let (mi, ci) = use_positions(messages)[id];
            law_stands_for(messages, id, mi, ci);
            assert(call_at(messages, id, mi, ci));
        }
        if exists|mi: int, ci: int| #[trigger]
            call_at(messages, id, mi, ci) && block_at(messages, mi, ci) == Some(call) {
            let (mi, ci) = choose|mi: int, ci: int| #[trigger]
                call_at(messages, id, mi, ci) && block_at(messages, mi, ci) == Some(call);
            law_stands_for(messages, id, mi, ci);
        }
    }
}

proof fn lemma_count_in(blocks: Seq<JsonView>, mi: int, rule: Rule)
    ensures
        count_blocks(blocks, mi, rule) == sites_in(
            blocks,
            mi,
            |a: int, b: int, x: JsonView| rule(a, b, x) is Some,
        ).len(),
    decreases blocks.len(),
{
    if blocks.len() > 0 {
        lemma_count_in(blocks.drop_last(), mi, rule);
    }
}

/// What is counted as changed is each block that the rule changes, once.
pub proof fn law_count_changes(messages: Seq<JsonView>, rule: Rule)
    ensures
        count_changes(messages, rule) == sites(
            messages,
            |a: int, b: int, x: JsonView| rule(a, b, x) is Some,
        ).len(),
    decreases messages.len(),
{
    if messages.len() > 0 {
        law_count_changes(messages.drop_last(), rule);
        lemma_count_in(blocks_of(messages[messages.len() - 1]), messages.len() - 1, rule);
    }
}

} // verus!
