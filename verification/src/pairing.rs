//! Which tool result answers which tool call.

use crate::assoc::Assoc;
use crate::json::{lemma_views, views, Json, JsonView};
use vstd::prelude::*;

verus! {

/// Why a transcript is refused.
#[derive(Debug)]
pub enum PairingError {
    /// A tool result names a call that the transcript does not hold.
    OrphanResult(String),
}

/// The content blocks of a message, where its content is an array.
pub open spec fn blocks_of(msg: JsonView) -> Seq<JsonView> {
    match msg.get_array("content"@) {
        Some(blocks) => blocks,
        None => Seq::empty(),
    }
}

/// The block at a position of a transcript.
pub open spec fn block_at(messages: Seq<JsonView>, mi: int, ci: int) -> Option<JsonView> {
    if 0 <= mi < messages.len() && 0 <= ci < blocks_of(messages[mi]).len() {
        Some(blocks_of(messages[mi])[ci])
    } else {
        None
    }
}

/// Whether a block is of a type.
pub open spec fn has_type(block: JsonView, kind: Seq<char>) -> bool {
    block.get_str("type"@) == Some(kind)
}

/// The id of a tool call; none for any other block.
pub open spec fn use_id(block: JsonView) -> Option<Seq<char>> {
    if has_type(block, "tool_use"@) {
        block.get_str("id"@)
    } else {
        None
    }
}

/// The id of the call that a tool result answers; none for any other block.
pub open spec fn result_id(block: JsonView) -> Option<Seq<char>> {
    if has_type(block, "tool_result"@) {
        block.get_str("tool_use_id"@)
    } else {
        None
    }
}

/// The id that counts in one half of the index.
pub open spec fn id_of(block: JsonView, results: bool) -> Option<Seq<char>> {
    if results {
        result_id(block)
    } else {
        use_id(block)
    }
}

/// The table with the ids of some blocks of message `mi` entered in order.
pub open spec fn enter_blocks(
    table: Map<Seq<char>, (int, int)>,
    blocks: Seq<JsonView>,
    mi: int,
    results: bool,
) -> Map<Seq<char>, (int, int)>
    decreases blocks.len(),
{
    if blocks.len() == 0 {
        table
    } else {
        let before = enter_blocks(table, blocks.drop_last(), mi, results);
        match id_of(blocks.last(), results) {
            Some(id) => before.insert(id, (mi, blocks.len() - 1)),
            None => before,
        }
    }
}

/// Where each id stands: at its last position in the transcript.
pub open spec fn positions(messages: Seq<JsonView>, results: bool) -> Map<Seq<char>, (int, int)>
    decreases messages.len(),
{
    if messages.len() == 0 {
        Map::empty()
    } else {
        enter_blocks(
            positions(messages.drop_last(), results),
            blocks_of(messages.last()),
            messages.len() - 1,
            results,
        )
    }
}

/// Where the tool calls stand.
pub open spec fn use_positions(messages: Seq<JsonView>) -> Map<Seq<char>, (int, int)> {
    positions(messages, false)
}

/// Where the tool results stand.
pub open spec fn result_positions(messages: Seq<JsonView>) -> Map<Seq<char>, (int, int)> {
    positions(messages, true)
}

/// Whether every tool result answers a call of the transcript.
pub open spec fn paired(messages: Seq<JsonView>) -> bool {
    forall|mi: int, ci: int|
        #![trigger block_at(messages, mi, ci)]
        match block_at(messages, mi, ci) {
            Some(block) => match result_id(block) {
                Some(id) => use_positions(messages).contains_key(id),
                None => true,
            },
            None => true,
        }
}

proof fn lemma_enter_blocks(
    table: Map<Seq<char>, (int, int)>,
    blocks: Seq<JsonView>,
    mi: int,
    results: bool,
    id: Seq<char>,
)
    ensures
        ({
            let after = enter_blocks(table, blocks, mi, results);
            let here = exists|ci: int| 0 <= ci < blocks.len() && id_of(#[trigger] blocks[ci], results) == Some(id);
            &&& after.contains_key(id) <==> table.contains_key(id) || here
            &&& here ==> {
                &&& after[id].0 == mi
                &&& 0 <= after[id].1 < blocks.len()
                &&& id_of(blocks[after[id].1], results) == Some(id)
            }
            &&& !here && table.contains_key(id) ==> after[id] == table[id]
        }),
    decreases blocks.len(),
{
    if blocks.len() > 0 {
        let init = blocks.drop_last();
        lemma_enter_blocks(table, init, mi, results, id);
        assert forall|ci: int| 0 <= ci < init.len() implies init[ci] == blocks[ci] by {}
        if id_of(blocks.last(), results) == Some(id) {
            assert(id_of(blocks[blocks.len() - 1], results) == Some(id));
        } else if exists|ci: int| 0 <= ci < blocks.len() && id_of(#[trigger] blocks[ci], results) == Some(id) {
            let ci = choose|ci: int| 0 <= ci < blocks.len() && id_of(#[trigger] blocks[ci], results) == Some(id);
            assert(id_of(init[ci], results) == Some(id));
        } else {
            assert forall|ci: int| 0 <= ci < init.len() implies id_of(#[trigger] init[ci], results) != Some(id) by {
                assert(init[ci] == blocks[ci]);
            }
        }
    }
}

/// An id is in the table exactly where some block has it, and the table leads to such a block.
pub proof fn lemma_positions(messages: Seq<JsonView>, results: bool, id: Seq<char>)
    ensures
        positions(messages, results).contains_key(id) ==> {
            let (mi, ci) = positions(messages, results)[id];
            block_at(messages, mi, ci) matches Some(b) && id_of(b, results) == Some(id)
        },
        (exists|mi: int, ci: int|
            #![trigger block_at(messages, mi, ci)]
            block_at(messages, mi, ci) matches Some(b) && id_of(b, results) == Some(id))
            ==> positions(messages, results).contains_key(id),
    decreases messages.len(),
{
    if messages.len() > 0 {
        let init = messages.drop_last();
        let last = messages.len() - 1;
        let blocks = blocks_of(messages.last());
        lemma_positions(init, results, id);
        lemma_enter_blocks(positions(init, results), blocks, last, results, id);
        assert forall|mi: int, ci: int| mi != last implies block_at(init, mi, ci) == block_at(messages, mi, ci) by {}
        if exists|mi: int, ci: int|
            #![trigger block_at(messages, mi, ci)]
            block_at(messages, mi, ci) matches Some(b) && id_of(b, results) == Some(id) {
            let (mi, ci) = choose|mi: int, ci: int|
                #![trigger block_at(messages, mi, ci)]
                block_at(messages, mi, ci) matches Some(b) && id_of(b, results) == Some(id);
            if mi == last {
                assert(id_of(blocks[ci], results) == Some(id));
            } else {
                assert(block_at(init, mi, ci) == block_at(messages, mi, ci));
            }
        }
        if positions(messages, results).contains_key(id) {
            let (mi, ci) = positions(messages, results)[id];
            if exists|ci: int| 0 <= ci < blocks.len() && id_of(#[trigger] blocks[ci], results) == Some(id) {
            } else {
                assert(block_at(init, mi, ci) == block_at(messages, mi, ci));
            }
        }
    }
}

/// Positions as the machine holds them.
pub open spec fn as_positions(table: Map<Seq<char>, (usize, usize)>) -> Map<Seq<char>, (int, int)> {
    table.map_values(|p: (usize, usize)| (p.0 as int, p.1 as int))
}

/// Where the calls and the results of a transcript stand.
pub struct PairingIndex {
    pub uses: Assoc<(usize, usize)>,
    pub results: Assoc<(usize, usize)>,
}

impl PairingIndex {
    /// Whether this is the index of a transcript.
    pub open spec fn describes(&self, messages: Seq<JsonView>) -> bool {
        &&& as_positions(self.uses@) == use_positions(messages)
        &&& as_positions(self.results@) == result_positions(messages)
    }

    /// Whether every result that the index holds has its call there.
    pub open spec fn closed_under_use(&self) -> bool {
        forall|id: Seq<char>| #[trigger]
            self.results@.contains_key(id) ==> self.uses@.contains_key(id)
    }

    /// The index of a transcript.
    pub fn build(messages: &Vec<Json>) -> (r: PairingIndex)
        ensures
            r.describes(views(messages@)),
    {
        let ghost all = views(messages@);
        let mut uses: Assoc<(usize, usize)> = Assoc::new();
        let mut results: Assoc<(usize, usize)> = Assoc::new();
        assert(as_positions(uses@) =~= Map::empty());
        assert(as_positions(results@) =~= Map::empty());
        let mut mi: usize = 0;
        while mi < messages.len()
            invariant
                mi <= messages@.len(),
                all == views(messages@),
                as_positions(uses@) == use_positions(all.take(mi as int)),
                as_positions(results@) == result_positions(all.take(mi as int)),
            decreases messages@.len() - mi,
        {
            let ghost init = all.take(mi as int);
            let ghost blocks = blocks_of(all[mi as int]);
            proof {
                lemma_views(messages@);
                assert(all.take(mi + 1).drop_last() =~= init);
                assert(all.take(mi + 1).last() == all[mi as int]);
            }
            if let Some(content) = messages[mi].get_array("content") {
                let mut ci: usize = 0;
                assert(blocks.take(0) =~= Seq::empty());
                while ci < content.len()
                    invariant
                        ci <= content@.len(),
                        mi < messages@.len(),
                        blocks == views(content@),
                        as_positions(uses@) == enter_blocks(
                            use_positions(init),
                            blocks.take(ci as int),
                            mi as int,
                            false,
                        ),
                        as_positions(results@) == enter_blocks(
                            result_positions(init),
                            blocks.take(ci as int),
                            mi as int,
                            true,
                        ),
                    decreases content@.len() - ci,
                {
                    let ghost uses_before = uses@;
                    let ghost results_before = results@;
                    let block = &content[ci];
                    proof {
                        lemma_views(content@);
                        assert(blocks.take(ci + 1).drop_last() =~= blocks.take(ci as int));
                        assert(blocks.take(ci + 1).last() == block@);
                    }
                    if block.member_is("type", "tool_use") {
                        if let Some(id) = block.get_str("id") {
                            uses.insert(id.to_owned(), (mi, ci));
                            assert(as_positions(uses@) =~= as_positions(uses_before).insert(
                                id@,
                                (mi as int, ci as int),
                            ));
                        }
                    }
                    if block.member_is("type", "tool_result") {
                        if let Some(id) = block.get_str("tool_use_id") {
                            results.insert(id.to_owned(), (mi, ci));
                            assert(as_positions(results@) =~= as_positions(results_before).insert(
                                id@,
                                (mi as int, ci as int),
                            ));
                        }
                    }
                    ci = ci + 1;
                }
                assert(blocks.take(ci as int) =~= blocks);
            } else {
                assert(blocks =~= Seq::empty());
            }
            mi = mi + 1;
        }
        assert(all.take(mi as int) =~= all);
        PairingIndex { uses, results }
    }

    /// Refuses a transcript in which a result has no call.
    pub fn validate(&self) -> (r: Result<(), PairingError>)
        ensures
            match r {
                Ok(()) => self.closed_under_use(),
                Err(PairingError::OrphanResult(id)) => self.results@.contains_key(id@)
                    && !self.uses@.contains_key(id@),
            },
    {
        match self.results.first_absent(&self.uses) {
            Some(id) => Err(PairingError::OrphanResult(id)),
            None => Ok(()),
        }
    }
}

/// The call that a result block answers.
pub open spec fn paired_use(messages: Seq<JsonView>, block: JsonView) -> Option<JsonView> {
    match block.get_str("tool_use_id"@) {
        Some(id) => if use_positions(messages).contains_key(id) {
            let (mi, ci) = use_positions(messages)[id];
            block_at(messages, mi, ci)
        } else {
            None
        },
        None => None,
    }
}

/// The id that the call at a position names.
pub open spec fn id_at(messages: Seq<JsonView>, p: (int, int)) -> Option<Seq<char>> {
    match block_at(messages, p.0, p.1) {
        Some(b) => b.get_str("id"@),
        None => None,
    }
}

/// The id of the call at a position, where it is the last one with that id.
pub open spec fn last_use(
    messages: Seq<JsonView>,
    mi: int,
    ci: int,
    block: JsonView,
) -> Option<Seq<char>> {
    match use_id(block) {
        Some(id) => if use_positions(messages).contains_key(id) && use_positions(messages)[id] == (
            mi,
            ci,
        ) {
            Some(id)
        } else {
            None
        },
        None => None,
    }
}

/// The id that the result at a position stands for. Where several results name one id, only the
/// last stands for it.
pub open spec fn stands_for(
    messages: Seq<JsonView>,
    mi: int,
    ci: int,
    block: JsonView,
) -> Option<Seq<char>> {
    match result_id(block) {
        Some(id) => if result_positions(messages).contains_key(id) && result_positions(messages)[id]
            == (mi, ci) {
            Some(id)
        } else {
            None
        },
        None => None,
    }
}

/// A block of a transcript.
pub fn get_block(messages: &Vec<Json>, mi: usize, ci: usize) -> (r: Option<&Json>)
    ensures
        crate::json::opt_view(r) == block_at(views(messages@), mi as int, ci as int),
{
    proof {
        lemma_views(messages@);
    }
    if mi < messages.len() {
        if let Some(content) = messages[mi].get_array("content") {
            proof {
                lemma_views(content@);
            }
            if ci < content.len() {
                return Some(&content[ci]);
            }
        }
    }
    None
}

impl PairingIndex {
    /// The call that a result block answers.
    pub fn use_of<'a>(&self, messages: &'a Vec<Json>, block: &Json) -> (r: Option<&'a Json>)
        requires
            self.describes(views(messages@)),
        ensures
            crate::json::opt_view(r) == paired_use(views(messages@), block@),
    {
        match block.get_str("tool_use_id") {
            Some(id) => {
                assert(as_positions(self.uses@).contains_key(id@) <==> self.uses@.contains_key(id@));
                match self.uses.get(id) {
                    Some(p) => get_block(messages, p.0, p.1),
                    None => None,
                }
            },
            None => None,
        }
    }
}

impl PairingIndex {
    /// Where the call with an id stands.
    pub fn use_at(&self, id: &str) -> (r: Option<(usize, usize)>)
        ensures
            match r {
                Some(p) => as_positions(self.uses@).contains_key(id@) && as_positions(
                    self.uses@,
                )[id@] == (p.0 as int, p.1 as int),
                None => !as_positions(self.uses@).contains_key(id@),
            },
    {
        assert(as_positions(self.uses@).contains_key(id@) <==> self.uses@.contains_key(id@));
        match self.uses.get(id) {
            Some(p) => Some(*p),
            None => None,
        }
    }

    /// Where the result for the call with an id stands.
    pub fn result_at(&self, id: &str) -> (r: Option<(usize, usize)>)
        ensures
            match r {
                Some(p) => as_positions(self.results@).contains_key(id@) && as_positions(
                    self.results@,
                )[id@] == (p.0 as int, p.1 as int),
                None => !as_positions(self.results@).contains_key(id@),
            },
    {
        assert(as_positions(self.results@).contains_key(id@) <==> self.results@.contains_key(id@));
        match self.results.get(id) {
            Some(p) => Some(*p),
            None => None,
        }
    }

    /// The id of the call at a position, where it is the last one with that id.
    pub fn last_use_of<'a>(
        &self,
        mi: usize,
        ci: usize,
        block: &'a Json,
        Ghost(messages): Ghost<Seq<JsonView>>,
    ) -> (r: Option<&'a str>)
        requires
            self.describes(messages),
        ensures
            crate::json::opt_text(r) == last_use(messages, mi as int, ci as int, block@),
    {
        if !block.member_is("type", "tool_use") {
            return None;
        }
        match block.get_str("id") {
            Some(id) => match self.use_at(id) {
                Some(p) => if p.0 == mi && p.1 == ci {
                    Some(id)
                } else {
                    None
                },
                None => None,
            },
            None => None,
        }
    }

    /// The id that the result at a position stands for.
    pub fn id_for<'a>(
        &self,
        mi: usize,
        ci: usize,
        block: &'a Json,
        Ghost(messages): Ghost<Seq<JsonView>>,
    ) -> (r: Option<&'a str>)
        requires
            self.describes(messages),
        ensures
            crate::json::opt_text(r) == stands_for(messages, mi as int, ci as int, block@),
    {
        if !block.member_is("type", "tool_result") {
            return None;
        }
        match block.get_str("tool_use_id") {
            Some(id) => match self.result_at(id) {
                Some(p) => if p.0 == mi && p.1 == ci {
                    Some(id)
                } else {
                    None
                },
                None => None,
            },
            None => None,
        }
    }
}

/// Whether an error is what a transcript is refused with: it names a result without its call.
pub open spec fn refused(messages: Seq<JsonView>, e: PairingError) -> bool {
    match e {
        PairingError::OrphanResult(id) => !paired(messages) && result_positions(
            messages,
        ).contains_key(id@) && !use_positions(messages).contains_key(id@),
    }
}

/// The index of a transcript passes exactly where the transcript is paired, and has the ids of the
/// transcript.
pub proof fn lemma_describes_paired(index: PairingIndex, messages: Seq<JsonView>)
    requires
        index.describes(messages),
    ensures
        index.closed_under_use() <==> paired(messages),
        forall|id: Seq<char>| #[trigger]
            index.results@.contains_key(id) <==> result_positions(messages).contains_key(id),
        forall|id: Seq<char>| #[trigger]
            index.uses@.contains_key(id) <==> use_positions(messages).contains_key(id),
{
    let results = result_positions(messages);
    let uses = use_positions(messages);
    assert forall|id: Seq<char>| #[trigger]
        index.results@.contains_key(id) <==> results.contains_key(id) by {
        assert(as_positions(index.results@).contains_key(id) <==> index.results@.contains_key(id));
    }
    assert forall|id: Seq<char>| #[trigger]
        index.uses@.contains_key(id) <==> uses.contains_key(id) by {
        assert(as_positions(index.uses@).contains_key(id) <==> index.uses@.contains_key(id));
    }
    if index.closed_under_use() {
        assert forall|mi: int, ci: int|
            #![trigger block_at(messages, mi, ci)]
            (block_at(messages, mi, ci) matches Some(b) && result_id(b) matches Some(id)) implies uses.contains_key(result_id(block_at(messages, mi, ci)->0)->0) by {
            let id = result_id(block_at(messages, mi, ci)->0)->0;
            lemma_positions(messages, true, id);
            assert(results.contains_key(id));
            assert(index.results@.contains_key(id));
        }
    }
    if paired(messages) {
        assert forall|id: Seq<char>| #[trigger] index.results@.contains_key(id) implies index.uses@.contains_key(id) by {
            lemma_positions(messages, true, id);
            let (mi, ci) = results[id];
            assert(block_at(messages, mi, ci) is Some);
        }
    }
}

} // verus!
