//! Block-by-block changes to a transcript.
//!
//! A strategy says of each content block what becomes of it. Here stands what that makes of the
//! whole transcript, and what no such change can do.

use crate::json::{lemma_views, views, Json, JsonView};
use crate::pairing::{
    block_at, blocks_of, enter_blocks, has_type, id_of, paired, positions, result_id, use_id,
    use_positions,
};
use crate::size::{lemma_items_no_larger, lemma_with_no_larger, size};
use vstd::prelude::*;

verus! {

/// What becomes of the block at a position; none where it stays as it is.
pub type Rule = spec_fn(int, int, JsonView) -> Option<JsonView>;

/// A block after the change.
pub open spec fn rewrite_block(block: JsonView, mi: int, ci: int, rule: Rule) -> JsonView {
    match rule(mi, ci, block) {
        Some(new) => new,
        None => block,
    }
}

/// The blocks of message `mi` after the change.
pub open spec fn rewrite_blocks(blocks: Seq<JsonView>, mi: int, rule: Rule) -> Seq<JsonView> {
    Seq::new(blocks.len(), |ci: int| rewrite_block(blocks[ci], mi, ci, rule))
}

/// Message `mi` after the change.
pub open spec fn rewrite_message(msg: JsonView, mi: int, rule: Rule) -> JsonView {
    match msg.get_array("content"@) {
        Some(blocks) => msg.with("content"@, JsonView::Array(rewrite_blocks(blocks, mi, rule))),
        None => msg,
    }
}

/// The transcript after the change.
pub open spec fn rewrite(messages: Seq<JsonView>, rule: Rule) -> Seq<JsonView> {
    Seq::new(messages.len(), |mi: int| rewrite_message(messages[mi], mi, rule))
}

/// How many of the blocks of message `mi` the rule changes.
pub open spec fn count_blocks(blocks: Seq<JsonView>, mi: int, rule: Rule) -> nat
    decreases blocks.len(),
{
    if blocks.len() == 0 {
        0
    } else {
        let ci = blocks.len() - 1;
        count_blocks(blocks.drop_last(), mi, rule) + if rule(mi, ci, blocks[ci]) is Some {
            1nat
        } else {
            0nat
        }
    }
}

/// How many blocks of the transcript the rule changes.
pub open spec fn count_changes(messages: Seq<JsonView>, rule: Rule) -> nat
    decreases messages.len(),
{
    if messages.len() == 0 {
        0
    } else {
        let mi = messages.len() - 1;
        count_changes(messages.drop_last(), rule) + count_blocks(blocks_of(messages[mi]), mi, rule)
    }
}

/// A count as the machine holds it: the largest it can hold where the count is larger still.
pub open spec fn machine(n: nat) -> usize {
    if n <= usize::MAX {
        n as usize
    } else {
        usize::MAX
    }
}

/// Whether two rules say the same of every block of a transcript.
pub open spec fn agree(messages: Seq<JsonView>, f: Rule, g: Rule) -> bool {
    forall|mi: int, ci: int|
        #![trigger block_at(messages, mi, ci)]
        match block_at(messages, mi, ci) {
            Some(block) => f(mi, ci, block) == g(mi, ci, block),
            None => true,
        }
}

proof fn lemma_count_blocks_agree(blocks: Seq<JsonView>, mi: int, f: Rule, g: Rule)
    requires
        forall|ci: int| 0 <= ci < blocks.len() ==> f(mi, ci, #[trigger] blocks[ci]) == g(mi, ci, blocks[ci]),
    ensures
        count_blocks(blocks, mi, f) == count_blocks(blocks, mi, g),
    decreases blocks.len(),
{
    if blocks.len() > 0 {
        assert forall|ci: int| 0 <= ci < blocks.drop_last().len() implies f(mi, ci, #[trigger] blocks.drop_last()[ci]) == g(mi, ci, blocks.drop_last()[ci]) by {
            assert(blocks.drop_last()[ci] == blocks[ci]);
        }
        lemma_count_blocks_agree(blocks.drop_last(), mi, f, g);
    }
}

/// Rules that say the same do the same.
pub proof fn lemma_agree(messages: Seq<JsonView>, f: Rule, g: Rule)
    requires
        agree(messages, f, g),
    ensures
        rewrite(messages, f) == rewrite(messages, g),
        count_changes(messages, f) == count_changes(messages, g),
    decreases messages.len(),
{
    assert forall|mi: int| 0 <= mi < messages.len() implies rewrite_message(messages[mi], mi, f) == rewrite_message(messages[mi], mi, g) by {
        let blocks = blocks_of(messages[mi]);
        assert forall|ci: int| 0 <= ci < blocks.len() implies rewrite_block(blocks[ci], mi, ci, f) == rewrite_block(blocks[ci], mi, ci, g) by {
            assert(block_at(messages, mi, ci) == Some(blocks[ci]));
        }
        assert(rewrite_blocks(blocks, mi, f) =~= rewrite_blocks(blocks, mi, g));
    }
    assert(rewrite(messages, f) =~= rewrite(messages, g));
    if messages.len() > 0 {
        let init = messages.drop_last();
        let mi = messages.len() - 1;
        let blocks = blocks_of(messages[mi]);
        assert forall|m: int, ci: int| #![trigger block_at(init, m, ci)] block_at(init, m, ci) is Some implies f(m, ci, block_at(init, m, ci)->0) == g(m, ci, block_at(init, m, ci)->0) by {
            assert(block_at(init, m, ci) == block_at(messages, m, ci));
        }
        lemma_agree(init, f, g);
        assert forall|ci: int| 0 <= ci < blocks.len() implies f(mi, ci, #[trigger] blocks[ci]) == g(mi, ci, blocks[ci]) by {
            assert(block_at(messages, mi, ci) == Some(blocks[ci]));
        }
        lemma_count_blocks_agree(blocks, mi, f, g);
    }
}

/// What an optional value is.
pub open spec fn opt_json(v: Option<Json>) -> Option<JsonView> {
    match v {
        Some(x) => Some(x@),
        None => None,
    }
}

/// A rule that can be asked.
pub trait BlockRule {
    /// What the rule rests on.
    spec fn ready(&self) -> bool;

    /// What becomes of a block of the transcript.
    spec fn rule(&self, mi: int, ci: int, block: JsonView) -> Option<JsonView>;

    /// Says what becomes of a block.
    fn decide(&self, mi: usize, ci: usize, block: &Json) -> (r: Option<Json>)
        requires
            self.ready(),
        ensures
            opt_json(r) == self.rule(mi as int, ci as int, block@),
    ;
}

/// The new blocks of a transcript: one row for each message, one entry for each block.
pub struct Plan {
    rows: Vec<Vec<Option<Json>>>,
    count: usize,
}

spec fn row_says(row: Seq<Option<Json>>, blocks: Seq<JsonView>, mi: int, rule: Rule) -> bool {
    &&& row.len() == blocks.len()
    &&& forall|ci: int| 0 <= ci < row.len() ==> opt_json(#[trigger] row[ci]) == rule(mi, ci, blocks[ci])
}

impl Plan {
    /// Whether the plan does to a transcript what a rule says.
    pub closed spec fn says(&self, messages: Seq<JsonView>, rule: Rule) -> bool {
        &&& self.rows@.len() == messages.len()
        &&& forall|mi: int|
            0 <= mi < messages.len() ==> row_says(
                (#[trigger] self.rows@[mi])@,
                blocks_of(messages[mi]),
                mi,
                rule,
            )
        &&& self.count == machine(count_changes(messages, rule))
    }
}

/// Works out the new blocks of one message.
fn plan_row<R: BlockRule>(content: &Vec<Json>, mi: usize, rule: &R) -> (r: (
    Vec<Option<Json>>,
    usize,
))
    requires
        rule.ready(),
    ensures
        row_says(r.0@, views(content@), mi as int, |mi: int, ci: int, b: JsonView| rule.rule(mi, ci, b)),
        r.1 == machine(
            count_blocks(
                views(content@),
                mi as int,
                |mi: int, ci: int, b: JsonView| rule.rule(mi, ci, b),
            ),
        ),
{
    let ghost f = |mi: int, ci: int, b: JsonView| rule.rule(mi, ci, b);
    let ghost blocks = views(content@);
    let mut row: Vec<Option<Json>> = Vec::new();
    let mut count: usize = 0;
    let mut ci: usize = 0;
    while ci < content.len()
        invariant
            ci <= content@.len(),
            blocks == views(content@),
            f == (|mi: int, ci: int, b: JsonView| rule.rule(mi, ci, b)),
            rule.ready(),
            row@.len() == ci,
            forall|j: int| 0 <= j < ci ==> opt_json(#[trigger] row@[j]) == f(mi as int, j, blocks[j]),
            count == machine(count_blocks(blocks.take(ci as int), mi as int, f)),
        decreases content@.len() - ci,
    {
        proof {
            lemma_views(content@);
            assert(blocks.take(ci + 1).drop_last() =~= blocks.take(ci as int));
            assert(blocks.take(ci + 1)[ci as int] == blocks[ci as int]);
        }
        let new = rule.decide(mi, ci, &content[ci]);
        if new.is_some() {
            count = count.saturating_add(1);
        }
        row.push(new);
        ci = ci + 1;
    }
    assert(blocks.take(ci as int) =~= blocks);
    (row, count)
}

/// Works out what a rule makes of a transcript.
pub fn plan<R: BlockRule>(messages: &Vec<Json>, rule: &R) -> (r: Plan)
    requires
        rule.ready(),
    ensures
        r.says(views(messages@), |mi: int, ci: int, b: JsonView| rule.rule(mi, ci, b)),
{
    let ghost f = |mi: int, ci: int, b: JsonView| rule.rule(mi, ci, b);
    let ghost all = views(messages@);
    let mut rows: Vec<Vec<Option<Json>>> = Vec::new();
    let mut count: usize = 0;
    let mut mi: usize = 0;
    while mi < messages.len()
        invariant
            mi <= messages@.len(),
            all == views(messages@),
            f == (|mi: int, ci: int, b: JsonView| rule.rule(mi, ci, b)),
            rule.ready(),
            rows@.len() == mi,
            forall|m: int| 0 <= m < mi ==> row_says((#[trigger] rows@[m])@, blocks_of(all[m]), m, f),
            count == machine(count_changes(all.take(mi as int), f)),
        decreases messages@.len() - mi,
    {
        proof {
            lemma_views(messages@);
            assert(all.take(mi + 1).drop_last() =~= all.take(mi as int));
            assert(all.take(mi + 1)[mi as int] == all[mi as int]);
        }
        match messages[mi].get_array("content") {
            Some(content) => {
                let (row, n) = plan_row(content, mi, rule);
                rows.push(row);
                count = count.saturating_add(n);
            },
            None => {
                assert(blocks_of(all[mi as int]) =~= Seq::empty());
                rows.push(Vec::new());
            },
        }
        mi = mi + 1;
    }
    assert(all.take(mi as int) =~= all);
    Plan { rows, count }
}

/// Puts the new blocks of one message in place.
fn carry_out_row(
    content: &mut Vec<Json>,
    row: Vec<Option<Json>>,
    Ghost(mi): Ghost<int>,
    Ghost(rule): Ghost<Rule>,
)
    requires
        row_says(row@, views(old(content)@), mi, rule),
    ensures
        views(final(content)@) == rewrite_blocks(views(old(content)@), mi, rule),
{
    let ghost blocks = views(content@);
    let ghost all = row@;
    let ghost n = content@.len() as int;
    let mut row = row;
    proof {
        lemma_views(content@);
    }
    while row.len() > 0
        invariant
            content@.len() == n,
            blocks.len() == n,
            row_says(all, blocks, mi, rule),
            row@.len() <= n,
            row@ == all.take(row@.len() as int),
            forall|j: int| 0 <= j < row@.len() ==> (#[trigger] content@[j])@ == blocks[j],
            forall|j: int|
                row@.len() <= j < n ==> (#[trigger] content@[j])@ == rewrite_block(
                    blocks[j],
                    mi,
                    j,
                    rule,
                ),
        decreases row@.len(),
    {
        let ci: usize = row.len() - 1;
        let entry = row.pop();
        assert(row@ =~= all.take(ci as int));
        assert(entry == Some(all[ci as int]));
        if let Some(Some(new)) = entry {
            content[ci] = new;
        }
    }
    proof {
        lemma_views(content@);
        assert(views(content@) =~= rewrite_blocks(blocks, mi, rule));
    }
}

/// Puts the new blocks of one message in place.
fn carry_out_message(
    msg: &mut Json,
    row: Vec<Option<Json>>,
    Ghost(mi): Ghost<int>,
    Ghost(rule): Ghost<Rule>,
)
    requires
        row_says(row@, blocks_of(old(msg)@), mi, rule),
    ensures
        final(msg)@ == rewrite_message(old(msg)@, mi, rule),
{
    proof {
        if let JsonView::Object(m) = msg@ {
            if m.contains_key("content"@) {
                assert(m.insert("content"@, m["content"@]) =~= m);
            }
        }
    }
    match msg {
        Json::Object(m) => match m.get_mut("content") {
            Some(content) => match content {
                Json::Array(blocks) => carry_out_row(blocks, row, Ghost(mi), Ghost(rule)),
                _ => {},
            },
            None => {},
        },
        _ => {},
    }
}

impl Plan {
    /// How many blocks the plan changes.
    pub fn count_of(&self, Ghost(messages): Ghost<Seq<JsonView>>, Ghost(rule): Ghost<Rule>) -> (r: usize)
        requires
            self.says(messages, rule),
        ensures
            r == machine(count_changes(messages, rule)),
    {
        self.count
    }

    /// Changes a transcript as planned and says how many blocks were changed.
    pub fn carry_out(self, messages: &mut Vec<Json>, Ghost(rule): Ghost<Rule>) -> (r: usize)
        requires
            self.says(views(old(messages)@), rule),
        ensures
            views(final(messages)@) == rewrite(views(old(messages)@), rule),
            r == machine(count_changes(views(old(messages)@), rule)),
    {
        let ghost all = views(messages@);
        let ghost n = messages@.len() as int;
        let count: usize = self.count;
        let mut rows = self.rows;
        proof {
            lemma_views(messages@);
        }
        while rows.len() > 0
            invariant
                messages@.len() == n,
                all.len() == n,
                rows@.len() <= n,
                forall|m: int|
                    0 <= m < rows@.len() ==> row_says((#[trigger] rows@[m])@, blocks_of(all[m]), m, rule),
                forall|m: int| 0 <= m < rows@.len() ==> (#[trigger] messages@[m])@ == all[m],
                forall|m: int|
                    rows@.len() <= m < n ==> (#[trigger] messages@[m])@ == rewrite_message(
                        all[m],
                        m,
                        rule,
                    ),
            decreases rows@.len(),
        {
            let mi: usize = rows.len() - 1;
            let ghost last = rows@[mi as int];
            let row = rows.pop();
            match row {
                Some(row) => {
                    assert(row == last);
                    carry_out_message(&mut messages[mi], row, Ghost(mi as int), Ghost(rule));
                },
                None => {},
            }
        }
        proof {
            lemma_views(messages@);
            assert(views(messages@) =~= rewrite(all, rule));
        }
        count
    }
}

proof fn lemma_count_blocks_zero(blocks: Seq<JsonView>, mi: int, rule: Rule)
    requires
        count_blocks(blocks, mi, rule) == 0,
    ensures
        rewrite_blocks(blocks, mi, rule) == blocks,
    decreases blocks.len(),
{
    if blocks.len() > 0 {
        let init = blocks.drop_last();
        lemma_count_blocks_zero(init, mi, rule);
        assert forall|ci: int| 0 <= ci < blocks.len() implies rewrite_blocks(blocks, mi, rule)[ci] == blocks[ci] by {
            if ci < init.len() {
                assert(rewrite_blocks(init, mi, rule)[ci] == init[ci]);
            }
        }
    }
    assert(rewrite_blocks(blocks, mi, rule) =~= blocks);
}

/// Where no change is counted, nothing has changed.
pub proof fn law_no_change(messages: Seq<JsonView>, rule: Rule)
    requires
        count_changes(messages, rule) == 0,
    ensures
        rewrite(messages, rule) == messages,
    decreases messages.len(),
{
    if messages.len() > 0 {
        let init = messages.drop_last();
        let mi = messages.len() - 1;
        law_no_change(init, rule);
        lemma_count_blocks_zero(blocks_of(messages[mi]), mi, rule);
        assert forall|m: int| 0 <= m < messages.len() implies rewrite(messages, rule)[m] == messages[m] by {
            if m < mi {
                assert(rewrite(init, rule)[m] == init[m]);
            } else {
                lemma_with_same(messages[mi]);
            }
        }
    }
    assert(rewrite(messages, rule) =~= messages);
}

proof fn lemma_no_count_blocks(blocks: Seq<JsonView>, mi: int, rule: Rule, ci: int)
    requires
        count_blocks(blocks, mi, rule) == 0,
        0 <= ci < blocks.len(),
    ensures
        rule(mi, ci, blocks[ci]) is None,
    decreases blocks.len(),
{
    if ci < blocks.len() - 1 {
        lemma_no_count_blocks(blocks.drop_last(), mi, rule, ci);
        assert(blocks.drop_last()[ci] == blocks[ci]);
    }
}

/// Where no change is counted, the rule changes no block.
pub proof fn lemma_no_count(messages: Seq<JsonView>, rule: Rule)
    requires
        count_changes(messages, rule) == 0,
    ensures
        forall|mi: int, ci: int|
            #![trigger block_at(messages, mi, ci)]
            match block_at(messages, mi, ci) {
                Some(b) => rule(mi, ci, b) is None,
                None => true,
            },
    decreases messages.len(),
{
    if messages.len() > 0 {
        let init = messages.drop_last();
        let last = messages.len() - 1;
        lemma_no_count(init, rule);
        assert forall|mi: int, ci: int|
            #![trigger block_at(messages, mi, ci)]
            block_at(messages, mi, ci) is Some implies rule(mi, ci, block_at(messages, mi, ci)->0) is None by {
            if mi == last {
                lemma_no_count_blocks(blocks_of(messages[last]), last, rule, ci);
            } else {
                assert(block_at(init, mi, ci) == block_at(messages, mi, ci));
            }
        }
    }
}

proof fn lemma_none_blocks(blocks: Seq<JsonView>, mi: int, rule: Rule)
    requires
        forall|mi: int, ci: int, b: JsonView| #[trigger] rule(mi, ci, b) is None,
    ensures
        count_blocks(blocks, mi, rule) == 0,
    decreases blocks.len(),
{
    if blocks.len() > 0 {
        lemma_none_blocks(blocks.drop_last(), mi, rule);
    }
}

/// A rule that changes nothing counts nothing.
pub proof fn lemma_none(messages: Seq<JsonView>, rule: Rule)
    requires
        forall|mi: int, ci: int, b: JsonView| #[trigger] rule(mi, ci, b) is None,
    ensures
        count_changes(messages, rule) == 0,
    decreases messages.len(),
{
    if messages.len() > 0 {
        lemma_none(messages.drop_last(), rule);
        lemma_none_blocks(blocks_of(messages.last()), messages.len() - 1, rule);
    }
}

/// To set the content of a message to what it is changes nothing.
proof fn lemma_with_same(msg: JsonView)
    ensures
        msg.get("content"@) matches Some(v) ==> msg.with("content"@, v) == msg,
{
    if let JsonView::Object(m) = msg {
        if m.contains_key("content"@) {
            assert(m.insert("content"@, m["content"@]) =~= m);
        }
    }
}

/// A change leaves the number of messages, the number of blocks of each, and every member of a
/// message but its content as they are.
pub proof fn law_shape_kept(messages: Seq<JsonView>, rule: Rule, mi: int)
    requires
        0 <= mi < messages.len(),
    ensures
        rewrite(messages, rule).len() == messages.len(),
        blocks_of(rewrite(messages, rule)[mi]).len() == blocks_of(messages[mi]).len(),
        forall|key: Seq<char>|
            key != "content"@ ==> #[trigger] rewrite(messages, rule)[mi].get(key)
                == messages[mi].get(key),
{
}

/// Whether a rule leaves the ids of calls and results as they are.
pub open spec fn keeps_ids(rule: Rule) -> bool {
    forall|mi: int, ci: int, b: JsonView|
        #![trigger rule(mi, ci, b)]
        match rule(mi, ci, b) {
            Some(new) => use_id(new) == use_id(b) && result_id(new) == result_id(b),
            None => true,
        }
}

proof fn lemma_enter_kept(
    table: Map<Seq<char>, (int, int)>,
    blocks: Seq<JsonView>,
    mi: int,
    results: bool,
    rule: Rule,
)
    requires
        keeps_ids(rule),
    ensures
        enter_blocks(table, rewrite_blocks(blocks, mi, rule), mi, results) == enter_blocks(
            table,
            blocks,
            mi,
            results,
        ),
    decreases blocks.len(),
{
    if blocks.len() > 0 {
        let init = blocks.drop_last();
        let new = rewrite_blocks(blocks, mi, rule);
        lemma_enter_kept(table, init, mi, results, rule);
        assert(new.drop_last() =~= rewrite_blocks(init, mi, rule));
        let ci = blocks.len() - 1;
        assert(new.last() == rewrite_block(blocks[ci], mi, ci, rule));
        assert(id_of(new.last(), results) == id_of(blocks.last(), results));
    } else {
        assert(rewrite_blocks(blocks, mi, rule) =~= blocks);
    }
}

proof fn lemma_positions_kept(messages: Seq<JsonView>, rule: Rule, results: bool)
    requires
        keeps_ids(rule),
    ensures
        positions(rewrite(messages, rule), results) == positions(messages, results),
    decreases messages.len(),
{
    let new = rewrite(messages, rule);
    if messages.len() > 0 {
        let init = messages.drop_last();
        let mi = messages.len() - 1;
        lemma_positions_kept(init, rule, results);
        assert(new.drop_last() =~= rewrite(init, rule));
        let blocks = blocks_of(messages[mi]);
        lemma_enter_kept(positions(init, results), blocks, mi, results, rule);
        assert(blocks_of(new.last()) =~= rewrite_blocks(blocks, mi, rule));
    } else {
        assert(new =~= messages);
    }
}

/// A change that leaves ids alone leaves calls and results where they are, and cannot part a
/// result from its call.
pub proof fn law_pairing_kept(messages: Seq<JsonView>, rule: Rule)
    requires
        keeps_ids(rule),
    ensures
        positions(rewrite(messages, rule), false) == positions(messages, false),
        positions(rewrite(messages, rule), true) == positions(messages, true),
        paired(rewrite(messages, rule)) <==> paired(messages),
{
    let new = rewrite(messages, rule);
    lemma_positions_kept(messages, rule, false);
    lemma_positions_kept(messages, rule, true);
    assert forall|mi: int, ci: int|
        match (block_at(messages, mi, ci), #[trigger] block_at(new, mi, ci)) {
            (Some(a), Some(b)) => result_id(a) == result_id(b),
            (None, None) => true,
            _ => false,
        } by {
        if 0 <= mi < messages.len() {
            assert(blocks_of(new[mi]) =~= rewrite_blocks(blocks_of(messages[mi]), mi, rule));
            if 0 <= ci < blocks_of(messages[mi]).len() {
                let b = blocks_of(messages[mi])[ci];
                assert(blocks_of(new[mi])[ci] == rewrite_block(b, mi, ci, rule));
            }
        }
    }
    if paired(messages) {
        assert forall|mi: int, ci: int| #![trigger block_at(new, mi, ci)]
            (block_at(new, mi, ci) matches Some(b) && result_id(b) matches Some(id)) implies use_positions(new).contains_key(result_id(block_at(new, mi, ci)->0)->0) by {
            assert(block_at(messages, mi, ci) is Some);
        }
    }
    if paired(new) {
        assert forall|mi: int, ci: int| #![trigger block_at(messages, mi, ci)]
            (block_at(messages, mi, ci) matches Some(b) && result_id(b) matches Some(id)) implies use_positions(messages).contains_key(result_id(block_at(messages, mi, ci)->0)->0) by {
            assert(block_at(new, mi, ci) is Some);
        }
    }
}

/// To set the content or the input of a block leaves its type and its ids as they are.
pub proof fn lemma_set_keeps_ids(block: JsonView, key: Seq<char>, value: JsonView)
    requires
        key == "content"@ || key == "input"@,
    ensures
        use_id(block.with(key, value)) == use_id(block),
        result_id(block.with(key, value)) == result_id(block),
        block.with(key, value).get("type"@) == block.get("type"@),
        block.with(key, value).get("name"@) == block.get("name"@),
        block.with(key, value).get("id"@) == block.get("id"@),
        block.with(key, value).get("is_error"@) == block.get("is_error"@),
{
    reveal_strlit("content");
    reveal_strlit("input");
    reveal_strlit("type");
    reveal_strlit("name");
    reveal_strlit("id");
    reveal_strlit("tool_use_id");
    reveal_strlit("is_error");
    assert("content"@.len() == 7 && "input"@.len() == 5);
    assert("type"@.len() == 4 && "name"@.len() == 4 && "id"@.len() == 2 && "tool_use_id"@.len() == 11
        && "is_error"@.len() == 8);
}

/// Whether all that a rule does is to set one member of blocks of one type.
pub open spec fn only_sets(rule: Rule, kind: Seq<char>, key: Seq<char>) -> bool {
    forall|mi: int, ci: int, b: JsonView|
        #![trigger rule(mi, ci, b)]
        match rule(mi, ci, b) {
            Some(new) => has_type(b, kind) && (new.get(key) matches Some(v) && new == b.with(key, v)),
            None => true,
        }
}

/// A rule that sets nothing but the content or the input of blocks leaves ids alone.
pub proof fn lemma_only_sets_keeps_ids(rule: Rule, kind: Seq<char>, key: Seq<char>)
    requires
        only_sets(rule, kind, key),
        key == "content"@ || key == "input"@,
    ensures
        keeps_ids(rule),
{
    assert forall|mi: int, ci: int, b: JsonView|
        #![trigger rule(mi, ci, b)]
        rule(mi, ci, b) is Some implies use_id(rule(mi, ci, b)->0) == use_id(b) && result_id(
        rule(mi, ci, b)->0,
    ) == result_id(b) by {
        let new = rule(mi, ci, b)->0;
        lemma_set_keeps_ids(b, key, new.get(key)->0);
    }
}

/// The block at a position after a change.
pub proof fn lemma_block_at(messages: Seq<JsonView>, rule: Rule, mi: int, ci: int)
    ensures
        block_at(rewrite(messages, rule), mi, ci) == match block_at(messages, mi, ci) {
            Some(b) => Some(rewrite_block(b, mi, ci, rule)),
            None => None,
        },
{
    let new = rewrite(messages, rule);
    if 0 <= mi < messages.len() {
        assert(blocks_of(new[mi]) =~= rewrite_blocks(blocks_of(messages[mi]), mi, rule));
    }
}

/// Where a rule leaves every block alone, nothing changes.
pub proof fn lemma_settled(messages: Seq<JsonView>, rule: Rule)
    requires
        forall|mi: int, ci: int|
            #![trigger block_at(messages, mi, ci)]
            match block_at(messages, mi, ci) {
                Some(b) => rule(mi, ci, b) is None,
                None => true,
            },
    ensures
        rewrite(messages, rule) == messages,
        count_changes(messages, rule) == 0,
{
    let none = |mi: int, ci: int, b: JsonView| None::<JsonView>;
    assert(agree(messages, rule, none)) by {
        assert forall|mi: int, ci: int| #![trigger block_at(messages, mi, ci)]
            block_at(messages, mi, ci) is Some implies rule(mi, ci, block_at(messages, mi, ci)->0)
            == none(mi, ci, block_at(messages, mi, ci)->0) by {}
    }
    lemma_agree(messages, rule, none);
    lemma_none(messages, none);
    law_no_change(messages, rule);
}

/// A change leaves the role of a message as it is.
pub proof fn lemma_role_kept(messages: Seq<JsonView>, rule: Rule, mi: int)
    requires
        0 <= mi < messages.len(),
    ensures
        rewrite(messages, rule)[mi].get_str("role"@) == messages[mi].get_str("role"@),
{
    reveal_strlit("role");
    reveal_strlit("content");
    assert("role"@.len() == 4 && "content"@.len() == 7);
    law_shape_kept(messages, rule, mi);
    assert(rewrite(messages, rule)[mi].get("role"@) == messages[mi].get("role"@));
}

/// A rule that makes no block larger makes no transcript larger.
pub proof fn law_no_larger(messages: Seq<JsonView>, rule: Rule)
    requires
        forall|mi: int, ci: int, b: JsonView|
            (#[trigger] rule(mi, ci, b)) matches Some(new) ==> size(new) <= size(b),
    ensures
        size(JsonView::Array(rewrite(messages, rule))) <= size(JsonView::Array(messages)),
{
    let new = rewrite(messages, rule);
    assert forall|mi: int| 0 <= mi < messages.len() implies size(#[trigger] new[mi]) <= size(
        messages[mi],
    ) by {
        let msg = messages[mi];
        if let Some(blocks) = msg.get_array("content"@) {
            let after = rewrite_blocks(blocks, mi, rule);
            assert forall|ci: int| 0 <= ci < blocks.len() implies size(#[trigger] after[ci]) <= size(
                blocks[ci],
            ) by {
                assert(after[ci] == rewrite_block(blocks[ci], mi, ci, rule));
            }
            lemma_items_no_larger(blocks, after);
            lemma_with_no_larger(msg, "content"@, JsonView::Array(after));
        }
    }
    lemma_items_no_larger(messages, new);
}

} // verus!
