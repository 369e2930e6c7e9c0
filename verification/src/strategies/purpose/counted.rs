//! What is counted is what changes: a rule says something of a block exactly where the block comes
//! out otherwise than it went in.

use super::{held, law_marker, law_terms};
use crate::config::{
    BloatCapConfig, CrossTurnDedupConfig, FailedInputPurgeConfig, ImageStripConfig,
    SimHashDedupConfig, StaleInputCapConfig, StaleReadsConfig,
};
use crate::json::{map_members, some_member, JsonView};
use crate::pairing::block_at;
use crate::rewrite::{count_changes, lemma_block_at, rewrite, Rule};
use crate::strategies::bloat_cap::bloat_rule;
use crate::strategies::cross_turn_dedup::{deduped, echo_rule, extend_rule, repeat_rule};
use crate::strategies::failed_input_purge::{bulk, purge_rule, purge_value, purged};
use crate::strategies::image_strip::image_rule;
use crate::strategies::laws::{lemma_marker_no_image, lemma_size_marker_small, sizes_fit};
use crate::strategies::simhash_dedup::near_rule;
use crate::strategies::stale_input_cap::{authored, authored_value, cap_rule, deed, named_file};
use crate::strategies::stale_reads::read_rule;
use vstd::prelude::*;

verus! {

/// Whether a rule says something of the block at a position exactly where that block changes.
pub open spec fn says_what_changes(messages: Seq<JsonView>, rule: Rule, mi: int, ci: int) -> bool {
    block_at(messages, mi, ci) matches Some(b) ==> (rule(mi, ci, b) is Some <==> block_at(
        rewrite(messages, rule),
        mi,
        ci,
    ) != Some(b))
}

proof fn lemma_purged_differs(input: JsonView)
    requires
        sizes_fit(input),
    ensures
        purged(input) != Some(input),
{
    let f = |v: JsonView| purge_value(v);
    if let JsonView::Object(m) = input {
        if some_member(m, f) {
            let k = choose|k: Seq<char>| #[trigger] m.contains_key(k) && f(m[k]) is Some;
            let n = bulk(m[k])->0;
            lemma_size_marker_small(n);
            assert(map_members(m, f)[k] == f(m[k])->0);
            assert(map_members(m, f)[k] != m[k]);
        }
    }
}

proof fn lemma_authored_differs(name: Seq<char>, input: JsonView)
    ensures
        authored(name, input) != Some(input),
{
    let f = |v: JsonView| authored_value(deed(name), named_file(input), v);
    if let JsonView::Object(m) = input {
        if some_member(m, f) {
            let k = choose|k: Seq<char>| #[trigger] m.contains_key(k) && f(m[k]) is Some;
            crate::strategies::laws::law_authored_shrinks(deed(name), named_file(input), m[k]);
            assert(map_members(m, f)[k] == f(m[k])->0);
            assert(map_members(m, f)[k] != m[k]);
        }
    }
}

/// The purge of failed inputs counts the blocks that it changes, as long as the machine can hold the
/// sizes of their inputs.
pub proof fn law_purge_counted(
    messages: Seq<JsonView>,
    cfg: &FailedInputPurgeConfig,
    mi: int,
    ci: int,
)
    requires
        block_at(messages, mi, ci) matches Some(b) && (b.get("input"@) matches Some(input)
            ==> sizes_fit(input)),
    ensures
        says_what_changes(messages, purge_rule(messages, cfg), mi, ci),
{
    lemma_block_at(messages, purge_rule(messages, cfg), mi, ci);
    let b = block_at(messages, mi, ci)->0;
    if let Some(input) = b.get("input"@) {
        lemma_purged_differs(input);
        if let Some(v) = purged(input) {
            assert(b.with("input"@, v).get("input"@) == Some(v));
        }
    }
}

/// The cap on stale inputs counts the blocks that it changes, as long as the machine can hold the
/// sizes of their inputs.
pub proof fn law_input_cap_counted(
    messages: Seq<JsonView>,
    cfg: &StaleInputCapConfig,
    mi: int,
    ci: int,
)
    requires
        block_at(messages, mi, ci) matches Some(b) && (b.get("input"@) matches Some(input)
            ==> sizes_fit(input)),
    ensures
        says_what_changes(messages, cap_rule(messages, cfg), mi, ci),
{
    lemma_block_at(messages, cap_rule(messages, cfg), mi, ci);
    let b = block_at(messages, mi, ci)->0;
    if let Some(input) = b.get("input"@) {
        lemma_purged_differs(input);
        if let Some(v) = purged(input) {
            assert(b.with("input"@, v).get("input"@) == Some(v));
        }
        if let Some(name) = b.get_str("name"@) {
            lemma_authored_differs(name, input);
            if let Some(v) = authored(name, input) {
                assert(b.with("input"@, v).get("input"@) == Some(v));
            }
        }
    }
}

/// The elision of stale reads, the collapse of near-duplicates, the cap on oversized results and the
/// strip of images count the blocks that they change.
pub proof fn law_results_counted(
    messages: Seq<JsonView>,
    reads: &StaleReadsConfig,
    near: &SimHashDedupConfig,
    bloat: &BloatCapConfig,
    images: &ImageStripConfig,
    mi: int,
    ci: int,
)
    ensures
        says_what_changes(messages, read_rule(messages, reads), mi, ci),
        says_what_changes(messages, near_rule(messages, near), mi, ci),
        says_what_changes(messages, bloat_rule(messages, bloat), mi, ci),
        says_what_changes(messages, image_rule(messages, images), mi, ci),
{
    lemma_block_at(messages, read_rule(messages, reads), mi, ci);
    lemma_block_at(messages, near_rule(messages, near), mi, ci);
    lemma_block_at(messages, bloat_rule(messages, bloat), mi, ci);
    lemma_block_at(messages, image_rule(messages, images), mi, ci);
    if let Some(b) = block_at(messages, mi, ci) {
        crate::strategies::laws::law_reads_shrink(messages, reads, mi, ci, b);
        crate::strategies::laws::law_near_shrinks(messages, near, mi, ci, b);
        if let Some(content) = b.get("content"@) {
            lemma_marker_no_image(images.stub@, content);
        }
    }
}

/// The steps of the deduplication count the blocks that they change, and the whole counts what each
/// does to what the one before left.
pub proof fn law_dedup_counted(messages: Seq<JsonView>, cfg: &CrossTurnDedupConfig, mi: int, ci: int)
    requires
        cfg.stub@.len() > 0,
    ensures
        says_what_changes(messages, repeat_rule(messages, cfg), mi, ci),
        says_what_changes(messages, extend_rule(messages, cfg), mi, ci),
        says_what_changes(messages, echo_rule(messages, cfg), mi, ci),
        ({
            let m1 = rewrite(messages, repeat_rule(messages, cfg));
            let m2 = rewrite(m1, extend_rule(m1, cfg));
            &&& deduped(messages, cfg).0 == rewrite(m2, echo_rule(m2, cfg))
            &&& deduped(messages, cfg).1 == count_changes(messages, repeat_rule(messages, cfg))
                + count_changes(m1, extend_rule(m1, cfg)) + count_changes(m2, echo_rule(m2, cfg))
        }),
{
    lemma_block_at(messages, repeat_rule(messages, cfg), mi, ci);
    lemma_block_at(messages, extend_rule(messages, cfg), mi, ci);
    lemma_block_at(messages, echo_rule(messages, cfg), mi, ci);
    if let Some(b) = block_at(messages, mi, ci) {
        let content = held(b, "content"@);
        law_terms(b, "content"@, content, cfg.stub@);
        law_marker(cfg.stub@, content);
        let new = crate::strategies::marker(cfg.stub@, content);
        crate::strategies::lemma_marker_bears(cfg.stub@, content);
        assert(b is Object ==> b.with("content"@, new).get("content"@) == Some(new));
    }
}

} // verus!
