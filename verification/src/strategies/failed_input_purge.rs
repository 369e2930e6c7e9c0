//! Reduces the input of old calls that failed: what says which call it was stays, the bulk goes.

use super::simhash_dedup::{flagged, is_flagged};
use super::sliding_window::answer_to;
use super::{
    assistant_cutoff, authoring, block_with, cutoff, has_role, is_authoring, is_old, old_at,
    opt_int, serialized_len, text_len, transcript_len, value_len, Stats,
};
use crate::config::{covered, matches_any, FailedInputPurgeConfig};
use crate::json::{lemma_views, map_members, some_member, views, Json, JsonView, ValueRule};
use crate::pairing::{
    get_block, has_type, lemma_describes_paired, paired, refused, PairingError, PairingIndex,
};
use crate::rewrite::{
    count_changes, law_pairing_kept, lemma_only_sets_keeps_ids, machine, only_sets, opt_json, plan,
    rewrite, BlockRule, Rule,
};
use crate::text::{byte_len, decimal, decimal_of, utf8_len};
use vstd::prelude::*;
use vstd::string::StringExecFns;

verus! {

/// Up to which size a value of an input is kept.
pub const KEEP_VALUE_MAX: usize = 512;

/// What stands in place of an elided value of `n` bytes.
pub open spec fn size_marker(n: nat) -> JsonView {
    JsonView::String("[trimwire: "@ + decimal(n) + "B input elided]"@)
}

/// What stands in place of an elided value of `n` bytes.
pub fn elided_marker(n: usize) -> (r: Json)
    ensures
        r@ == size_marker(n as nat),
{
    let mut s = "[trimwire: ".to_owned();
    s.append(&decimal_of(n));
    s.append("B input elided]");
    Json::String(s)
}

/// The size of a value by which it counts as bulk: of a text its bytes, of an array or object the
/// bytes of its compact text. Nothing else is bulk.
pub open spec fn bulk(v: JsonView) -> Option<nat> {
    let n = match v {
        JsonView::String(s) => utf8_len(s),
        JsonView::Array(_) => text_len(v),
        JsonView::Object(_) => text_len(v),
        _ => 0,
    };
    if n > KEEP_VALUE_MAX {
        Some(n)
    } else {
        None
    }
}

/// The size of a value by which it counts as bulk.
pub fn bulk_of(v: &Json) -> (r: Option<usize>)
    ensures
        match r {
            Some(n) => bulk(v@) == Some(n as nat),
            None => bulk(v@) is None,
        },
{
    let n: usize = match v {
        Json::String(s) => byte_len(s),
        Json::Array(_) => value_len(v),
        Json::Object(_) => value_len(v),
        _ => 0,
    };
    if n > KEEP_VALUE_MAX {
        Some(n)
    } else {
        None
    }
}

/// What becomes of a value of an input: bulk gives way to a marker of its size.
pub open spec fn purge_value(v: JsonView) -> Option<JsonView> {
    match bulk(v) {
        Some(n) => Some(size_marker(n)),
        None => None,
    }
}

/// An input without its bulk; none where it has none.
pub open spec fn purged(input: JsonView) -> Option<JsonView> {
    match input {
        JsonView::Object(m) => if some_member(m, |v: JsonView| purge_value(v)) {
            Some(JsonView::Object(map_members(m, |v: JsonView| purge_value(v))))
        } else {
            None
        },
        _ => None,
    }
}

struct Purge;

impl ValueRule for Purge {
    closed spec fn rule(&self, v: JsonView) -> Option<JsonView> {
        purge_value(v)
    }

    fn decide(&self, v: &Json) -> (r: Option<Json>) {
        match bulk_of(v) {
            Some(n) => Some(elided_marker(n)),
            None => None,
        }
    }
}

/// Takes the bulk out of an input; none where there is none.
pub fn reduce_failed_input(input: &Json) -> (r: Option<Json>)
    ensures
        opt_json(r) == purged(input@),
{
    match input {
        Json::Object(m) => {
            let rule = Purge;
            proof {
                assert((|v: JsonView| rule.rule(v)) =~= (|v: JsonView| purge_value(v)));
            }
            match m.changed(&rule) {
                Some(new) => Some(Json::Object(new)),
                None => None,
            }
        },
        _ => None,
    }
}

/// Whether the result of a call is an error.
pub open spec fn failed(messages: Seq<JsonView>, call: JsonView) -> bool {
    match answer_to(messages, call) {
        Some(res) => flagged(res),
        None => false,
    }
}

/// Whether the result of a call is an error.
pub fn has_failed(messages: &Vec<Json>, index: &PairingIndex, call: &Json) -> (r: bool)
    requires
        index.describes(views(messages@)),
    ensures
        r == failed(views(messages@), call@),
{
    match call.get_str("id") {
        Some(id) => match index.result_at(id) {
            Some(p) => match get_block(messages, p.0, p.1) {
                Some(res) => is_flagged(res),
                None => false,
            },
            None => false,
        },
        None => false,
    }
}

/// What becomes of a block: the input of an old call of the assistant that failed loses its bulk,
/// unless its tool is exempt or writes files.
pub open spec fn purge_edit(
    messages: Seq<JsonView>,
    cfg: &FailedInputPurgeConfig,
    mi: int,
    block: JsonView,
) -> Option<JsonView> {
    let hit = 0 <= mi < messages.len() && is_old(
        cutoff(messages, cfg.keep_recent_turns as nat),
        mi,
    ) && has_role(messages[mi], "assistant"@) && has_type(block, "tool_use"@) && (block.get_str(
        "name"@,
    ) matches Some(name) && !authoring(name) && !covered(cfg.exempt_tools@, name)) && failed(
        messages,
        block,
    );
    match block.get("input"@) {
        Some(input) => match purged(input) {
            Some(v) => if hit {
                Some(block.with("input"@, v))
            } else {
                None
            },
            None => None,
        },
        None => None,
    }
}

/// The purge as a rule on blocks.
pub open spec fn purge_rule(messages: Seq<JsonView>, cfg: &FailedInputPurgeConfig) -> Rule {
    |mi: int, ci: int, b: JsonView| purge_edit(messages, cfg, mi, b)
}

struct Purger<'a> {
    messages: &'a Vec<Json>,
    index: &'a PairingIndex,
    cfg: &'a FailedInputPurgeConfig,
    cut: Option<usize>,
}

impl<'a> BlockRule for Purger<'a> {
    closed spec fn ready(&self) -> bool {
        let all = views(self.messages@);
        &&& self.index.describes(all)
        &&& opt_int(self.cut) == cutoff(all, self.cfg.keep_recent_turns as nat)
    }

    closed spec fn rule(&self, mi: int, ci: int, block: JsonView) -> Option<JsonView> {
        purge_edit(views(self.messages@), self.cfg, mi, block)
    }

    fn decide(&self, mi: usize, ci: usize, block: &Json) -> (r: Option<Json>) {
        proof {
            lemma_views(self.messages@);
        }
        if mi >= self.messages.len() || !old_at(self.cut, mi) || !self.messages[mi].member_is(
            "role",
            "assistant",
        ) || !block.member_is("type", "tool_use") {
            return None;
        }
        match block.get_str("name") {
            Some(name) => if is_authoring(name) || matches_any(&self.cfg.exempt_tools, name) {
                return None;
            },
            None => return None,
        }
        if !has_failed(self.messages, self.index, block) {
            return None;
        }
        match block.get("input") {
            Some(input) => match reduce_failed_input(input) {
                Some(v) => Some(block_with(block, "input", v)),
                None => None,
            },
            None => None,
        }
    }
}

/// Purges the failed inputs of a transcript and says how many were purged.
pub fn apply_counted(messages: &mut Vec<Json>, cfg: &FailedInputPurgeConfig) -> (r: Result<
    usize,
    PairingError,
>)
    ensures
        ({
            let before = views(old(messages)@);
            let after = views(final(messages)@);
            match r {
                Ok(n) => paired(before) && after == rewrite(before, purge_rule(before, cfg)) && n
                    == machine(count_changes(before, purge_rule(before, cfg))),
                Err(e) => refused(before, e) && after == before,
            }
        }),
{
    let ghost all = views(messages@);
    let index = PairingIndex::build(messages);
    proof {
        lemma_describes_paired(index, all);
    }
    index.validate()?;
    let ghost rule = purge_rule(all, cfg);
    let plan = {
        let purger = Purger {
            messages,
            index: &index,
            cfg,
            cut: assistant_cutoff(messages, cfg.keep_recent_turns),
        };
        assert(rule =~= |mi: int, ci: int, b: JsonView| purger.rule(mi, ci, b));
        plan(messages, &purger)
    };
    Ok(plan.carry_out(messages, Ghost(rule)))
}

/// Purges the failed inputs of a transcript.
pub fn apply(messages: &mut Vec<Json>, cfg: &FailedInputPurgeConfig) -> (r: Result<
    Stats,
    PairingError,
>)
    ensures
        ({
            let before = views(old(messages)@);
            let after = views(final(messages)@);
            match r {
                Ok(stats) => paired(before) && after == rewrite(before, purge_rule(before, cfg))
                    && stats.stubbed == machine(count_changes(before, purge_rule(before, cfg)))
                    && stats.original_bytes == transcript_len(before) && stats.final_bytes
                    == transcript_len(after),
                Err(e) => refused(before, e) && after == before,
            }
        }),
{
    let original_bytes: usize = serialized_len(messages);
    let stubbed: usize = apply_counted(messages, cfg)?;
    let final_bytes: usize = serialized_len(messages);
    Ok(Stats { stubbed, original_bytes, final_bytes })
}

/// The purge sets nothing but the input of calls, and cannot part a result from its call.
pub proof fn law_failed_input_purge_scope(messages: Seq<JsonView>, cfg: &FailedInputPurgeConfig)
    ensures
        only_sets(purge_rule(messages, cfg), "tool_use"@, "input"@),
        paired(rewrite(messages, purge_rule(messages, cfg))) <==> paired(messages),
{
    let rule = purge_rule(messages, cfg);
    lemma_only_sets_keeps_ids(rule, "tool_use"@, "input"@);
    law_pairing_kept(messages, rule);
}

} // verus!
