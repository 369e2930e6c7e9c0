//! Reduces the input of old calls that succeeded. What was written to a file gives way, after a
//! longer while, to a marker that says where to read it again.

use super::failed_input_purge::{bulk, bulk_of, failed, has_failed, purged, reduce_failed_input};
use super::{
    assistant_cutoff, authoring, block_with, cutoff, has_role, is_authoring, is_old, old_at,
    opt_int, serialized_len, transcript_len, Stats,
};
use crate::config::{covered, matches_any, StaleInputCapConfig};
use crate::json::{lemma_views, map_members, some_member, views, Json, JsonView, ValueRule};
use crate::pairing::{has_type, lemma_describes_paired, paired, refused, PairingError, PairingIndex};
use crate::rewrite::{
    count_changes, law_pairing_kept, lemma_only_sets_keeps_ids, machine, only_sets, opt_json, plan,
    rewrite, BlockRule, Rule,
};
use crate::text::{begins, byte_len, decimal, decimal_of, same_text, starts_with, utf8_len};
use vstd::prelude::*;
use vstd::string::StringExecFns;

verus! {

/// The file that an input names.
pub open spec fn named_file(input: JsonView) -> Seq<char> {
    let path = match input.get("file_path"@) {
        Some(v) => v.as_str(),
        None => match input.get("notebook_path"@) {
            Some(v) => v.as_str(),
            None => input.get_str("path"@),
        },
    };
    match path {
        Some(p) => if p.len() > 0 {
            p
        } else {
            "the file"@
        },
        None => "the file"@,
    }
}

/// What a tool did to the file.
pub open spec fn deed(name: Seq<char>) -> Seq<char> {
    if name == "Write"@ {
        "wrote"@
    } else if name == "NotebookEdit"@ {
        "edited cell in"@
    } else {
        "edited"@
    }
}

/// What stands in place of an authored value of `n` bytes: it names the file to read again.
pub open spec fn restore_marker(verb: Seq<char>, path: Seq<char>, n: nat) -> Seq<char> {
    "[trimwire: "@ + verb + " "@ + path + " ("@ + decimal(n) + "B) — read the file to restore]"@
}

/// What becomes of a value of an authored input: bulk that bears no marker gives way to one, if
/// that is smaller.
pub open spec fn authored_value(verb: Seq<char>, path: Seq<char>, v: JsonView) -> Option<JsonView> {
    let marked = v.as_str() matches Some(s) && begins(s, "[trimwire:"@);
    match bulk(v) {
        Some(n) => if !marked && utf8_len(restore_marker(verb, path, n)) < n {
            Some(JsonView::String(restore_marker(verb, path, n)))
        } else {
            None
        },
        None => None,
    }
}

/// An authored input without its bulk; none where nothing goes.
pub open spec fn authored(name: Seq<char>, input: JsonView) -> Option<JsonView> {
    let f = |v: JsonView| authored_value(deed(name), named_file(input), v);
    match input {
        JsonView::Object(m) => if some_member(m, f) {
            Some(JsonView::Object(map_members(m, f)))
        } else {
            None
        },
        _ => None,
    }
}

struct Restore<'a> {
    verb: &'a str,
    path: &'a str,
}

impl<'a> ValueRule for Restore<'a> {
    closed spec fn rule(&self, v: JsonView) -> Option<JsonView> {
        authored_value(self.verb@, self.path@, v)
    }

    fn decide(&self, v: &Json) -> (r: Option<Json>) {
        if let Some(s) = v.as_str() {
            if starts_with(s, "[trimwire:") {
                return None;
            }
        }
        match bulk_of(v) {
            Some(n) => {
                let mut m = "[trimwire: ".to_owned();
                m.append(self.verb);
                m.append(" ");
                m.append(self.path);
                m.append(" (");
                m.append(&decimal_of(n));
                m.append("B) — read the file to restore]");
                if byte_len(&m) < n {
                    Some(Json::String(m))
                } else {
                    None
                }
            },
            None => None,
        }
    }
}

/// The file that an input names.
fn file_named(input: &Json) -> (r: &str)
    ensures
        r@ == named_file(input@),
{
    let path = match input.get("file_path") {
        Some(v) => v.as_str(),
        None => match input.get("notebook_path") {
            Some(v) => v.as_str(),
            None => input.get_str("path"),
        },
    };
    match path {
        Some(p) => if p.is_empty() {
            "the file"
        } else {
            p
        },
        None => "the file",
    }
}

/// Takes the bulk out of an authored input; none where nothing goes.
pub fn reduce_authored_input(name: &str, input: &Json) -> (r: Option<Json>)
    ensures
        opt_json(r) == authored(name@, input@),
{
    let verb = if same_text(name, "Write") {
        "wrote"
    } else if same_text(name, "NotebookEdit") {
        "edited cell in"
    } else {
        "edited"
    };
    match input {
        Json::Object(m) => {
            let rule = Restore { verb, path: file_named(input) };
            proof {
                assert((|v: JsonView| rule.rule(v)) =~= (|v: JsonView|
                    authored_value(deed(name@), named_file(input@), v)));
            }
            match m.changed(&rule) {
                Some(new) => Some(Json::Object(new)),
                None => None,
            }
        },
        _ => None,
    }
}

/// A number of turns to keep: at least one.
pub open spec fn at_least_one(n: usize) -> nat {
    if n == 0 {
        1
    } else {
        n as nat
    }
}

/// What becomes of a block: the input of an old call of the assistant that did not fail loses its
/// bulk, unless its tool is exempt. What counts as old depends on whether the tool writes files.
pub open spec fn cap_edit(
    messages: Seq<JsonView>,
    cfg: &StaleInputCapConfig,
    mi: int,
    block: JsonView,
) -> Option<JsonView> {
    let name = block.get_str("name"@);
    let writes = name matches Some(n) && authoring(n);
    let keep = if writes {
        at_least_one(cfg.authoring_keep_recent_turns)
    } else {
        at_least_one(cfg.keep_recent_turns)
    };
    let hit = 0 <= mi < messages.len() && is_old(cutoff(messages, keep), mi) && has_role(
        messages[mi],
        "assistant"@,
    ) && has_type(block, "tool_use"@) && (name matches Some(n) && !covered(cfg.exempt_tools@, n))
        && block.get_str("id"@) is Some && !failed(messages, block);
    match block.get("input"@) {
        Some(input) => {
            let new = if writes {
                authored(name->0, input)
            } else {
                purged(input)
            };
            match new {
                Some(v) => if hit {
                    Some(block.with("input"@, v))
                } else {
                    None
                },
                None => None,
            }
        },
        None => None,
    }
}

/// The cap as a rule on blocks.
pub open spec fn cap_rule(messages: Seq<JsonView>, cfg: &StaleInputCapConfig) -> Rule {
    |mi: int, ci: int, b: JsonView| cap_edit(messages, cfg, mi, b)
}

struct Capper<'a> {
    messages: &'a Vec<Json>,
    index: &'a PairingIndex,
    cfg: &'a StaleInputCapConfig,
    cut: Option<usize>,
    authoring_cut: Option<usize>,
}

impl<'a> BlockRule for Capper<'a> {
    closed spec fn ready(&self) -> bool {
        let all = views(self.messages@);
        &&& self.index.describes(all)
        &&& opt_int(self.cut) == cutoff(all, at_least_one(self.cfg.keep_recent_turns))
        &&& opt_int(self.authoring_cut) == cutoff(
            all,
            at_least_one(self.cfg.authoring_keep_recent_turns),
        )
    }

    closed spec fn rule(&self, mi: int, ci: int, block: JsonView) -> Option<JsonView> {
        cap_edit(views(self.messages@), self.cfg, mi, block)
    }

    fn decide(&self, mi: usize, ci: usize, block: &Json) -> (r: Option<Json>) {
        proof {
            lemma_views(self.messages@);
        }
        if mi >= self.messages.len() || !self.messages[mi].member_is("role", "assistant")
            || !block.member_is("type", "tool_use") {
            return None;
        }
        let name = match block.get_str("name") {
            Some(name) => name,
            None => return None,
        };
        if matches_any(&self.cfg.exempt_tools, name) {
            return None;
        }
        let writes = is_authoring(name);
        let old_enough = if writes {
            old_at(self.authoring_cut, mi)
        } else {
            old_at(self.cut, mi)
        };
        if !old_enough || block.get_str("id").is_none() || has_failed(
            self.messages,
            self.index,
            block,
        ) {
            return None;
        }
        let new = match block.get("input") {
            Some(input) => if writes {
                reduce_authored_input(name, input)
            } else {
                reduce_failed_input(input)
            },
            None => None,
        };
        match new {
            Some(v) => Some(block_with(block, "input", v)),
            None => None,
        }
    }
}

fn one_at_least(n: usize) -> (r: usize)
    ensures
        r == at_least_one(n),
{
    if n == 0 {
        1
    } else {
        n
    }
}

/// Caps the stale inputs of a transcript and says how many were capped.
pub fn apply_counted(messages: &mut Vec<Json>, cfg: &StaleInputCapConfig) -> (r: Result<
    usize,
    PairingError,
>)
    ensures
        ({
            let before = views(old(messages)@);
            let after = views(final(messages)@);
            match r {
                Ok(n) => paired(before) && after == rewrite(before, cap_rule(before, cfg)) && n
                    == machine(count_changes(before, cap_rule(before, cfg))),
                Err(e) => refused(before, e) && after == before,
            }
        }),
{
    let ghost all = views(messages@);
    let index = PairingIndex::build(messages);
    proof {
        lemma_describes_paired(index, all);
    }
    index.validate()?;
    let ghost rule = cap_rule(all, cfg);
    let plan = {
        let capper = Capper {
            messages,
            index: &index,
            cfg,
            cut: assistant_cutoff(messages, one_at_least(cfg.keep_recent_turns)),
            authoring_cut: assistant_cutoff(
                messages,
                one_at_least(cfg.authoring_keep_recent_turns),
            ),
        };
        assert(rule =~= |mi: int, ci: int, b: JsonView| capper.rule(mi, ci, b));
        plan(messages, &capper)
    };
    Ok(plan.carry_out(messages, Ghost(rule)))
}

/// Caps the stale inputs of a transcript.
pub fn apply(messages: &mut Vec<Json>, cfg: &StaleInputCapConfig) -> (r: Result<
    Stats,
    PairingError,
>)
    ensures
        ({
            let before = views(old(messages)@);
            let after = views(final(messages)@);
            match r {
                Ok(stats) => paired(before) && after == rewrite(before, cap_rule(before, cfg))
                    && stats.stubbed == machine(count_changes(before, cap_rule(before, cfg)))
                    && stats.original_bytes == transcript_len(before) && stats.final_bytes
                    == transcript_len(after),
                Err(e) => refused(before, e) && after == before,
            }
        }),
{
    let original_bytes: usize = serialized_len(messages);
    let stubbed: usize = apply_counted(messages, cfg)?;
    let final_bytes: usize = serialized_len(messages);
    Ok(Stats { stubbed, original_bytes, final_bytes })
}

/// The cap sets nothing but the input of calls, and cannot part a result from its call.
pub proof fn law_stale_input_cap_scope(messages: Seq<JsonView>, cfg: &StaleInputCapConfig)
    ensures
        only_sets(cap_rule(messages, cfg), "tool_use"@, "input"@),
        paired(rewrite(messages, cap_rule(messages, cfg))) <==> paired(messages),
{
    let rule = cap_rule(messages, cfg);
    lemma_only_sets_keeps_ids(rule, "tool_use"@, "input"@);
    law_pairing_kept(messages, rule);
}

} // verus!
