//! What old calls lose of their input: bulk, and nothing else.

use super::{law_old, law_terms, opens_with, said_by, turns_from, writes};
use crate::config::{covered, FailedInputPurgeConfig, StaleInputCapConfig};
use crate::json::{map_members, some_member, JsonView};
use crate::pairing::{block_at, result_positions};
use crate::pairing_laws::{answer_at, law_has_answer, law_stands_for};
use crate::rewrite::{lemma_block_at, rewrite};
use crate::size::size;
use crate::strategies::failed_input_purge::{bulk, failed, purge_rule, purge_value, purged};
use crate::strategies::stale_input_cap::{
    at_least_one, authored, authored_value, cap_rule, deed, named_file, restore_marker,
};
use crate::text::{decimal, utf8_len};
use crate::text_laws::law_begins;
use vstd::prelude::*;

verus! {

/// The size of a value of an input: of a text its bytes, of an array or object those of its text.
pub open spec fn weight(v: JsonView) -> nat {
    match v {
        JsonView::String(s) => utf8_len(s),
        JsonView::Array(_) => size(v),
        JsonView::Object(_) => size(v),
        _ => 0,
    }
}

/// A value counts as bulk exactly where it weighs more than 512 bytes, and then with its weight.
pub proof fn law_bulk(v: JsonView)
    ensures
        bulk(v) == if weight(v) > 512 {
            Some(weight(v))
        } else {
            None
        },
{
}

/// Whether a call failed: the result that counts for its id is an error.
pub open spec fn came_to_nothing(messages: Seq<JsonView>, call: JsonView) -> bool {
    exists|id: Seq<char>, mi: int, ci: int| #[trigger]
        answer_at(messages, id, mi, ci) && call.get("id"@) == Some(JsonView::String(id)) && block_at(
            messages,
            mi,
            ci,
        )->0.get("is_error"@) == Some(JsonView::Bool(true))
}

proof fn lemma_failed(messages: Seq<JsonView>, call: JsonView)
    ensures
        failed(messages, call) <==> came_to_nothing(messages, call),
{
    if let Some(id) = call.get_str("id"@) {
        law_has_answer(messages, id);
        if result_positions(messages).contains_key(id) {
            let (mi, ci) = result_positions(messages)[id];
            crate::pairing::lemma_positions(messages, true, id);
            law_stands_for(messages, id, mi, ci);
            assert(answer_at(messages, id, mi, ci));
        }
    }
    if came_to_nothing(messages, call) {
        let (id, mi, ci) = choose|id: Seq<char>, mi: int, ci: int| #[trigger]
            answer_at(messages, id, mi, ci) && call.get("id"@) == Some(JsonView::String(id))
                && block_at(messages, mi, ci)->0.get("is_error"@) == Some(JsonView::Bool(true));
        law_stands_for(messages, id, mi, ci);
    }
}

/// What is left of a value of an input: of bulk, how many bytes it was.
pub open spec fn value_left(v: JsonView) -> JsonView {
    if weight(v) > 512 {
        JsonView::String("[trimwire: "@ + decimal(weight(v)) + "B input elided]"@)
    } else {
        v
    }
}

/// What a tool that writes did to a file.
pub open spec fn did(name: Seq<char>) -> Seq<char> {
    if name == "Write"@ {
        "wrote"@
    } else if name == "NotebookEdit"@ {
        "edited cell in"@
    } else {
        "edited"@
    }
}

/// The file that an input names, by its file, else its notebook, else its path.
pub open spec fn file_of(input: JsonView) -> Seq<char> {
    let named = if input.get("file_path"@) is Some {
        input.get("file_path"@)
    } else if input.get("notebook_path"@) is Some {
        input.get("notebook_path"@)
    } else {
        input.get("path"@)
    };
    match named {
        Some(JsonView::String(p)) => if p.len() > 0 {
            p
        } else {
            "the file"@
        },
        _ => "the file"@,
    }
}

/// What is left of a value that was written: of bulk that bears no marker, where to read it again, if
/// that is smaller.
pub open spec fn written_left(name: Seq<char>, file: Seq<char>, v: JsonView) -> JsonView {
    let note = "[trimwire: "@ + did(name) + " "@ + file + " ("@ + decimal(weight(v))
        + "B) — read the file to restore]"@;
    if weight(v) > 512 && !(v matches JsonView::String(s) && opens_with(s, "[trimwire:"@))
        && utf8_len(note) < weight(v) {
        JsonView::String(note)
    } else {
        v
    }
}

/// An input of which each value is what is left of it; one that is no object stays.
pub open spec fn lightened(input: JsonView) -> JsonView {
    match input {
        JsonView::Object(m) => JsonView::Object(
            Map::new(|k: Seq<char>| m.contains_key(k), |k: Seq<char>| value_left(m[k])),
        ),
        _ => input,
    }
}

/// The input of a tool that writes, of which each value is what is left of it.
pub open spec fn written_lightened(name: Seq<char>, input: JsonView) -> JsonView {
    match input {
        JsonView::Object(m) => JsonView::Object(
            Map::new(
                |k: Seq<char>| m.contains_key(k),
                |k: Seq<char>| written_left(name, file_of(input), m[k]),
            ),
        ),
        _ => input,
    }
}

proof fn lemma_members(
    m: Map<Seq<char>, JsonView>,
    f: spec_fn(JsonView) -> Option<JsonView>,
    g: spec_fn(JsonView) -> JsonView,
)
    requires
        forall|v: JsonView| #[trigger] f(v) == Some(g(v)) || (f(v) is None && g(v) == v),
    ensures
        ({
            let all = Map::new(|k: Seq<char>| m.contains_key(k), |k: Seq<char>| g(m[k]));
            &&& map_members(m, f) == all
            &&& !some_member(m, f) ==> all == m
        }),
{
    let all = Map::new(|k: Seq<char>| m.contains_key(k), |k: Seq<char>| g(m[k]));
    assert forall|k: Seq<char>| m.contains_key(k) implies #[trigger] map_members(m, f)[k] == all[k] by {
        assert(f(m[k]) == Some(g(m[k])) || (f(m[k]) is None && g(m[k]) == m[k]));
    }
    assert(map_members(m, f) =~= all);
    if !some_member(m, f) {
        assert forall|k: Seq<char>| m.contains_key(k) implies #[trigger] all[k] == m[k] by {
            assert(f(m[k]) is None);
        }
        assert(all =~= m);
    }
}

proof fn lemma_lightened(input: JsonView)
    ensures
        match purged(input) {
            Some(v) => v == lightened(input),
            None => lightened(input) == input,
        },
{
    if let JsonView::Object(m) = input {
        let f = |v: JsonView| purge_value(v);
        let g = |v: JsonView| value_left(v);
        lemma_members(m, f, g);
        assert(Map::new(|k: Seq<char>| m.contains_key(k), |k: Seq<char>| g(m[k])) =~= Map::new(
            |k: Seq<char>| m.contains_key(k),
            |k: Seq<char>| value_left(m[k]),
        ));
    }
}

proof fn lemma_written(name: Seq<char>, input: JsonView)
    ensures
        match authored(name, input) {
            Some(v) => v == written_lightened(name, input),
            None => written_lightened(name, input) == input,
        },
{
    if let JsonView::Object(m) = input {
        assert(named_file(input) == file_of(input));
        assert(deed(name) == did(name));
        let f = |v: JsonView| authored_value(deed(name), named_file(input), v);
        let g = |v: JsonView| written_left(name, file_of(input), v);
        assert forall|v: JsonView| #[trigger] f(v) == Some(g(v)) || (f(v) is None && g(v) == v) by {
            if let JsonView::String(s) = v {
                law_begins(s, "[trimwire:"@);
            }
            assert(restore_marker(did(name), file_of(input), weight(v)) =~= "[trimwire: "@ + did(name)
                + " "@ + file_of(input) + " ("@ + decimal(weight(v))
                + "B) — read the file to restore]"@);
        }
        lemma_members(m, f, g);
        assert(Map::new(|k: Seq<char>| m.contains_key(k), |k: Seq<char>| g(m[k])) =~= Map::new(
            |k: Seq<char>| m.contains_key(k),
            |k: Seq<char>| written_left(name, file_of(input), m[k]),
        ));
    }
}

/// What the purge does to a block: a call of the assistant that failed, with more turns at it or
/// behind it than are kept, to a tool that is neither exempt nor writes files, keeps of each value
/// of its input what is left of it. Every other block stays.
pub proof fn law_purge(messages: Seq<JsonView>, cfg: &FailedInputPurgeConfig, mi: int, ci: int)
    requires
        block_at(messages, mi, ci) is Some,
    ensures
        ({
            let b = block_at(messages, mi, ci)->0;
            let hit = said_by(messages, mi, "assistant"@) && turns_from(messages, mi)
                > cfg.keep_recent_turns && b.get("type"@) == Some(JsonView::String("tool_use"@)) && (
            b.get("name"@) matches Some(JsonView::String(name)) && !writes(name) && !covered(
                cfg.exempt_tools@,
                name,
            )) && came_to_nothing(messages, b);
            block_at(rewrite(messages, purge_rule(messages, cfg)), mi, ci) == Some(
                if hit && b.get("input"@) is Some {
                    b.with("input"@, lightened(b.get("input"@)->0))
                } else {
                    b
                },
            )
        }),
{
    let b = block_at(messages, mi, ci)->0;
    lemma_block_at(messages, purge_rule(messages, cfg), mi, ci);
    law_old(messages, cfg.keep_recent_turns as nat, mi);
    lemma_failed(messages, b);
    if let Some(name) = b.get_str("name"@) {
        law_terms(b, Seq::empty(), JsonView::Null, name);
    }
    if let Some(input) = b.get("input"@) {
        lemma_lightened(input);
        crate::json::lemma_set_same(b, "input"@);
    }
}

/// How many turns are kept: one at least.
pub open spec fn kept_turns(n: usize) -> nat {
    if n < 1 {
        1
    } else {
        n as nat
    }
}

/// What the cap on inputs does to a block: a call of the assistant that did not fail, with more
/// turns at it or behind it than are kept for tools of its kind, to a tool that is not exempt, keeps
/// of each value of its input what is left of it. Every other block stays.
pub proof fn law_input_cap(messages: Seq<JsonView>, cfg: &StaleInputCapConfig, mi: int, ci: int)
    requires
        block_at(messages, mi, ci) is Some,
    ensures
        ({
            let b = block_at(messages, mi, ci)->0;
            let name = match b.get("name"@) {
                Some(JsonView::String(n)) => n,
                _ => Seq::empty(),
            };
            let keep = if writes(name) {
                kept_turns(cfg.authoring_keep_recent_turns)
            } else {
                kept_turns(cfg.keep_recent_turns)
            };
            let hit = said_by(messages, mi, "assistant"@) && turns_from(messages, mi) > keep && b.get(
                "type"@,
            ) == Some(JsonView::String("tool_use"@)) && b.get("name"@) == Some(
                JsonView::String(name),
            ) && !covered(cfg.exempt_tools@, name) && (b.get("id"@) matches Some(
                JsonView::String(_),
            )) && !came_to_nothing(messages, b);
            block_at(rewrite(messages, cap_rule(messages, cfg)), mi, ci) == Some(
                if hit && b.get("input"@) is Some {
                    b.with(
                        "input"@,
                        if writes(name) {
                            written_lightened(name, b.get("input"@)->0)
                        } else {
                            lightened(b.get("input"@)->0)
                        },
                    )
                } else {
                    b
                },
            )
        }),
{
    let b = block_at(messages, mi, ci)->0;
    lemma_block_at(messages, cap_rule(messages, cfg), mi, ci);
    law_old(messages, kept_turns(cfg.keep_recent_turns), mi);
    law_old(messages, kept_turns(cfg.authoring_keep_recent_turns), mi);
    assert(at_least_one(cfg.keep_recent_turns) == kept_turns(cfg.keep_recent_turns));
    assert(at_least_one(cfg.authoring_keep_recent_turns) == kept_turns(
        cfg.authoring_keep_recent_turns,
    ));
    lemma_failed(messages, b);
    if let Some(name) = b.get_str("name"@) {
        law_terms(b, Seq::empty(), JsonView::Null, name);
        if let Some(input) = b.get("input"@) {
            lemma_written(name, input);
        }
    } else {
        lemma_no_name();
    }
    if let Some(input) = b.get("input"@) {
        lemma_lightened(input);
        crate::json::lemma_set_same(b, "input"@);
    }
}

proof fn lemma_no_name()
    ensures
        !writes(Seq::empty()),
{
    reveal_strlit("Write");
    reveal_strlit("Edit");
    reveal_strlit("MultiEdit");
    reveal_strlit("NotebookEdit");
    assert("Write"@.len() == 5 && "Edit"@.len() == 4 && "MultiEdit"@.len() == 9
        && "NotebookEdit"@.len() == 12);
}

} // verus!
