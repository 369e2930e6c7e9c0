//! The sliding window: old pairs of listed tools lose their input and their content, and nothing
//! else does.

use super::{
    cleared, held, law_marker, law_old, law_terms, left_of, said_by, stubbed, turns_from, writes,
};
use crate::config::{covered, SlidingWindowConfig};
use crate::json::JsonView;
use crate::pairing::{block_at, id_at, last_use, stands_for};
use crate::pairing_laws::{answer_at, call_at, calls_as, law_stands_for};
use crate::rewrite::{lemma_block_at, rewrite};
use crate::sites::lemma_sites;
use crate::size::size;
use crate::strategies::sliding_window::{
    input_stub, outside, outside_calls, stubbed_id, window_rule,
};
use vstd::prelude::*;

verus! {

/// Whether a block is a call of the assistant under an id, to a listed tool that is not exempt and
/// does not write files, with more turns at it or behind it than are kept, which is one at least.
pub open spec fn old_listed_call(
    messages: Seq<JsonView>,
    cfg: &SlidingWindowConfig,
    id: Seq<char>,
    p: (int, int),
) -> bool {
    &&& said_by(messages, p.0, "assistant"@)
    &&& turns_from(messages, p.0) > cfg.keep_recent_turns
    &&& turns_from(messages, p.0) > 1
    &&& block_at(messages, p.0, p.1) matches Some(b) && calls_as(b, id) && (b.get(
        "name"@,
    ) matches Some(JsonView::String(name)) && covered(cfg.denylist_tools@, name) && !covered(
        cfg.exempt_tools@,
        name,
    ) && !writes(name))
}

/// Whether the pair of an id goes: one of the calls under it is old and listed.
pub open spec fn pair_goes(messages: Seq<JsonView>, cfg: &SlidingWindowConfig, id: Seq<char>) -> bool {
    exists|p: (int, int)| #[trigger] old_listed_call(messages, cfg, id, p)
}

/// The ids whose pairs go are those of the calls that are old and listed.
pub proof fn lemma_pair_goes(messages: Seq<JsonView>, cfg: &SlidingWindowConfig, id: Seq<char>)
    ensures
        stubbed_id(messages, cfg, id) <==> pair_goes(messages, cfg, id),
{
    let f = |mi: int, ci: int, b: JsonView| outside(messages, cfg, mi, ci, b);
    let s = outside_calls(messages, cfg);
    let keep = if cfg.keep_recent_turns == 0 {
        1nat
    } else {
        cfg.keep_recent_turns as nat
    };
    lemma_sites(messages, f);
    if stubbed_id(messages, cfg, id) {
        let i = choose|i: int| 0 <= i < s.len() && id_at(messages, #[trigger] s[i]) == Some(id);
        let p = s[i];
        let b = block_at(messages, p.0, p.1)->0;
        assert(f(p.0, p.1, b));
        law_old(messages, keep, p.0);
        let name = b.get_str("name"@)->0;
        law_terms(b, Seq::empty(), JsonView::Null, name);
        assert(old_listed_call(messages, cfg, id, p));
    }
    if pair_goes(messages, cfg, id) {
        let p = choose|p: (int, int)| #[trigger] old_listed_call(messages, cfg, id, p);
        let b = block_at(messages, p.0, p.1)->0;
        law_old(messages, keep, p.0);
        let name = b.get_str("name"@)->0;
        law_terms(b, Seq::empty(), JsonView::Null, name);
        assert(f(p.0, p.1, b));
        assert(s.contains((p.0, p.1)));
        let i = choose|i: int| 0 <= i < s.len() && s[i] == p;
        assert(id_at(messages, s[i]) == Some(id));
    }
}

/// What is left of an input: a word that it was elided where that is smaller, else nothing. One that
/// is that already stays.
pub open spec fn input_left(input: JsonView) -> JsonView {
    let nothing = JsonView::Object(Map::empty());
    let word = JsonView::Object(
        Map::<Seq<char>, JsonView>::empty().insert(
            "_trimwire"@,
            JsonView::String("[trimwire: input elided — older than the sliding window]"@),
        ),
    );
    if input == nothing || input == word {
        input
    } else if size(word) < size(input) {
        word
    } else {
        nothing
    }
}

/// What the window does to a block. The call that counts for an id whose pair goes loses its input,
/// if it has one and its tool does not write files; the result that counts for it loses its content,
/// unless that bears the stub or was cleared. Every other block stays.
pub proof fn law_window(messages: Seq<JsonView>, cfg: &SlidingWindowConfig, mi: int, ci: int)
    requires
        block_at(messages, mi, ci) is Some,
    ensures
        ({
            let b = block_at(messages, mi, ci)->0;
            let content = held(b, "content"@);
            let after = block_at(rewrite(messages, window_rule(messages, cfg)), mi, ci);
            &&& forall|id: Seq<char>|
                (#[trigger] call_at(messages, id, mi, ci) && pair_goes(messages, cfg, id)
                    && b.get("input"@) is Some && !(b.get("name"@) matches Some(
                    JsonView::String(name),
                ) && writes(name))) ==> after == Some(
                    b.with("input"@, input_left(b.get("input"@)->0)),
                )
            &&& forall|id: Seq<char>|
                (#[trigger] answer_at(messages, id, mi, ci) && pair_goes(messages, cfg, id))
                    ==> after == Some(
                    if stubbed(content, cfg.stub@) || cleared(content) {
                        b
                    } else {
                        b.with("content"@, left_of(cfg.stub@, content))
                    },
                )
            &&& (forall|id: Seq<char>|
                (#[trigger] call_at(messages, id, mi, ci) ==> !pair_goes(messages, cfg, id)
                    || b.get("input"@) is None || (b.get("name"@) matches Some(
                    JsonView::String(name),
                ) && writes(name)))) && (forall|id: Seq<char>|
                (#[trigger] answer_at(messages, id, mi, ci) ==> !pair_goes(messages, cfg, id)))
                ==> after == Some(b)
        }),
{
    let b = block_at(messages, mi, ci)->0;
    let content = held(b, "content"@);
    let rule = window_rule(messages, cfg);
    lemma_block_at(messages, rule, mi, ci);
    reveal_strlit("tool_use");
    reveal_strlit("tool_result");
    assert("tool_use"@.len() == 8 && "tool_result"@.len() == 11);
    law_terms(b, "content"@, content, cfg.stub@);
    law_marker(cfg.stub@, content);
    if let Some(name) = b.get_str("name"@) {
        law_terms(b, Seq::empty(), JsonView::Null, name);
    }
    if b.get("input"@) is Some {
        crate::json::lemma_set_same(b, "input"@);
    }
    assert forall|id: Seq<char>| #[trigger] call_at(messages, id, mi, ci) implies last_use(
        messages,
        mi,
        ci,
        b,
    ) == Some(id) && stubbed_id(messages, cfg, id) == pair_goes(messages, cfg, id) by {
        law_stands_for(messages, id, mi, ci);
        lemma_pair_goes(messages, cfg, id);
    }
    assert forall|id: Seq<char>| #[trigger] answer_at(messages, id, mi, ci) implies stands_for(
        messages,
        mi,
        ci,
        b,
    ) == Some(id) && stubbed_id(messages, cfg, id) == pair_goes(messages, cfg, id) by {
        law_stands_for(messages, id, mi, ci);
        lemma_pair_goes(messages, cfg, id);
    }
    if let Some(id) = last_use(messages, mi, ci, b) {
        law_stands_for(messages, id, mi, ci);
        assert(call_at(messages, id, mi, ci));
    }
    if let Some(id) = stands_for(messages, mi, ci, b) {
        law_stands_for(messages, id, mi, ci);
        assert(answer_at(messages, id, mi, ci));
    }
    assert(input_stub(b) is Some ==> input_stub(b)->0 == input_left(b.get("input"@)->0));
    assert(input_stub(b) is None && b.get("input"@) is Some ==> input_left(b.get("input"@)->0)
        == b.get("input"@)->0);
}

} // verus!
