//! The deduplication: a result goes only where a later one says the same or more.

use super::{cleared, held, law_marker, law_terms, left_of, opens_with, said_by, stubbed};
use crate::config::{covered, CrossTurnDedupConfig};
use crate::json::{json_text, JsonView};
use crate::pairing::{block_at, id_at, stands_for};
use crate::pairing_laws::{answer_at, answers_as, law_has_answer, law_stands_for};
use crate::rewrite::{lemma_block_at, rewrite};
use crate::sites::{before, lemma_sites};
use crate::size::size;
use crate::strategies::cross_turn_dedup::{
    after_all, block_or_null, calls, deduped, echo_rule, echoed, extend_rule, extended, last_to_ask,
    name_at, output_at, repeat_rule, repeated, result_site, same_ask, takes_part,
};
use crate::strategies::dedup_laws::{law_only_redundant_goes, lemma_all_settled};
use crate::text_laws::law_begins;
use vstd::prelude::*;

verus! {

/// The block at a position; null where there is none.
pub open spec fn there(messages: Seq<JsonView>, p: (int, int)) -> JsonView {
    if block_at(messages, p.0, p.1) is Some {
        block_at(messages, p.0, p.1)->0
    } else {
        JsonView::Null
    }
}

/// Whether a block is a call of the assistant under an id that has a result, to a tool that is not
/// exempt.
pub open spec fn asker(
    messages: Seq<JsonView>,
    cfg: &CrossTurnDedupConfig,
    id: Seq<char>,
    p: (int, int),
) -> bool {
    let b = there(messages, p);
    &&& said_by(messages, p.0, "assistant"@)
    &&& b.get("type"@) == Some(JsonView::String("tool_use"@))
    &&& b.get("id"@) == Some(JsonView::String(id))
    &&& b.get("name"@) matches Some(JsonView::String(name)) && !covered(cfg.exempt_tools@, name)
    &&& exists|mi: int, ci: int|
        #![trigger block_at(messages, mi, ci)]
        block_at(messages, mi, ci) matches Some(r) && answers_as(r, id)
}

/// Whether two calls are to the same tool.
pub open spec fn same_tool(messages: Seq<JsonView>, p: (int, int), q: (int, int)) -> bool {
    there(messages, p).get("name"@) == there(messages, q).get("name"@)
}

/// Whether two calls are to the same tool and their whole inputs have the same text.
pub open spec fn same_question(messages: Seq<JsonView>, p: (int, int), q: (int, int)) -> bool {
    same_tool(messages, p, q) && json_text(held(there(messages, p), "input"@)) == json_text(
        held(there(messages, q), "input"@),
    )
}

/// Whether the result for an id is a text, without a stub.
pub open spec fn gave(
    messages: Seq<JsonView>,
    cfg: &CrossTurnDedupConfig,
    id: Seq<char>,
    text: Seq<char>,
) -> bool {
    exists|mi: int, ci: int| #[trigger]
        answer_at(messages, id, mi, ci) && there(messages, (mi, ci)).get("content"@) == Some(
            JsonView::String(text),
        ) && !stubbed(JsonView::String(text), cfg.stub@)
}

/// Whether a call under an id is followed by one that asks the same of the same tool, and the last
/// that does so has another id.
pub open spec fn asked_again(
    messages: Seq<JsonView>,
    cfg: &CrossTurnDedupConfig,
    id: Seq<char>,
) -> bool {
    exists|p: (int, int), q: (int, int), other: Seq<char>|
        #![trigger asker(messages, cfg, id, p), asker(messages, cfg, other, q)]
        {
            &&& asker(messages, cfg, id, p)
            &&& asker(messages, cfg, other, q)
            &&& other != id
            &&& before(p, q)
            &&& same_question(messages, p, q)
            &&& forall|r: (int, int), any: Seq<char>| #[trigger]
                asker(messages, cfg, any, r) && before(q, r) ==> !same_question(messages, q, r)
        }
}

/// Whether a call under an id is followed by one to the same tool whose result is longer and begins
/// with the whole of a text.
pub open spec fn outgrown(
    messages: Seq<JsonView>,
    cfg: &CrossTurnDedupConfig,
    id: Seq<char>,
    text: Seq<char>,
) -> bool {
    exists|p: (int, int), q: (int, int), other: Seq<char>, longer: Seq<char>|
        #![trigger asker(messages, cfg, id, p), asker(messages, cfg, other, q), gave(messages, cfg, other, longer)]
        {
            &&& asker(messages, cfg, id, p)
            &&& asker(messages, cfg, other, q)
            &&& before(p, q)
            &&& same_tool(messages, p, q)
            &&& gave(messages, cfg, other, longer)
            &&& longer.len() > text.len()
            &&& opens_with(longer, text)
        }
}

/// Whether the result for one id stands in a later message than that for another, or in the same
/// and was called for later.
pub open spec fn later_answer(
    messages: Seq<JsonView>,
    cfg: &CrossTurnDedupConfig,
    id: Seq<char>,
    other: Seq<char>,
    q: (int, int),
) -> bool {
    exists|a: (int, int), b: (int, int)|
        #![trigger answer_at(messages, id, a.0, a.1), answer_at(messages, other, b.0, b.1)]
        {
            &&& answer_at(messages, id, a.0, a.1)
            &&& answer_at(messages, other, b.0, b.1)
            &&& b.0 > a.0 || (b.0 == a.0 && forall|p: (int, int)| #[trigger]
                asker(messages, cfg, id, p) ==> before(p, q))
        }
}

/// Whether a call under another id has a later result that is the same text, whole.
pub open spec fn said_again(
    messages: Seq<JsonView>,
    cfg: &CrossTurnDedupConfig,
    id: Seq<char>,
    text: Seq<char>,
) -> bool {
    exists|p: (int, int), q: (int, int), other: Seq<char>|
        #![trigger asker(messages, cfg, id, p), asker(messages, cfg, other, q)]
        {
            &&& asker(messages, cfg, id, p)
            &&& asker(messages, cfg, other, q)
            &&& other != id
            &&& gave(messages, cfg, other, text)
            &&& later_answer(messages, cfg, id, other, q)
        }
}

proof fn lemma_asker(
    messages: Seq<JsonView>,
    cfg: &CrossTurnDedupConfig,
    id: Seq<char>,
    p: (int, int),
)
    ensures
        asker(messages, cfg, id, p) <==> calls(messages, cfg).contains(p) && id_at(messages, p)
            == Some(id),
        there(messages, p) == block_or_null(messages, p),
        calls(messages, cfg).contains(p) ==> id_at(messages, p) is Some && name_at(messages, p) is Some,
{
    let f = |mi: int, ci: int, b: JsonView| takes_part(messages, cfg, mi, ci, b);
    let s = calls(messages, cfg);
    lemma_sites(messages, f);
    law_has_answer(messages, id);
    if asker(messages, cfg, id, p) {
        assert(f(p.0, p.1, block_at(messages, p.0, p.1)->0));
        assert(s.contains((p.0, p.1)));
    }
    if s.contains(p) {
        let k = choose|k: int| 0 <= k < s.len() && s[k] == p;
        assert(f(p.0, p.1, block_at(messages, p.0, p.1)->0));
    }
}

/// Two calls count as asking the same only where they are to the same tool and their whole inputs
/// have the same text.
pub proof fn law_same_ask(
    messages: Seq<JsonView>,
    cfg: &CrossTurnDedupConfig,
    id: Seq<char>,
    other: Seq<char>,
    p: (int, int),
    q: (int, int),
)
    requires
        asker(messages, cfg, id, p),
        asker(messages, cfg, other, q),
    ensures
        same_ask(messages, p, q) <==> same_question(messages, p, q),
        name_at(messages, p) == name_at(messages, q) <==> same_tool(messages, p, q),
{
    lemma_asker(messages, cfg, id, p);
    lemma_asker(messages, cfg, other, q);
    law_terms(there(messages, p), "input"@, JsonView::Null, Seq::empty());
    law_terms(there(messages, q), "input"@, JsonView::Null, Seq::empty());
}

proof fn lemma_order(messages: Seq<JsonView>, cfg: &CrossTurnDedupConfig, i: int, j: int)
    requires
        0 <= i < calls(messages, cfg).len(),
        0 <= j < calls(messages, cfg).len(),
    ensures
        i < j <==> before(calls(messages, cfg)[i], calls(messages, cfg)[j]),
{
    let s = calls(messages, cfg);
    lemma_sites(messages, |mi: int, ci: int, b: JsonView| takes_part(messages, cfg, mi, ci, b));
    if i < j {
        assert(before(s[i], s[j]));
    }
    if j < i {
        assert(before(s[j], s[i]));
    }
}

proof fn lemma_gave(
    messages: Seq<JsonView>,
    cfg: &CrossTurnDedupConfig,
    id: Seq<char>,
    p: (int, int),
    text: Seq<char>,
)
    requires
        asker(messages, cfg, id, p),
    ensures
        gave(messages, cfg, id, text) <==> output_at(messages, cfg, p) == Some(text),
{
    lemma_asker(messages, cfg, id, p);
    law_has_answer(messages, id);
    let (mi, ci) = choose|mi: int, ci: int| #[trigger] answer_at(messages, id, mi, ci);
    law_stands_for(messages, id, mi, ci);
    assert(result_site(messages, p) == (mi, ci));
    let b = there(messages, (mi, ci));
    law_terms(b, "content"@, held(b, "content"@), cfg.stub@);
    if gave(messages, cfg, id, text) {
        let (mj, cj) = choose|mj: int, cj: int| #[trigger]
            answer_at(messages, id, mj, cj) && there(messages, (mj, cj)).get("content"@) == Some(
                JsonView::String(text),
            ) && !stubbed(JsonView::String(text), cfg.stub@);
        law_stands_for(messages, id, mj, cj);
        assert((mi, ci) == (mj, cj));
    }
    if output_at(messages, cfg, p) == Some(text) {
        assert(b.get("content"@) == Some(JsonView::String(text)));
        assert(answer_at(messages, id, mi, ci));
    }
}

proof fn lemma_asked_again(messages: Seq<JsonView>, cfg: &CrossTurnDedupConfig, id: Seq<char>)
    ensures
        repeated(messages, cfg, id) <==> asked_again(messages, cfg, id),
{
    let s = calls(messages, cfg);
    if repeated(messages, cfg, id) {
        let (i, j) = choose|i: int, j: int|
            0 <= i < j < s.len() && id_at(messages, #[trigger] s[i]) == Some(id) && id_at(
                messages,
                #[trigger] s[j],
            ) != Some(id) && same_ask(messages, s[i], s[j]) && last_to_ask(messages, cfg, j);
        let p = s[i];
        let q = s[j];
        assert(s.contains(p) && s.contains(q));
        lemma_asker(messages, cfg, id, p);
        lemma_asker(messages, cfg, id, q);
        let other = id_at(messages, q)->0;
        lemma_asker(messages, cfg, other, q);
        lemma_order(messages, cfg, i, j);
        law_same_ask(messages, cfg, id, other, p, q);
        assert forall|r: (int, int), any: Seq<char>| #[trigger]
            asker(messages, cfg, any, r) && before(q, r) implies !same_question(messages, q, r) by {
            lemma_asker(messages, cfg, any, r);
            let k = choose|k: int| 0 <= k < s.len() && s[k] == r;
            lemma_order(messages, cfg, j, k);
            law_same_ask(messages, cfg, other, any, q, r);
            assert(!same_ask(messages, s[j], s[k]));
        }
        assert(asker(messages, cfg, id, p) && asker(messages, cfg, other, q));
    }
    if asked_again(messages, cfg, id) {
        let (p, q, other) = choose|p: (int, int), q: (int, int), other: Seq<char>|
            #![trigger asker(messages, cfg, id, p), asker(messages, cfg, other, q)]
            {
                &&& asker(messages, cfg, id, p)
                &&& asker(messages, cfg, other, q)
                &&& other != id
                &&& before(p, q)
                &&& same_question(messages, p, q)
                &&& forall|r: (int, int), any: Seq<char>| #[trigger]
                    asker(messages, cfg, any, r) && before(q, r) ==> !same_question(messages, q, r)
            };
        lemma_asker(messages, cfg, id, p);
        lemma_asker(messages, cfg, other, q);
        let i = choose|i: int| 0 <= i < s.len() && s[i] == p;
        let j = choose|j: int| 0 <= j < s.len() && s[j] == q;
        lemma_order(messages, cfg, i, j);
        law_same_ask(messages, cfg, id, other, p, q);
        assert forall|k: int| j < k < s.len() implies !same_ask(messages, s[j], #[trigger] s[k]) by {
            let r = s[k];
            assert(s.contains(r));
            lemma_asker(messages, cfg, id, r);
            let any = id_at(messages, r)->0;
            lemma_asker(messages, cfg, any, r);
            lemma_order(messages, cfg, j, k);
            law_same_ask(messages, cfg, other, any, q, r);
        }
        assert(last_to_ask(messages, cfg, j));
        assert(id_at(messages, s[i]) == Some(id) && id_at(messages, s[j]) != Some(id));
    }
}

proof fn lemma_outgrown(
    messages: Seq<JsonView>,
    cfg: &CrossTurnDedupConfig,
    id: Seq<char>,
    text: Seq<char>,
)
    ensures
        extended(messages, cfg, id, text) <==> outgrown(messages, cfg, id, text),
{
    let s = calls(messages, cfg);
    if extended(messages, cfg, id, text) {
        let (i, j) = choose|i: int, j: int|
            0 <= i < j < s.len() && id_at(messages, #[trigger] s[i]) == Some(id) && name_at(
                messages,
                #[trigger] s[j],
            ) == name_at(messages, s[i]) && (output_at(messages, cfg, s[j]) matches Some(t)
                && t.len() > text.len() && crate::text::begins(t, text));
        let p = s[i];
        let q = s[j];
        assert(s.contains(p) && s.contains(q));
        lemma_asker(messages, cfg, id, p);
        lemma_asker(messages, cfg, id, q);
        let other = id_at(messages, q)->0;
        lemma_asker(messages, cfg, other, q);
        lemma_order(messages, cfg, i, j);
        law_same_ask(messages, cfg, id, other, p, q);
        let t = output_at(messages, cfg, q)->0;
        lemma_gave(messages, cfg, other, q, t);
        law_begins(t, text);
        assert(gave(messages, cfg, other, t) && asker(messages, cfg, id, p) && asker(messages, cfg, other, q));
    }
    if outgrown(messages, cfg, id, text) {
        let (p, q, other, t) = choose|
            p: (int, int),
            q: (int, int),
            other: Seq<char>,
            longer: Seq<char>,
        |
            #![trigger asker(messages, cfg, id, p), asker(messages, cfg, other, q), gave(messages, cfg, other, longer)]
            {
                &&& asker(messages, cfg, id, p)
                &&& asker(messages, cfg, other, q)
                &&& before(p, q)
                &&& same_tool(messages, p, q)
                &&& gave(messages, cfg, other, longer)
                &&& longer.len() > text.len()
                &&& opens_with(longer, text)
            };
        lemma_asker(messages, cfg, id, p);
        lemma_asker(messages, cfg, other, q);
        let i = choose|i: int| 0 <= i < s.len() && s[i] == p;
        let j = choose|j: int| 0 <= j < s.len() && s[j] == q;
        lemma_order(messages, cfg, i, j);
        law_same_ask(messages, cfg, id, other, p, q);
        lemma_gave(messages, cfg, other, q, t);
        law_begins(t, text);
        assert(id_at(messages, s[i]) == Some(id) && name_at(messages, s[j]) == name_at(messages, s[i]));
    }
}

proof fn lemma_site(
    messages: Seq<JsonView>,
    cfg: &CrossTurnDedupConfig,
    id: Seq<char>,
    p: (int, int),
) -> (r: (int, int))
    requires
        asker(messages, cfg, id, p),
    ensures
        r == result_site(messages, p),
        answer_at(messages, id, r.0, r.1),
        forall|a: (int, int)| #[trigger] answer_at(messages, id, a.0, a.1) ==> a == r,
{
    lemma_asker(messages, cfg, id, p);
    law_has_answer(messages, id);
    let (mi, ci) = choose|mi: int, ci: int| #[trigger] answer_at(messages, id, mi, ci);
    law_stands_for(messages, id, mi, ci);
    assert forall|a: (int, int)| #[trigger] answer_at(messages, id, a.0, a.1) implies a == (mi, ci) by {
        law_stands_for(messages, id, a.0, a.1);
    }
    (mi, ci)
}

proof fn lemma_said_again(
    messages: Seq<JsonView>,
    cfg: &CrossTurnDedupConfig,
    id: Seq<char>,
    text: Seq<char>,
)
    ensures
        echoed(messages, cfg, id, text) <==> said_again(messages, cfg, id, text),
{
    let s = calls(messages, cfg);
    if echoed(messages, cfg, id, text) {
        let (i, j) = choose|i: int, j: int|
            0 <= i < s.len() && 0 <= j < s.len() && id_at(messages, #[trigger] s[i]) == Some(id)
                && id_at(messages, #[trigger] s[j]) != Some(id) && output_at(messages, cfg, s[j])
                == Some(text) && (result_site(messages, s[j]).0 > result_site(messages, s[i]).0 || (
            result_site(messages, s[j]).0 == result_site(messages, s[i]).0 && after_all(
                messages,
                cfg,
                id,
                j,
            )));
        let p = s[i];
        let q = s[j];
        assert(s.contains(p) && s.contains(q));
        lemma_asker(messages, cfg, id, p);
        lemma_asker(messages, cfg, id, q);
        let other = id_at(messages, q)->0;
        lemma_asker(messages, cfg, other, q);
        lemma_gave(messages, cfg, other, q, text);
        let a = lemma_site(messages, cfg, id, p);
        let b = lemma_site(messages, cfg, other, q);
        if b.0 == a.0 {
            assert forall|r: (int, int)| #[trigger] asker(messages, cfg, id, r) implies before(r, q) by {
                lemma_asker(messages, cfg, id, r);
                let k = choose|k: int| 0 <= k < s.len() && s[k] == r;
                assert(id_at(messages, s[k]) == Some(id));
                assert(k < j);
                lemma_order(messages, cfg, k, j);
            }
        }
        assert(answer_at(messages, id, a.0, a.1) && answer_at(messages, other, b.0, b.1));
        assert(later_answer(messages, cfg, id, other, q));
        assert(asker(messages, cfg, id, p) && asker(messages, cfg, other, q));
    }
    if said_again(messages, cfg, id, text) {
        let (p, q, other) = choose|p: (int, int), q: (int, int), other: Seq<char>|
            #![trigger asker(messages, cfg, id, p), asker(messages, cfg, other, q)]
            {
                &&& asker(messages, cfg, id, p)
                &&& asker(messages, cfg, other, q)
                &&& other != id
                &&& gave(messages, cfg, other, text)
                &&& later_answer(messages, cfg, id, other, q)
            };
        lemma_asker(messages, cfg, id, p);
        lemma_asker(messages, cfg, other, q);
        let i = choose|i: int| 0 <= i < s.len() && s[i] == p;
        let j = choose|j: int| 0 <= j < s.len() && s[j] == q;
        lemma_gave(messages, cfg, other, q, text);
        let a = lemma_site(messages, cfg, id, p);
        let b = lemma_site(messages, cfg, other, q);
        let (x, y) = choose|x: (int, int), y: (int, int)|
            #![trigger answer_at(messages, id, x.0, x.1), answer_at(messages, other, y.0, y.1)]
            {
                &&& answer_at(messages, id, x.0, x.1)
                &&& answer_at(messages, other, y.0, y.1)
                &&& y.0 > x.0 || (y.0 == x.0 && forall|r: (int, int)| #[trigger]
                    asker(messages, cfg, id, r) ==> before(r, q))
            };
        assert(x == a && y == b);
        if b.0 == a.0 {
            assert forall|k: int| 0 <= k < s.len() && id_at(messages, #[trigger] s[k]) == Some(id) implies k < j by {
                assert(s.contains(s[k]));
                lemma_asker(messages, cfg, id, s[k]);
                assert(asker(messages, cfg, id, s[k]));
                lemma_order(messages, cfg, k, j);
            }
            assert(after_all(messages, cfg, id, j));
        }
        assert(id_at(messages, s[i]) == Some(id) && id_at(messages, s[j]) != Some(id));
    }
}

/// What the three steps do to the result for an id, and that they do nothing to any other block. In
/// the first it goes where what was asked under the id was asked again, the whole of it and last
/// under another id; in the second where it is a text with which a longer one of the same tool
/// begins; in the third where a result under another id is the same text and the note is smaller.
pub proof fn law_dedup_steps(
    messages: Seq<JsonView>,
    cfg: &CrossTurnDedupConfig,
    id: Seq<char>,
    mi: int,
    ci: int,
)
    requires
        answer_at(messages, id, mi, ci),
    ensures
        ({
            let b = block_at(messages, mi, ci)->0;
            let content = held(b, "content"@);
            let gone = Some(b.with("content"@, left_of(cfg.stub@, content)));
            let bare = !stubbed(content, cfg.stub@);
            &&& block_at(rewrite(messages, repeat_rule(messages, cfg)), mi, ci) == if bare
                && asked_again(messages, cfg, id) {
                gone
            } else {
                Some(b)
            }
            &&& block_at(rewrite(messages, extend_rule(messages, cfg)), mi, ci) == if bare && (
            content matches JsonView::String(text) && outgrown(messages, cfg, id, text)) {
                gone
            } else {
                Some(b)
            }
            &&& block_at(rewrite(messages, echo_rule(messages, cfg)), mi, ci) == if bare
                && !cleared(content) && (content matches JsonView::String(text) && said_again(
                messages,
                cfg,
                id,
                text,
            )) && size(left_of(cfg.stub@, content)) < size(content) {
                gone
            } else {
                Some(b)
            }
        }),
{
    let b = block_at(messages, mi, ci)->0;
    let content = held(b, "content"@);
    lemma_block_at(messages, repeat_rule(messages, cfg), mi, ci);
    lemma_block_at(messages, extend_rule(messages, cfg), mi, ci);
    lemma_block_at(messages, echo_rule(messages, cfg), mi, ci);
    law_stands_for(messages, id, mi, ci);
    law_terms(b, "content"@, content, cfg.stub@);
    law_marker(cfg.stub@, content);
    lemma_asked_again(messages, cfg, id);
    if let JsonView::String(text) = content {
        lemma_outgrown(messages, cfg, id, text);
        lemma_said_again(messages, cfg, id, text);
    }
}

/// A block that is not the result that counts for an id stays through all steps.
pub proof fn law_dedup_spares_others(
    messages: Seq<JsonView>,
    cfg: &CrossTurnDedupConfig,
    mi: int,
    ci: int,
)
    requires
        cfg.stub@.len() > 0,
        block_at(messages, mi, ci) is Some,
        forall|id: Seq<char>| !#[trigger] answer_at(messages, id, mi, ci),
    ensures
        block_at(deduped(messages, cfg).0, mi, ci) == block_at(messages, mi, ci),
{
    let b = block_at(messages, mi, ci)->0;
    law_only_redundant_goes(messages, cfg, mi, ci);
    if let Some(id) = stands_for(messages, mi, ci, b) {
        law_stands_for(messages, id, mi, ci);
        assert(answer_at(messages, id, mi, ci));
    }
}

/// Nothing that stands alone goes: a result that changes over the whole run was one whose question
/// was asked again with the same whole input, or with whose whole text a later longer one of the
/// same tool begins, or whose whole text another result repeats later.
pub proof fn law_nothing_unique_goes(
    messages: Seq<JsonView>,
    cfg: &CrossTurnDedupConfig,
    id: Seq<char>,
    mi: int,
    ci: int,
)
    requires
        cfg.stub@.len() > 0,
        answer_at(messages, id, mi, ci),
    ensures
        ({
            let b = block_at(messages, mi, ci)->0;
            let content = held(b, "content"@);
            let alone = !asked_again(messages, cfg, id) && !(content matches JsonView::String(text)
                && (outgrown(messages, cfg, id, text) || said_again(messages, cfg, id, text)));
            let after = block_at(deduped(messages, cfg).0, mi, ci);
            &&& after == Some(b) || after == Some(b.with("content"@, left_of(cfg.stub@, content)))
            &&& alone ==> after == Some(b)
        }),
{
    let b = block_at(messages, mi, ci)->0;
    let content = held(b, "content"@);
    law_only_redundant_goes(messages, cfg, mi, ci);
    law_stands_for(messages, id, mi, ci);
    law_terms(b, "content"@, content, cfg.stub@);
    law_marker(cfg.stub@, content);
    lemma_asked_again(messages, cfg, id);
    if let JsonView::String(text) = content {
        lemma_outgrown(messages, cfg, id, text);
        lemma_said_again(messages, cfg, id, text);
    }
}

/// Nothing redundant is left: in what comes out, no result that bears no stub is asked for again,
/// or is outgrown, or is repeated in a way that a note would be smaller than.
pub proof fn law_nothing_redundant_left(
    messages: Seq<JsonView>,
    cfg: &CrossTurnDedupConfig,
    id: Seq<char>,
    mi: int,
    ci: int,
)
    requires
        cfg.stub@.len() > 0,
        answer_at(deduped(messages, cfg).0, id, mi, ci),
        !stubbed(held(block_at(deduped(messages, cfg).0, mi, ci)->0, "content"@), cfg.stub@),
    ensures
        ({
            let after = deduped(messages, cfg).0;
            let content = held(block_at(after, mi, ci)->0, "content"@);
            &&& !asked_again(after, cfg, id)
            &&& content matches JsonView::String(text) ==> !outgrown(after, cfg, id, text) && (
            said_again(after, cfg, id, text) ==> cleared(content) || size(
                left_of(cfg.stub@, content),
            ) >= size(content))
        }),
{
    let after = deduped(messages, cfg).0;
    let b = block_at(after, mi, ci)->0;
    let content = held(b, "content"@);
    lemma_all_settled(messages, cfg, mi, ci);
    law_stands_for(after, id, mi, ci);
    law_terms(b, "content"@, content, cfg.stub@);
    law_marker(cfg.stub@, content);
    lemma_asked_again(after, cfg, id);
    if let JsonView::String(text) = content {
        lemma_outgrown(after, cfg, id, text);
        lemma_said_again(after, cfg, id, text);
    }
}

} // verus!
