//! What deduplication keeps: of results that say the same, one stays.

use super::cross_turn_dedup::{
    after_all, calls, deduped, echo_edit, echo_rule, echoed, extend_edit, extend_rule, extended,
    input_at, last_to_ask, name_at, output_at, repeat_edit, repeat_rule, repeated, result_site,
    same_ask, takes_part,
};
use super::{bears_stub, lemma_marker_bears, marker, member_or_null, text_len};
use crate::config::CrossTurnDedupConfig;
use crate::json::JsonView;
use crate::pairing::{block_at, blocks_of, has_type, id_at, lemma_positions, positions, stands_for};
use crate::rewrite::{
    law_pairing_kept, law_shape_kept, lemma_block_at, lemma_only_sets_keeps_ids, lemma_role_kept,
    lemma_set_keeps_ids, lemma_settled, only_sets, rewrite, Rule,
};
use crate::sites::{lemma_sites, lemma_sites_agree};
use crate::text::begins;
use vstd::prelude::*;

verus! {

/// Whether a call is the last to ask what an earlier one asks that names an id.
pub open spec fn asked_last(
    messages: Seq<JsonView>,
    cfg: &CrossTurnDedupConfig,
    id: Seq<char>,
    i: int,
    j: int,
) -> bool {
    let s = calls(messages, cfg);
    &&& 0 <= i < j < s.len()
    &&& id_at(messages, s[i]) == Some(id)
    &&& same_ask(messages, s[i], s[j])
    &&& last_to_ask(messages, cfg, j)
}

/// A call that is the last to ask what it asks is not taken for repeated, unless its id stands for
/// another question too.
proof fn lemma_not_repeated(messages: Seq<JsonView>, cfg: &CrossTurnDedupConfig, j: int)
    requires
        0 <= j < calls(messages, cfg).len(),
        last_to_ask(messages, cfg, j),
        asks_one_thing(messages, cfg, j),
    ensures
        !repeated(messages, cfg, id_at(messages, calls(messages, cfg)[j])->0),
{
    let s = calls(messages, cfg);
    let id = id_at(messages, s[j])->0;
    lemma_named(messages, cfg, j);
    if repeated(messages, cfg, id) {
        let (a, b) = choose|a: int, b: int|
            0 <= a < b < s.len() && id_at(messages, #[trigger] s[a]) == Some(id) && id_at(
                messages,
                #[trigger] s[b],
            ) != Some(id) && same_ask(messages, s[a], s[b]) && last_to_ask(messages, cfg, b);
        assert(same_ask(messages, s[j], s[a]));
        if b < j {
            assert(!same_ask(messages, s[b], s[j]));
        }
        if j < b {
            assert(!same_ask(messages, s[j], s[b]));
        }
    }
}

/// Of calls that ask the same of the same tool, the last keeps its result: where the result for an
/// id is elided because a call that names the id is repeated, there is a later one that asks the
/// same and that none repeats, and its result stays unless its id stands for another question too.
pub proof fn law_last_repeat_kept(
    messages: Seq<JsonView>,
    cfg: &CrossTurnDedupConfig,
    id: Seq<char>,
)
    requires
        repeated(messages, cfg, id),
    ensures
        exists|i: int, j: int| #[trigger]
            asked_last(messages, cfg, id, i, j) && (asks_one_thing(messages, cfg, j) ==> !repeated(
                messages,
                cfg,
                id_at(messages, calls(messages, cfg)[j])->0,
            )),
{
    let s = calls(messages, cfg);
    let (i, j) = choose|i: int, j: int|
        0 <= i < j < s.len() && id_at(messages, #[trigger] s[i]) == Some(id) && id_at(
            messages,
            #[trigger] s[j],
        ) != Some(id) && same_ask(messages, s[i], s[j]) && last_to_ask(messages, cfg, j);
    assert(asked_last(messages, cfg, id, i, j));
    if asks_one_thing(messages, cfg, j) {
        lemma_not_repeated(messages, cfg, j);
    }
}

/// Whether all calls that name the id of a call ask the same as it.
pub open spec fn asks_one_thing(
    messages: Seq<JsonView>,
    cfg: &CrossTurnDedupConfig,
    j: int,
) -> bool {
    let s = calls(messages, cfg);
    forall|k: int|
        0 <= k < s.len() && id_at(messages, #[trigger] s[k]) == id_at(messages, s[j]) ==> same_ask(
            messages,
            s[j],
            s[k],
        )
}

/// A call that takes part names an id.
proof fn lemma_named(messages: Seq<JsonView>, cfg: &CrossTurnDedupConfig, i: int)
    requires
        0 <= i < calls(messages, cfg).len(),
    ensures
        id_at(messages, calls(messages, cfg)[i]) is Some,
{
    lemma_sites(messages, |mi: int, ci: int, b: JsonView| takes_part(messages, cfg, mi, ci, b));
}

/// A beginning of a beginning is a beginning.
proof fn lemma_begins_trans(a: Seq<char>, b: Seq<char>, c: Seq<char>)
    requires
        begins(b, a),
        begins(c, b),
    ensures
        begins(c, a),
{
    assert(c.take(a.len() as int) =~= b.take(a.len() as int));
}

/// Whether no two calls that take part name one id.
pub open spec fn ids_differ(messages: Seq<JsonView>, cfg: &CrossTurnDedupConfig) -> bool {
    let s = calls(messages, cfg);
    forall|i: int, j: int|
        0 <= i < s.len() && 0 <= j < s.len() && id_at(messages, #[trigger] s[i]) == id_at(
            messages,
            #[trigger] s[j],
        ) ==> i == j
}

/// Nothing is lost with a text that a later one begins with: where one is elided for that, there
/// is a later one of the same tool that begins with it and stays.
pub proof fn law_longest_of_tool_kept(
    messages: Seq<JsonView>,
    cfg: &CrossTurnDedupConfig,
    i: int,
    text: Seq<char>,
)
    requires
        ids_differ(messages, cfg),
        0 <= i < calls(messages, cfg).len(),
        extended(messages, cfg, id_at(messages, calls(messages, cfg)[i])->0, text),
    ensures
        exists|j: int, t: Seq<char>|
            i < j < calls(messages, cfg).len() && #[trigger] gives(messages, cfg, j, t)
                && !extended(messages, cfg, id_at(messages, calls(messages, cfg)[j])->0, t)
                && name_at(messages, calls(messages, cfg)[j]) == name_at(
                messages,
                calls(messages, cfg)[i],
            ) && begins(t, text),
    decreases calls(messages, cfg).len() - i,
{
    let s = calls(messages, cfg);
    lemma_named(messages, cfg, i);
    let id = id_at(messages, s[i])->0;
    let (a, j) = choose|a: int, j: int|
        0 <= a < j < s.len() && id_at(messages, #[trigger] s[a]) == Some(id) && name_at(
            messages,
            #[trigger] s[j],
        ) == name_at(messages, s[a]) && (output_at(messages, cfg, s[j]) matches Some(t) && t.len()
            > text.len() && begins(t, text));
    assert(a == i);
    let t = output_at(messages, cfg, s[j])->0;
    assert(gives(messages, cfg, j, t));
    if extended(messages, cfg, id_at(messages, s[j])->0, t) {
        law_longest_of_tool_kept(messages, cfg, j, t);
        let (k, u) = choose|k: int, u: Seq<char>|
            j < k < s.len() && #[trigger] gives(messages, cfg, k, u) && !extended(
                messages,
                cfg,
                id_at(messages, s[k])->0,
                u,
            ) && name_at(messages, s[k]) == name_at(messages, s[j]) && begins(u, t);
        lemma_begins_trans(text, t, u);
        assert(gives(messages, cfg, k, u));
    }
}

/// Whether a call gave a text.
pub open spec fn gives(
    messages: Seq<JsonView>,
    cfg: &CrossTurnDedupConfig,
    j: int,
    text: Seq<char>,
) -> bool {
    output_at(messages, cfg, calls(messages, cfg)[j]) == Some(text)
}

/// Among the first calls there is one whose text begins with a text and is the longest such, if
/// there is any.
proof fn lemma_longest(
    messages: Seq<JsonView>,
    cfg: &CrossTurnDedupConfig,
    text: Seq<char>,
    n: int,
) -> (r: Option<int>)
    requires
        0 <= n <= calls(messages, cfg).len(),
    ensures
        match r {
            Some(j) => 0 <= j < n && (output_at(messages, cfg, calls(messages, cfg)[j]) matches Some(
                t,
            ) && begins(t, text) && forall|k: int, u: Seq<char>|
                0 <= k < n && #[trigger] gives(messages, cfg, k, u) && begins(u, text) ==> u.len()
                    <= t.len()),
            None => forall|k: int, u: Seq<char>|
                0 <= k < n && #[trigger] gives(messages, cfg, k, u) ==> !begins(u, text),
        },
    decreases n,
{
    if n == 0 {
        None
    } else {
        let s = calls(messages, cfg);
        let r = lemma_longest(messages, cfg, text, n - 1);
        match output_at(messages, cfg, s[n - 1]) {
            Some(t) => if begins(t, text) && (r matches Some(j) ==> output_at(
                messages,
                cfg,
                s[j],
            )->0.len() <= t.len()) {
                Some(n - 1)
            } else {
                r
            },
            None => r,
        }
    }
}

/// Nothing is lost with a text that a later one begins with, whichever calls share an id: where
/// one is elided for that, there is a longer text that begins with it and stays.
pub proof fn law_longest_kept(
    messages: Seq<JsonView>,
    cfg: &CrossTurnDedupConfig,
    id: Seq<char>,
    text: Seq<char>,
)
    requires
        extended(messages, cfg, id, text),
    ensures
        exists|j: int, t: Seq<char>|
            0 <= j < calls(messages, cfg).len() && #[trigger] gives(messages, cfg, j, t)
                && !extended(messages, cfg, id_at(messages, calls(messages, cfg)[j])->0, t)
                && begins(t, text) && t.len() > text.len(),
{
    let s = calls(messages, cfg);
    let (i, j) = choose|i: int, j: int|
        0 <= i < j < s.len() && id_at(messages, #[trigger] s[i]) == Some(id) && name_at(
            messages,
            #[trigger] s[j],
        ) == name_at(messages, s[i]) && (output_at(messages, cfg, s[j]) matches Some(t) && t.len()
            > text.len() && begins(t, text));
    assert(gives(messages, cfg, j, output_at(messages, cfg, s[j])->0));
    let found = lemma_longest(messages, cfg, text, s.len() as int);
    let m = found->0;
    let t = output_at(messages, cfg, s[m])->0;
    let other = id_at(messages, s[m])->0;
    assert(gives(messages, cfg, m, t));
    if extended(messages, cfg, other, t) {
        let (a, b) = choose|a: int, b: int|
            0 <= a < b < s.len() && id_at(messages, #[trigger] s[a]) == Some(other) && name_at(
                messages,
                #[trigger] s[b],
            ) == name_at(messages, s[a]) && (output_at(messages, cfg, s[b]) matches Some(u)
                && u.len() > t.len() && begins(u, t));
        let u = output_at(messages, cfg, s[b])->0;
        lemma_begins_trans(text, t, u);
        assert(gives(messages, cfg, b, u));
    }
}

/// Of results that hold the same text, the last stays: where one is elided for that, there is
/// another with the text that no later one repeats.
pub proof fn law_last_echo_kept(
    messages: Seq<JsonView>,
    cfg: &CrossTurnDedupConfig,
    i: int,
    text: Seq<char>,
)
    requires
        0 <= i < calls(messages, cfg).len(),
        echoed(messages, cfg, id_at(messages, calls(messages, cfg)[i])->0, text),
    ensures
        exists|j: int|
            0 <= j < calls(messages, cfg).len() && #[trigger] gives(messages, cfg, j, text)
                && !echoed(messages, cfg, id_at(messages, calls(messages, cfg)[j])->0, text),
    decreases
            messages.len() - result_site(messages, calls(messages, cfg)[i]).0,
            calls(messages, cfg).len() - i,
{
    let s = calls(messages, cfg);
    lemma_named(messages, cfg, i);
    let id = id_at(messages, s[i])->0;
    let (a, j) = choose|a: int, j: int|
        0 <= a < s.len() && 0 <= j < s.len() && id_at(messages, #[trigger] s[a]) == Some(id)
            && id_at(messages, #[trigger] s[j]) != Some(id) && output_at(messages, cfg, s[j])
            == Some(text) && (result_site(messages, s[j]).0 > result_site(messages, s[a]).0 || (
        result_site(messages, s[j]).0 == result_site(messages, s[a]).0 && after_all(
            messages,
            cfg,
            id,
            j,
        )));
    assert(result_site(messages, s[a]) == result_site(messages, s[i]));
    assert(gives(messages, cfg, j, text));
    if echoed(messages, cfg, id_at(messages, s[j])->0, text) {
        lemma_result_in(messages, cfg, j);
        if after_all(messages, cfg, id, j) {
            assert(id_at(messages, s[i]) == Some(id));
            assert(i < j);
        }
        law_last_echo_kept(messages, cfg, j, text);
    }
}

/// The result of a call that takes part stands in the transcript.
proof fn lemma_result_in(messages: Seq<JsonView>, cfg: &CrossTurnDedupConfig, i: int)
    requires
        0 <= i < calls(messages, cfg).len(),
    ensures
        0 <= result_site(messages, calls(messages, cfg)[i]).0 < messages.len(),
{
    let p = calls(messages, cfg)[i];
    lemma_sites(messages, |mi: int, ci: int, b: JsonView| takes_part(messages, cfg, mi, ci, b));
    let call = block_at(messages, p.0, p.1)->0;
    let id = call.get_str("id"@)->0;
    lemma_positions(messages, true, id);
}

/// Whether a block is another, or that one with its content elided.
spec fn same_or_stubbed(a: JsonView, b: JsonView, stub: Seq<char>) -> bool {
    let content = member_or_null(a, "content"@);
    b == a || (has_type(a, "tool_result"@) && !bears_stub(content, stub) && b == a.with(
        "content"@,
        marker(stub, content),
    ))
}

/// Whether a transcript is another in which the content of some results is elided.
spec fn stubs_to(x: Seq<JsonView>, y: Seq<JsonView>, cfg: &CrossTurnDedupConfig) -> bool {
    &&& x.len() == y.len()
    &&& positions(x, false) == positions(y, false)
    &&& positions(x, true) == positions(y, true)
    &&& forall|mi: int|
        0 <= mi < x.len() ==> (#[trigger] y[mi]).get_str("role"@) == x[mi].get_str("role"@)
    &&& forall|mi: int, ci: int|
        match (block_at(x, mi, ci), #[trigger] block_at(y, mi, ci)) {
            (Some(a), Some(b)) => same_or_stubbed(a, b, cfg.stub@),
            (None, None) => true,
            _ => false,
        }
}

/// Whether all that a rule does is to elide the content of results that bear no stub.
spec fn only_stubs(rule: Rule, cfg: &CrossTurnDedupConfig) -> bool {
    forall|mi: int, ci: int, b: JsonView|
        #![trigger rule(mi, ci, b)]
        match rule(mi, ci, b) {
            Some(new) => has_type(b, "tool_result"@) && !bears_stub(
                member_or_null(b, "content"@),
                cfg.stub@,
            ) && new == b.with("content"@, marker(cfg.stub@, member_or_null(b, "content"@))),
            None => true,
        }
}

proof fn lemma_step_stubs(x: Seq<JsonView>, rule: Rule, cfg: &CrossTurnDedupConfig)
    requires
        only_stubs(rule, cfg),
    ensures
        stubs_to(x, rewrite(x, rule), cfg),
{
    let y = rewrite(x, rule);
    assert(only_sets(rule, "tool_result"@, "content"@)) by {
        assert forall|mi: int, ci: int, b: JsonView| #![trigger rule(mi, ci, b)]
            rule(mi, ci, b) is Some implies (rule(mi, ci, b)->0).get("content"@) is Some by {}
    }
    lemma_only_sets_keeps_ids(rule, "tool_result"@, "content"@);
    law_pairing_kept(x, rule);
    assert forall|mi: int| 0 <= mi < x.len() implies (#[trigger] y[mi]).get_str("role"@)
        == x[mi].get_str("role"@) by {
        lemma_role_kept(x, rule, mi);
    }
    assert forall|mi: int, ci: int|
        match (block_at(x, mi, ci), #[trigger] block_at(y, mi, ci)) {
            (Some(a), Some(b)) => same_or_stubbed(a, b, cfg.stub@),
            (None, None) => true,
            _ => false,
        } by {
        lemma_block_at(x, rule, mi, ci);
    }
}

proof fn lemma_stubs_trans(
    x: Seq<JsonView>,
    y: Seq<JsonView>,
    z: Seq<JsonView>,
    cfg: &CrossTurnDedupConfig,
)
    requires
        stubs_to(x, y, cfg),
        stubs_to(y, z, cfg),
        cfg.stub@.len() > 0,
    ensures
        stubs_to(x, z, cfg),
{
    assert forall|mi: int| 0 <= mi < x.len() implies (#[trigger] z[mi]).get_str("role"@)
        == x[mi].get_str("role"@) by {
        assert(y[mi].get_str("role"@) == x[mi].get_str("role"@));
    }
    assert forall|mi: int, ci: int|
        match (block_at(x, mi, ci), #[trigger] block_at(z, mi, ci)) {
            (Some(a), Some(b)) => same_or_stubbed(a, b, cfg.stub@),
            (None, None) => true,
            _ => false,
        } by {
        assert(block_at(y, mi, ci) is Some <==> block_at(x, mi, ci) is Some);
        if let Some(a) = block_at(x, mi, ci) {
            lemma_marker_bears(cfg.stub@, member_or_null(a, "content"@));
        }
    }
}

/// What an elision leaves as it is: which calls take part, whom and what they ask, where their
/// results stand, and any text that is still there.
proof fn lemma_stubs_calls(x: Seq<JsonView>, y: Seq<JsonView>, cfg: &CrossTurnDedupConfig)
    requires
        stubs_to(x, y, cfg),
        cfg.stub@.len() > 0,
    ensures
        calls(y, cfg) == calls(x, cfg),
        forall|i: int|
            0 <= i < calls(x, cfg).len() ==> {
                let p = #[trigger] calls(x, cfg)[i];
                &&& id_at(y, p) == id_at(x, p)
                &&& name_at(y, p) == name_at(x, p)
                &&& input_at(y, p) == input_at(x, p)
                &&& result_site(y, p) == result_site(x, p)
                &&& output_at(y, cfg, p) matches Some(t) ==> output_at(x, cfg, p) == Some(t)
            },
{
    let f = |mi: int, ci: int, b: JsonView| takes_part(y, cfg, mi, ci, b);
    let g = |mi: int, ci: int, b: JsonView| takes_part(x, cfg, mi, ci, b);
    reveal_strlit("tool_use");
    reveal_strlit("tool_result");
    assert("tool_use"@.len() == 8 && "tool_result"@.len() == 11);
    assert forall|mi: int, ci: int|
        match (#[trigger] block_at(y, mi, ci), block_at(x, mi, ci)) {
            (Some(a), Some(b)) => f(mi, ci, a) == g(mi, ci, b) && (has_type(b, "tool_use"@) ==> a
                == b),
            (None, None) => true,
            _ => false,
        } by {
        if let Some(b) = block_at(x, mi, ci) {
            lemma_set_keeps_ids(b, "content"@, marker(cfg.stub@, member_or_null(b, "content"@)));
            assert(y[mi].get_str("role"@) == x[mi].get_str("role"@));
        }
    }
    lemma_sites_agree(y, f, x, g);
    lemma_sites(x, g);
    let s = calls(x, cfg);
    assert forall|i: int| 0 <= i < s.len() implies {
        let p = #[trigger] s[i];
        &&& id_at(y, p) == id_at(x, p)
        &&& name_at(y, p) == name_at(x, p)
        &&& input_at(y, p) == input_at(x, p)
        &&& result_site(y, p) == result_site(x, p)
        &&& output_at(y, cfg, p) matches Some(t) ==> output_at(x, cfg, p) == Some(t)
    } by {
        let p = s[i];
        assert(block_at(y, p.0, p.1) == block_at(x, p.0, p.1));
        let q = result_site(x, p);
        assert(block_at(y, q.0, q.1) is Some <==> block_at(x, q.0, q.1) is Some);
        if let Some(a) = block_at(x, q.0, q.1) {
            lemma_marker_bears(cfg.stub@, member_or_null(a, "content"@));
        }
    }
}

/// Which calls come last is the same after an elision.
proof fn lemma_stubs_last(
    x: Seq<JsonView>,
    y: Seq<JsonView>,
    cfg: &CrossTurnDedupConfig,
    id: Seq<char>,
    j: int,
)
    requires
        stubs_to(x, y, cfg),
        cfg.stub@.len() > 0,
        0 <= j < calls(x, cfg).len(),
    ensures
        last_to_ask(y, cfg, j) == last_to_ask(x, cfg, j),
        after_all(y, cfg, id, j) == after_all(x, cfg, id, j),
{
    let s = calls(x, cfg);
    lemma_stubs_calls(x, y, cfg);
    assert forall|k: int| 0 <= k < s.len() implies same_ask(y, s[j], #[trigger] s[k]) == same_ask(
        x,
        s[j],
        s[k],
    ) && id_at(y, s[k]) == id_at(x, s[k]) by {
        assert(name_at(y, s[j]) == name_at(x, s[j]));
        assert(name_at(y, s[k]) == name_at(x, s[k]));
    }
}

/// What is still extended, or still echoed, was so before.
proof fn lemma_stubs_back(
    x: Seq<JsonView>,
    y: Seq<JsonView>,
    cfg: &CrossTurnDedupConfig,
    id: Seq<char>,
    text: Seq<char>,
)
    requires
        stubs_to(x, y, cfg),
        cfg.stub@.len() > 0,
    ensures
        repeated(y, cfg, id) == repeated(x, cfg, id),
        extended(y, cfg, id, text) ==> extended(x, cfg, id, text),
        echoed(y, cfg, id, text) ==> echoed(x, cfg, id, text),
{
    let s = calls(x, cfg);
    lemma_stubs_calls(x, y, cfg);
    if repeated(x, cfg, id) {
        let (i, j) = choose|i: int, j: int|
            0 <= i < j < s.len() && id_at(x, #[trigger] s[i]) == Some(id) && id_at(
                x,
                #[trigger] s[j],
            ) != Some(id) && same_ask(x, s[i], s[j]) && last_to_ask(x, cfg, j);
        lemma_stubs_last(x, y, cfg, id, j);
        assert(id_at(y, s[i]) == Some(id) && id_at(y, s[j]) != Some(id));
        assert(same_ask(y, s[i], s[j]));
    }
    if repeated(y, cfg, id) {
        let (i, j) = choose|i: int, j: int|
            0 <= i < j < s.len() && id_at(y, #[trigger] s[i]) == Some(id) && id_at(
                y,
                #[trigger] s[j],
            ) != Some(id) && same_ask(y, s[i], s[j]) && last_to_ask(y, cfg, j);
        lemma_stubs_last(x, y, cfg, id, j);
        assert(id_at(x, s[i]) == Some(id) && id_at(x, s[j]) != Some(id));
        assert(same_ask(x, s[i], s[j]));
    }
    if extended(y, cfg, id, text) {
        let (i, j) = choose|i: int, j: int|
            0 <= i < j < s.len() && id_at(y, #[trigger] s[i]) == Some(id) && name_at(
                y,
                #[trigger] s[j],
            ) == name_at(y, s[i]) && (output_at(y, cfg, s[j]) matches Some(t) && t.len()
                > text.len() && begins(t, text));
        assert(id_at(x, s[i]) == Some(id));
        assert(name_at(x, s[j]) == name_at(x, s[i]));
        assert(output_at(x, cfg, s[j]) == output_at(y, cfg, s[j]));
    }
    if echoed(y, cfg, id, text) {
        let (i, j) = choose|i: int, j: int|
            0 <= i < s.len() && 0 <= j < s.len() && id_at(y, #[trigger] s[i]) == Some(id) && id_at(
                y,
                #[trigger] s[j],
            ) != Some(id) && output_at(y, cfg, s[j]) == Some(text) && (result_site(y, s[j]).0
                > result_site(y, s[i]).0 || (result_site(y, s[j]).0 == result_site(y, s[i]).0
                && after_all(y, cfg, id, j)));
        lemma_stubs_last(x, y, cfg, id, j);
        assert(id_at(x, s[i]) == Some(id) && id_at(x, s[j]) != Some(id));
        assert(output_at(x, cfg, s[j]) == Some(text));
        assert(result_site(x, s[j]) == result_site(y, s[j]) && result_site(x, s[i]) == result_site(
            y,
            s[i],
        ));
    }
}

/// No step finds anything in what the steps made.
pub proof fn lemma_all_settled(
    messages: Seq<JsonView>,
    cfg: &CrossTurnDedupConfig,
    mi: int,
    ci: int,
)
    requires
        cfg.stub@.len() > 0,
        block_at(deduped(messages, cfg).0, mi, ci) is Some,
    ensures
        ({
            let after = deduped(messages, cfg).0;
            let b = block_at(after, mi, ci)->0;
            &&& repeat_edit(after, cfg, mi, ci, b) is None
            &&& extend_edit(after, cfg, mi, ci, b) is None
            &&& echo_edit(after, cfg, mi, ci, b) is None
        }),
{
    let m0 = messages;
    let r0 = repeat_rule(m0, cfg);
    let m1 = rewrite(m0, r0);
    let r1 = extend_rule(m1, cfg);
    let m2 = rewrite(m1, r1);
    let r2 = echo_rule(m2, cfg);
    let m3 = rewrite(m2, r2);
    lemma_step_stubs(m0, r0, cfg);
    lemma_step_stubs(m1, r1, cfg);
    lemma_step_stubs(m2, r2, cfg);
    lemma_stubs_trans(m1, m2, m3, cfg);
    lemma_stubs_trans(m0, m1, m3, cfg);
    lemma_settled_block(m0, m1, m2, m3, cfg, mi, ci);
}

/// To deduplicate again changes nothing.
pub proof fn law_deduped_once(messages: Seq<JsonView>, cfg: &CrossTurnDedupConfig)
    requires
        cfg.stub@.len() > 0,
    ensures
        ({
            let once = deduped(messages, cfg).0;
            &&& deduped(once, cfg).0 == once
            &&& deduped(once, cfg).1 == 0
        }),
{
    let m0 = messages;
    let r0 = repeat_rule(m0, cfg);
    let m1 = rewrite(m0, r0);
    let r1 = extend_rule(m1, cfg);
    let m2 = rewrite(m1, r1);
    let r2 = echo_rule(m2, cfg);
    let m3 = rewrite(m2, r2);
    lemma_step_stubs(m0, r0, cfg);
    lemma_step_stubs(m1, r1, cfg);
    lemma_step_stubs(m2, r2, cfg);
    lemma_stubs_trans(m1, m2, m3, cfg);
    lemma_stubs_trans(m0, m1, m3, cfg);
    assert forall|mi: int, ci: int| #![trigger block_at(m3, mi, ci)]
        block_at(m3, mi, ci) is Some implies repeat_rule(m3, cfg)(
        mi,
        ci,
        block_at(m3, mi, ci)->0,
    ) is None && extend_rule(m3, cfg)(mi, ci, block_at(m3, mi, ci)->0) is None && echo_rule(
        m3,
        cfg,
    )(mi, ci, block_at(m3, mi, ci)->0) is None by {
        lemma_settled_block(m0, m1, m2, m3, cfg, mi, ci);
    }
    lemma_settled(m3, repeat_rule(m3, cfg));
    lemma_settled(m3, extend_rule(m3, cfg));
    lemma_settled(m3, echo_rule(m3, cfg));
}

proof fn lemma_settled_block(
    m0: Seq<JsonView>,
    m1: Seq<JsonView>,
    m2: Seq<JsonView>,
    m3: Seq<JsonView>,
    cfg: &CrossTurnDedupConfig,
    mi: int,
    ci: int,
)
    requires
        cfg.stub@.len() > 0,
        m1 == rewrite(m0, repeat_rule(m0, cfg)),
        m2 == rewrite(m1, extend_rule(m1, cfg)),
        m3 == rewrite(m2, echo_rule(m2, cfg)),
        stubs_to(m0, m1, cfg),
        stubs_to(m1, m2, cfg),
        stubs_to(m2, m3, cfg),
        stubs_to(m1, m3, cfg),
        stubs_to(m0, m3, cfg),
        block_at(m3, mi, ci) is Some,
    ensures
        ({
            let b = block_at(m3, mi, ci)->0;
            &&& repeat_edit(m3, cfg, mi, ci, b) is None
            &&& extend_edit(m3, cfg, mi, ci, b) is None
            &&& echo_edit(m3, cfg, mi, ci, b) is None
        }),
{
    let b = block_at(m3, mi, ci)->0;
    let content = member_or_null(b, "content"@);
    lemma_block_at(m0, repeat_rule(m0, cfg), mi, ci);
    lemma_block_at(m1, extend_rule(m1, cfg), mi, ci);
    lemma_block_at(m2, echo_rule(m2, cfg), mi, ci);
    if !bears_stub(content, cfg.stub@) {
        let b0 = block_at(m0, mi, ci)->0;
        let b1 = block_at(m1, mi, ci)->0;
        let b2 = block_at(m2, mi, ci)->0;
        assert(b0 == b && b1 == b && b2 == b) by {
            lemma_marker_bears(cfg.stub@, member_or_null(b0, "content"@));
            lemma_marker_bears(cfg.stub@, member_or_null(b1, "content"@));
            lemma_marker_bears(cfg.stub@, member_or_null(b2, "content"@));
        }
        if let Some(id) = stands_for(m3, mi, ci, b) {
            let text = match content.as_str() {
                Some(t) => t,
                None => Seq::empty(),
            };
            lemma_stubs_back(m0, m3, cfg, id, text);
            lemma_stubs_back(m1, m3, cfg, id, text);
            lemma_stubs_back(m2, m3, cfg, id, text);
            assert(repeat_edit(m0, cfg, mi, ci, b) is None) by {
                lemma_changed(b, marker(cfg.stub@, content), content, cfg.stub@);
            }
            assert(extend_edit(m1, cfg, mi, ci, b) is None) by {
                lemma_changed(b, marker(cfg.stub@, content), content, cfg.stub@);
            }
            assert(echo_edit(m2, cfg, mi, ci, b) is None) by {
                lemma_changed(b, marker(cfg.stub@, content), content, cfg.stub@);
            }
        }
    }
}

/// A block whose content is elided is another.
proof fn lemma_changed(b: JsonView, new: JsonView, content: JsonView, stub: Seq<char>)
    requires
        stub.len() > 0,
        has_type(b, "tool_result"@),
        content == member_or_null(b, "content"@),
        new == marker(stub, content),
        !bears_stub(content, stub),
    ensures
        b.with("content"@, new) != b,
{
    lemma_marker_bears(stub, content);
    assert(b.with("content"@, new).get("content"@) == Some(new));
}

/// Whether a result is made redundant: what was asked under its id was asked again later, or a later
/// call to the same tool gave the same and more, or a call under another id gave the same later.
pub open spec fn redundant(
    messages: Seq<JsonView>,
    cfg: &CrossTurnDedupConfig,
    mi: int,
    ci: int,
    block: JsonView,
) -> bool {
    match stands_for(messages, mi, ci, block) {
        Some(id) => repeated(messages, cfg, id) || (member_or_null(
            block,
            "content"@,
        ).as_str() matches Some(text) && (extended(messages, cfg, id, text) || echoed(
            messages,
            cfg,
            id,
            text,
        ))),
        None => false,
    }
}

/// Over the whole run, a block either stays or is a result that was redundant in the transcript as
/// it came, and then only its content changes, to a marker.
pub proof fn law_only_redundant_goes(
    messages: Seq<JsonView>,
    cfg: &CrossTurnDedupConfig,
    mi: int,
    ci: int,
)
    requires
        cfg.stub@.len() > 0,
    ensures
        match (block_at(messages, mi, ci), block_at(deduped(messages, cfg).0, mi, ci)) {
            (Some(a), Some(b)) => a == b || (redundant(messages, cfg, mi, ci, a) && has_type(
                a,
                "tool_result"@,
            ) && b == a.with("content"@, marker(cfg.stub@, member_or_null(a, "content"@)))),
            (None, None) => true,
            _ => false,
        },
{
    let m0 = messages;
    let m1 = rewrite(m0, repeat_rule(m0, cfg));
    let m2 = rewrite(m1, extend_rule(m1, cfg));
    lemma_step_stubs(m0, repeat_rule(m0, cfg), cfg);
    lemma_step_stubs(m1, extend_rule(m1, cfg), cfg);
    lemma_stubs_trans(m0, m1, m2, cfg);
    lemma_block_at(m0, repeat_rule(m0, cfg), mi, ci);
    lemma_block_at(m1, extend_rule(m1, cfg), mi, ci);
    lemma_block_at(m2, echo_rule(m2, cfg), mi, ci);
    if let Some(a) = block_at(m0, mi, ci) {
        let content = member_or_null(a, "content"@);
        lemma_marker_bears(cfg.stub@, content);
        if let Some(id) = stands_for(m0, mi, ci, a) {
            if let Some(text) = content.as_str() {
                lemma_stubs_back(m0, m1, cfg, id, text);
                lemma_stubs_back(m0, m2, cfg, id, text);
            }
        }
    }
}

/// The run neither adds nor removes messages or blocks, and leaves every member of a message but
/// its content as it is.
pub proof fn law_deduped_shape(messages: Seq<JsonView>, cfg: &CrossTurnDedupConfig, mi: int)
    requires
        0 <= mi < messages.len(),
    ensures
        ({
            let after = deduped(messages, cfg).0;
            &&& after.len() == messages.len()
            &&& blocks_of(after[mi]).len() == blocks_of(messages[mi]).len()
            &&& forall|key: Seq<char>|
                key != "content"@ ==> #[trigger] after[mi].get(key) == messages[mi].get(key)
        }),
{
    let m1 = rewrite(messages, repeat_rule(messages, cfg));
    let m2 = rewrite(m1, extend_rule(m1, cfg));
    law_shape_kept(messages, repeat_rule(messages, cfg), mi);
    law_shape_kept(m1, extend_rule(m1, cfg), mi);
    law_shape_kept(m2, echo_rule(m2, cfg), mi);
}

/// What takes the place of a text that comes again is smaller than the text.
pub proof fn law_echo_shrinks(
    messages: Seq<JsonView>,
    cfg: &CrossTurnDedupConfig,
    mi: int,
    ci: int,
    block: JsonView,
)
    ensures
        echo_edit(messages, cfg, mi, ci, block) matches Some(new) ==> text_len(
            new.get("content"@)->0,
        ) < text_len(block.get("content"@)->0),
{
}

} // verus!
