//! The probe: where the facts are planted in its text, and what a summary is asked to keep.

use crate::json::JsonView;
use crate::summarizer::probe::{
    count_kept, fact_bucket, fact_in_turn, fact_turn, facts_in, noise, probe_messages,
    repeated_text, Bucket, PROBE_FACTS,
};
use crate::text::decimal;
use vstd::prelude::*;

verus! {

/// The facts are spread evenly: the first is planted in the first turn, the last in the last, and the
/// `i`th as many parts in eleven of the way as it has facts before it.
pub proof fn law_fact_turn(i: int, n_turns: int)
    requires
        0 <= i < 12,
        n_turns > 0,
    ensures
        fact_turn(0, 12, n_turns) == 0,
        fact_turn(11, 12, n_turns) == n_turns - 1,
        11 * fact_turn(i, 12, n_turns) <= i * (n_turns - 1) < 11 * (fact_turn(i, 12, n_turns) + 1),
{
    let x = i * (n_turns - 1);
    assert(11 * (x / 11) <= x < 11 * (x / 11 + 1)) by (nonlinear_arith);
    assert(0 * (n_turns - 1) / 11 == 0);
    assert(11 * (n_turns - 1) / 11 == n_turns - 1);
}

proof fn lemma_fact_in_turn(t: int, n_turns: int, k: int, i: int)
    requires
        0 <= k,
    ensures
        fact_in_turn(t, n_turns, k) == Some(i) <==> 0 <= i < k && fact_turn(i, 12, n_turns) == t
            && forall|j: int| i < j < k ==> #[trigger] fact_turn(j, 12, n_turns) != t,
        fact_in_turn(t, n_turns, k) is None <==> forall|j: int|
            0 <= j < k ==> #[trigger] fact_turn(j, 12, n_turns) != t,
    decreases k,
{
    if k > 0 {
        lemma_fact_in_turn(t, n_turns, k - 1, i);
        let last = fact_turn(k - 1, 12, n_turns);
    }
}

/// Whether a message is of one block by someone.
pub open spec fn holds_only(m: JsonView, role: Seq<char>, b: JsonView) -> bool {
    m.get("role"@) == Some(JsonView::String(role)) && m.get("content"@) == Some(
        JsonView::Array(seq![b]),
    )
}

/// What a result of the probe is filled up with.
pub open spec fn filling() -> Seq<char> {
    let line = "    debug: irrelevant trace line that should be summarized away\n"@;
    line + line + line + line + line + line
}

/// A turn of the probe is a call of the assistant and its result. Where facts are planted in the
/// turn the result begins with the last of them, else with a word of no interest; noise follows.
pub proof fn law_probe_turn(t: int, n_turns: int, i: int)
    requires
        0 <= t < n_turns,
    ensures
        ({
            let call = probe_messages(n_turns)[2 * t].get_array("content"@)->0[0];
            let result = probe_messages(n_turns)[2 * t + 1].get_array("content"@)->0[0];
            let id = "t"@ + decimal(t as nat);
            let planted = 0 <= i < 12 && fact_turn(i, 12, n_turns) == t && forall|j: int|
                i < j < 12 ==> #[trigger] fact_turn(j, 12, n_turns) != t;
            let bare = forall|j: int| 0 <= j < 12 ==> #[trigger] fact_turn(j, 12, n_turns) != t;
            &&& probe_messages(n_turns).len() == 2 * n_turns
            &&& holds_only(probe_messages(n_turns)[2 * t], "assistant"@, call)
            &&& holds_only(probe_messages(n_turns)[2 * t + 1], "user"@, result)
            &&& call.get("type"@) == Some(JsonView::String("tool_use"@)) && call.get("id"@) == Some(
                JsonView::String(id),
            ) && call.get("name"@) == Some(JsonView::String("Bash"@))
            &&& result.get("type"@) == Some(JsonView::String("tool_result"@)) && result.get(
                "tool_use_id"@,
            ) == Some(JsonView::String(id))
            &&& planted ==> result.get("content"@) == Some(
                JsonView::String(PROBE_FACTS@[i].2@ + "\n"@ + filling()),
            )
            &&& bare ==> result.get("content"@) == Some(
                JsonView::String("step "@ + decimal(t as nat) + " completed ok\n"@ + filling()),
            )
        }),
{
    lemma_keys();
    lemma_fact_in_turn(t, n_turns, 12, i);
    lemma_filling();
    assert((2 * t) % 2 == 0 && (2 * t + 1) % 2 == 1 && (2 * t) / 2 == t && (2 * t + 1) / 2 == t);
}

proof fn lemma_filling()
    ensures
        noise() == filling(),
{
    let line = "    debug: irrelevant trace line that should be summarized away\n"@;
    reveal_with_fuel(repeated_text, 7);
    assert(noise() =~= filling());
}

proof fn lemma_keys()
    ensures
        "role"@ != "content"@ && "type"@ != "id"@ && "type"@ != "name"@ && "type"@ != "input"@ && "id"@
            != "name"@ && "id"@ != "input"@ && "name"@ != "input"@,
        "type"@ != "tool_use_id"@ && "type"@ != "content"@ && "tool_use_id"@ != "content"@,
{
    reveal_strlit("role");
    reveal_strlit("content");
    reveal_strlit("type");
    reveal_strlit("id");
    reveal_strlit("name");
    reveal_strlit("input");
    reveal_strlit("tool_use_id");
    assert("type"@[0] == 't' && "name"@[0] == 'n' && "role"@.len() == 4 && "content"@.len() == 7
        && "tool_use_id"@.len() == 11 && "id"@.len() == 2 && "input"@.len() == 5 && "type"@.len() == 4
        && "name"@.len() == 4);
}

/// A fact is in the first third, the second, or the last, by the turn in which it is planted; a third
/// is one turn at least.
pub proof fn law_fact_bucket(i: int, n: int, n_turns: int)
    requires
        n_turns >= 0,
    ensures
        ({
            let third = if n_turns < 6 {
                1
            } else {
                n_turns / 3
            };
            let at = fact_turn(i, n, n_turns);
            &&& fact_bucket(i, n, n_turns) == Bucket::Start <==> at < third
            &&& fact_bucket(i, n, n_turns) == Bucket::Mid <==> third <= at < 2 * third
            &&& fact_bucket(i, n, n_turns) == Bucket::End <==> 2 * third <= at
        }),
{
}

/// What was kept is counted among all facts, and those of a third are all that were planted there.
pub proof fn law_kept_counted(facts: Seq<(bool, &'static str, &'static str, Bucket)>, b: Bucket)
    ensures
        count_kept(facts) == facts.filter(
            |f: (bool, &'static str, &'static str, Bucket)| f.0,
        ).len(),
        facts_in(facts, b) == facts.filter(
            |f: (bool, &'static str, &'static str, Bucket)| f.3 == b,
        ),
    decreases facts.len(),
{
    reveal(Seq::filter);
    if facts.len() > 0 {
        law_kept_counted(facts.drop_last(), b);
    }
}

} // verus!
