//! Which messages are summarized, and what of them the summarizer is shown.

use crate::json::{json_text, JsonView};
use crate::strategies::purpose::{said_by, turns_from};
use crate::summarizer::slice::{
    all_starts, any_override, assistants, block_overrides, can_end, can_start, cut, first_override,
    fitting_start, last_within, lemma_assistants, lemma_first_override, lemma_last_within,
    lemma_starts, lemma_turn_back, marks_override, override_cap, overrides, selected, shown,
    shown_block, shown_blocks, shown_len, shown_message, turn_back, OVERRIDE_MARKERS,
};
use crate::text::{decimal, lower, occurs};
use crate::text_laws::{holds_word_in_any_case, law_occurs_in_any_case};
use vstd::prelude::*;

verus! {

/// How many turns are kept: one at least.
pub open spec fn turns_kept(n: nat) -> nat {
    if n == 0 {
        1
    } else {
        n
    }
}

/// Whether `start..end` is what is to be summarized. It begins at the assistant's first message,
/// which follows one of the user, and ends at the last message of the assistant that lies behind
/// that, not behind `max_end`, and with the turns that are kept at it or behind it. It holds four
/// messages at least, and there are two turns more than are kept.
pub open spec fn to_summarize(
    messages: Seq<JsonView>,
    keep: nat,
    max_end: int,
    start: int,
    end: int,
) -> bool {
    &&& turns_from(messages, 0) >= turns_kept(keep) + 2
    &&& said_by(messages, start, "assistant"@)
    &&& forall|j: int| 0 <= j < start ==> !#[trigger] said_by(messages, j, "assistant"@)
    &&& said_by(messages, start - 1, "user"@)
    &&& ends_before_kept(messages, keep, max_end, start, end)
    &&& forall|j: int| end < j && #[trigger] said_by(messages, j, "assistant"@) ==> j > max_end || turns_from(
        messages,
        j,
    ) < turns_kept(keep)
    &&& start + 4 <= end
}

/// Whether a message is one of the assistant behind `start` at which a summary could end.
pub open spec fn ends_before_kept(
    messages: Seq<JsonView>,
    keep: nat,
    max_end: int,
    start: int,
    end: int,
) -> bool {
    said_by(messages, end, "assistant"@) && start < end <= max_end && turns_from(messages, end)
        >= turns_kept(keep)
}

proof fn lemma_turns_at(messages: Seq<JsonView>, mi: int)
    requires
        0 <= mi <= messages.len(),
    ensures
        turns_from(messages, mi) == assistants(messages).len() - assistants(
            messages.take(mi),
        ).len(),
    decreases messages.len() - mi,
{
    if mi < messages.len() {
        lemma_turns_at(messages, mi + 1);
        assert(messages.take(mi + 1).drop_last() =~= messages.take(mi));
        assert(messages.take(mi + 1).last() == messages[mi]);
    } else {
        assert(messages.take(mi) =~= messages);
    }
}

proof fn lemma_assistants_before(messages: Seq<JsonView>, i: int)
    requires
        0 <= i < assistants(messages).len(),
    ensures
        assistants(messages.take(assistants(messages)[i])).len() == i,
        turns_from(messages, assistants(messages)[i]) == assistants(messages).len() - i,
    decreases messages.len(),
{
    let a = assistants(messages);
    let init = messages.drop_last();
    lemma_assistants(messages);
    lemma_assistants(init);
    if i < assistants(init).len() {
        lemma_assistants_before(init, i);
        assert(init.take(a[i]) =~= messages.take(a[i]));
    } else {
        assert(messages.take(a[i]) =~= init);
    }
    lemma_turns_at(messages, a[i]);
}

proof fn lemma_last_within_is_last(a: Seq<int>, low: int, high: int, x: int)
    requires
        forall|i: int, j: int| 0 <= i < j < a.len() ==> #[trigger] a[i] < #[trigger] a[j],
        a.contains(x),
        low < x <= high,
        forall|y: int| #[trigger] a.contains(y) && low < y <= high ==> y <= x,
    ensures
        last_within(a, low, high) == Some(x),
    decreases a.len(),
{
    let k = choose|k: int| 0 <= k < a.len() && a[k] == x;
    assert(a.contains(a[a.len() - 1]));
    if a.last() != x {
        assert(a[k] < a[a.len() - 1]);
        let init = a.drop_last();
        assert(init[k] == x);
        assert(init.contains(x));
        assert forall|y: int| #[trigger] init.contains(y) && low < y <= high implies y <= x by {
            let j = choose|j: int| 0 <= j < init.len() && init[j] == y;
            assert(a[j] == y);
            assert(a.contains(y));
        }
        lemma_last_within_is_last(init, low, high, x);
    }
}

/// What is selected is what is to be summarized; where nothing is, nothing is selected.
pub proof fn law_selected(messages: Seq<JsonView>, keep: nat, max_end: int, start: int, end: int)
    ensures
        to_summarize(messages, keep, max_end, start, end) <==> selected(messages, keep, max_end)
            == Some((start, end)),
{
    let a = assistants(messages);
    let k = turns_kept(keep) as int;
    lemma_assistants(messages);
    lemma_turns_at(messages, 0);
    assert(messages.take(0) =~= Seq::empty());
    assert(assistants(messages.take(0)).len() == 0);
    assert(turns_from(messages, 0) == a.len());
    if a.len() >= k + 2 {
        let protected = a[a.len() - k];
        let limit = if protected <= max_end {
            protected
        } else {
            max_end
        };
        assert forall|j: int| #[trigger] said_by(messages, j, "assistant"@) implies a.contains(j) && (turns_from(
            messages,
            j,
        ) >= k <==> j <= protected) by {
            assert(a.contains(j)) by {
                assert(crate::strategies::has_role(messages[j], "assistant"@));
            }
            let i = choose|i: int| 0 <= i < a.len() && a[i] == j;
            lemma_assistants_before(messages, i);
            if i < a.len() - k {
                assert(a[i] < a[a.len() - k]);
            }
            if i > a.len() - k {
                assert(a[a.len() - k] < a[i]);
            }
        }
        assert forall|y: int| #[trigger] a.contains(y) implies said_by(messages, y, "assistant"@) by {
            let i = choose|i: int| 0 <= i < a.len() && a[i] == y;
            assert(crate::strategies::has_role(messages[a[i]], "assistant"@));
        }
        assert(a.contains(a[0]));
        if to_summarize(messages, keep, max_end, start, end) {
            assert(a.contains(start));
            let i = choose|i: int| 0 <= i < a.len() && a[i] == start;
            if i > 0 {
                assert(a[0] < a[i]);
                assert(said_by(messages, a[0], "assistant"@));
            }
            assert(start == a[0]);
            assert(a.contains(end) && end <= protected);
            assert forall|y: int| #[trigger] a.contains(y) && start < y <= limit implies y <= end by {
                assert(said_by(messages, y, "assistant"@));
            }
            lemma_last_within_is_last(a, start, limit, end);
        }
        if selected(messages, keep, max_end) == Some((start, end)) {
            lemma_last_within(a, start, limit);
            assert forall|j: int| 0 <= j < start implies !#[trigger] said_by(
                messages,
                j,
                "assistant"@,
            ) by {
                if said_by(messages, j, "assistant"@) {
                    let i = choose|i: int| 0 <= i < a.len() && a[i] == j;
                    if i > 0 {
                        assert(a[0] < a[i]);
                    }
                }
            }
            assert forall|j: int| end < j && #[trigger] said_by(messages, j, "assistant"@) implies j
                > max_end || turns_from(messages, j) < k by {
                if j <= max_end && j <= protected {
                    lemma_none_later(a, start, limit, j);
                }
            }
        }
    }
}

proof fn lemma_none_later(a: Seq<int>, low: int, high: int, y: int)
    requires
        forall|i: int, j: int| 0 <= i < j < a.len() ==> #[trigger] a[i] < #[trigger] a[j],
        a.contains(y),
        low < y <= high,
    ensures
        last_within(a, low, high) matches Some(x) && y <= x,
    decreases a.len(),
{
    let k = choose|k: int| 0 <= k < a.len() && a[k] == y;
    if k < a.len() - 1 {
        assert(a[k] < a[a.len() - 1]);
        if !(low < a.last() <= high) {
            let init = a.drop_last();
            assert(init[k] == y);
            assert(init.contains(y));
            lemma_none_later(init, low, high, y);
        }
    }
}

/// Whether a text bears one of the phrases that mark a correction, in any case of letters.
pub open spec fn corrects(s: Seq<char>) -> bool {
    ||| holds_word_in_any_case(s, "authoritative override"@)
    ||| holds_word_in_any_case(s, "current ground truth"@)
    ||| holds_word_in_any_case(s, "do not resurrect"@)
}

/// Whether a block bears such a phrase: a text in it, or a result in what it holds.
pub open spec fn block_corrects(b: JsonView) -> bool {
    ||| b.get("type"@) == Some(JsonView::String("text"@)) && (b.get("text"@) matches Some(
        JsonView::String(s),
    ) && corrects(s))
    ||| b.get("type"@) == Some(JsonView::String("tool_result"@)) && (b.get("content"@) matches Some(v) && (
    v matches JsonView::String(s) && corrects(s) || !(v is String) && corrects(json_text(v))))
}

/// Whether a message bears such a phrase, in its text or in any of its blocks.
pub open spec fn message_corrects(m: JsonView) -> bool {
    match m.get("content"@) {
        Some(JsonView::String(s)) => corrects(s),
        Some(JsonView::Array(blocks)) => exists|i: int|
            0 <= i < blocks.len() && block_corrects(#[trigger] blocks[i]),
        _ => false,
    }
}

proof fn lemma_corrects(s: Seq<char>)
    ensures
        marks_override(s) <==> corrects(s),
{
    reveal_strlit("authoritative override");
    reveal_strlit("current ground truth");
    reveal_strlit("do not resurrect");
    law_occurs_in_any_case(s, "authoritative override"@);
    law_occurs_in_any_case(s, "current ground truth"@);
    law_occurs_in_any_case(s, "do not resurrect"@);
    let w = OVERRIDE_MARKERS@;
    assert(w.len() == 3);
    assert(w[0]@ == "authoritative override"@);
    assert(w[1]@ == "current ground truth"@);
    assert(w[2]@ == "do not resurrect"@);
    if marks_override(s) {
        let i = choose|i: int| 0 <= i < w.len() && occurs(lower(s), (#[trigger] w[i])@);
        assert(i == 0 || i == 1 || i == 2);
    }
    if corrects(s) {
        assert(occurs(lower(s), w[0]@) || occurs(lower(s), w[1]@) || occurs(lower(s), w[2]@));
    }
}

/// A message bears a correction exactly where one of the three phrases stands in its text, in the
/// text of a text block or in what a result block holds, at any place and in any case of letters.
pub proof fn law_overrides(m: JsonView)
    ensures
        overrides(m) <==> message_corrects(m),
{
    reveal_strlit("text");
    reveal_strlit("tool_result");
    assert("text"@.len() == 4 && "tool_result"@.len() == 11);
    match m.get("content"@) {
        Some(JsonView::String(s)) => {
            lemma_corrects(s);
        },
        Some(JsonView::Array(blocks)) => {
            assert forall|i: int| 0 <= i < blocks.len() implies block_overrides(#[trigger] blocks[i])
                == block_corrects(blocks[i]) by {
                let b = blocks[i];
                if let Some(JsonView::String(s)) = b.get("text"@) {
                    lemma_corrects(s);
                }
                if let Some(v) = b.get("content"@) {
                    lemma_corrects(json_text(v));
                    if let JsonView::String(s) = v {
                        lemma_corrects(s);
                    }
                }
            }
            if any_override(blocks) {
                let i = choose|i: int| 0 <= i < blocks.len() && block_overrides(#[trigger] blocks[i]);
                assert(block_corrects(blocks[i]));
            }
            if message_corrects(m) {
                let i = choose|i: int| 0 <= i < blocks.len() && block_corrects(#[trigger] blocks[i]);
                assert(block_overrides(blocks[i]));
            }
        },
        _ => {},
    }
}

/// A summary ends so that the first correction in it, and all behind, stays: at the last message of
/// the assistant not behind the correction, or where it began if there is none. Without a correction
/// it ends where it was to.
pub proof fn law_override_cap(messages: Seq<JsonView>, start: int, end: int)
    requires
        0 <= start <= end <= messages.len(),
    ensures
        ({
            let e = override_cap(messages, start, end);
            &&& (forall|k: int| start <= k < end ==> !message_corrects(#[trigger] messages[k]))
                ==> e == end
            &&& forall|j: int|
                start <= j < end && message_corrects(#[trigger] messages[j]) && (forall|k: int|
                    start <= k < j ==> !message_corrects(#[trigger] messages[k])) ==> {
                    &&& start <= e <= j
                    &&& e == start || said_by(messages, e, "assistant"@)
                    &&& forall|k: int| e < k <= j ==> !#[trigger] said_by(messages, k, "assistant"@)
                }
        }),
{
    assert forall|k: int| 0 <= k < messages.len() implies overrides(#[trigger] messages[k])
        == message_corrects(messages[k]) by {
        law_overrides(messages[k]);
    }
    lemma_first_override(messages, start, end);
    let e = override_cap(messages, start, end);
    assert forall|j: int|
        start <= j < end && message_corrects(#[trigger] messages[j]) && (forall|k: int|
            start <= k < j ==> !message_corrects(#[trigger] messages[k])) implies {
        &&& start <= e <= j
        &&& e == start || said_by(messages, e, "assistant"@)
        &&& forall|k: int| e < k <= j ==> !#[trigger] said_by(messages, k, "assistant"@)
    } by {
        let f = first_override(messages, start, end)->0;
        assert(overrides(messages[j]));
        if f < j {
            assert(message_corrects(messages[f]));
        }
        assert(f == j);
        lemma_turn_back(messages, start, j);
        lemma_turn_back_last(messages, start, j);
    }
}

proof fn lemma_turn_back_last(messages: Seq<JsonView>, start: int, j: int)
    requires
        0 <= start <= j < messages.len(),
    ensures
        forall|k: int|
            turn_back(messages, start, j) < k <= j ==> !#[trigger] said_by(messages, k, "assistant"@),
    decreases j - start,
{
    if j > start && !crate::strategies::has_role(messages[j], "assistant"@) {
        lemma_turn_back_last(messages, start, j - 1);
    }
}

/// Where a summary up to `end` can begin: at each message of the assistant that follows one of the
/// user, four messages or more before the end; the list of them has all, in order.
pub proof fn law_starts(messages: Seq<JsonView>, end: int, s: int)
    ensures
        all_starts(messages, end).contains(s) <==> said_by(messages, s, "assistant"@) && said_by(
            messages,
            s - 1,
            "user"@,
        ) && s + 4 <= end,
        forall|i: int, j: int|
            0 <= i < j < all_starts(messages, end).len() ==> #[trigger] all_starts(messages, end)[i]
                < #[trigger] all_starts(messages, end)[j],
{
    let all = all_starts(messages, end);
    lemma_starts(messages, end, messages.len() as int);
    if all.contains(s) {
        let k = choose|k: int| 0 <= k < all.len() && all[k] == s;
        assert(can_start(messages, all[k], end));
    }
    if said_by(messages, s, "assistant"@) && said_by(messages, s - 1, "user"@) && s + 4 <= end {
        assert(can_start(messages, s, end));
    }
}

/// The start that fits is the first message of the assistant from `i` on, four or more before the
/// end, from which on what is shown takes no more than the budget; there is none where none does.
pub proof fn law_fitting_start(
    messages: Seq<JsonView>,
    i: int,
    end: int,
    reasoning_cap: nat,
    tool_result_cap: nat,
    budget: nat,
    x: int,
)
    requires
        0 <= i,
        end <= messages.len(),
    ensures
        ({
            let r = fitting_start(messages, i, end, reasoning_cap, tool_result_cap, budget);
            let fits = |x: int|
                said_by(messages, x, "assistant"@) && shown_len(
                    messages,
                    x,
                    end,
                    reasoning_cap,
                    tool_result_cap,
                ) <= budget;
            &&& r matches Some(f) ==> i <= f && f + 4 <= end && fits(f) && (i <= x < f ==> !fits(x))
            &&& r is None && i <= x && x + 4 <= end ==> !fits(x)
        }),
    decreases end - i,
{
    if i + 4 <= end {
        law_fitting_start(messages, i + 1, end, reasoning_cap, tool_result_cap, budget, x);
    }
}

/// A summary can end at a message of the assistant four messages or more behind its start.
pub proof fn law_can_end(messages: Seq<JsonView>, start: int, max_end: int, e: int)
    requires
        0 <= start,
    ensures
        can_end(messages, start, max_end, e) <==> said_by(messages, e, "assistant"@) && start + 4 <= e
            <= max_end,
{
}

/// A text that is not too long, or has no limit, is shown whole. Of any other the first half of the
/// limit and the last half are shown, and how many characters lie between.
pub proof fn law_cut(s: Seq<char>, cap: nat)
    ensures
        cap == 0 || s.len() <= cap ==> cut(s, cap) == s,
        0 < cap < s.len() ==> {
            let head = cap / 2;
            let note = "\n…["@ + decimal((s.len() - cap) as nat) + " chars elided]…\n"@;
            &&& cut(s, cap).len() == cap + note.len()
            &&& forall|k: int| 0 <= k < head ==> #[trigger] cut(s, cap)[k] == s[k]
            &&& forall|k: int| 0 <= k < note.len() ==> cut(s, cap)[head + k] == #[trigger] note[k]
            &&& forall|k: int|
                s.len() - (cap - head) <= k < s.len() ==> cut(s, cap)[k - s.len() + cap + note.len()]
                    == #[trigger] s[k]
        },
{
}

/// What is shown of a block: of a text its text; of a call its tool and its input; of a result what
/// it holds; of any other block nothing. A text and an input are cut by one limit, what a result
/// holds by the other.
pub proof fn law_shown_block(b: JsonView, reasoning_cap: nat, tool_result_cap: nat)
    ensures
        ({
            let kind = b.get("type"@);
            let s = shown_block(b, reasoning_cap, tool_result_cap);
            &&& kind == Some(JsonView::String("text"@)) ==> s == match b.get("text"@) {
                Some(JsonView::String(t)) => cut(t, reasoning_cap),
                _ => Seq::empty(),
            }
            &&& kind == Some(JsonView::String("tool_use"@)) ==> s == "[tool_use "@ + match b.get(
                "name"@,
            ) {
                Some(JsonView::String(n)) => n,
                _ => "?"@,
            } + "] "@ + if b.get("input"@) is Some {
                cut(json_text(b.get("input"@)->0), reasoning_cap)
            } else {
                Seq::empty()
            }
            &&& kind == Some(JsonView::String("tool_result"@)) ==> s == "[tool_result] "@ + match b.get(
                "content"@,
            ) {
                Some(JsonView::String(t)) => cut(t, tool_result_cap),
                Some(v) => cut(json_text(v), tool_result_cap),
                None => Seq::empty(),
            }
            &&& kind != Some(JsonView::String("text"@)) && kind != Some(JsonView::String("tool_use"@))
                && kind != Some(JsonView::String("tool_result"@)) ==> s == Seq::<char>::empty()
        }),
{
    reveal_strlit("text");
    reveal_strlit("tool_use");
    reveal_strlit("tool_result");
    assert("text"@.len() == 4 && "tool_use"@.len() == 8 && "tool_result"@.len() == 11);
}

/// The blocks of a message are shown one after another, each on a line of its own.
pub proof fn law_shown_blocks(
    blocks: Seq<JsonView>,
    b: JsonView,
    reasoning_cap: nat,
    tool_result_cap: nat,
)
    ensures
        shown_blocks(Seq::empty(), reasoning_cap, tool_result_cap) == Seq::<char>::empty(),
        shown_blocks(blocks.push(b), reasoning_cap, tool_result_cap) == shown_blocks(
            blocks,
            reasoning_cap,
            tool_result_cap,
        ) + shown_block(b, reasoning_cap, tool_result_cap) + seq!['\n'],
{
    assert(blocks.push(b).drop_last() =~= blocks);
    let x = shown_blocks(blocks, reasoning_cap, tool_result_cap) + shown_block(
        b,
        reasoning_cap,
        tool_result_cap,
    );
    assert(x.push('\n') =~= x + seq!['\n']);
}

/// A message is shown with who says it, and then its text, or its blocks.
pub proof fn law_shown_message(m: JsonView, reasoning_cap: nat, tool_result_cap: nat)
    ensures
        shown(seq![m], reasoning_cap, tool_result_cap) == "\n### "@ + match m.get("role"@) {
            Some(JsonView::String(r)) => r,
            _ => "?"@,
        } + "\n"@ + match m.get("content"@) {
            Some(JsonView::String(s)) => cut(s, reasoning_cap),
            Some(JsonView::Array(blocks)) => shown_blocks(blocks, reasoning_cap, tool_result_cap),
            _ => Seq::empty(),
        },
{
    let one = seq![m];
    assert(one.drop_last() =~= Seq::<JsonView>::empty());
    assert(shown(one.drop_last(), reasoning_cap, tool_result_cap) =~= Seq::<char>::empty());
    assert(shown(one, reasoning_cap, tool_result_cap) =~= shown_message(
        m,
        reasoning_cap,
        tool_result_cap,
    ));
}

} // verus!
