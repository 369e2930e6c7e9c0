//! What the strategies are for, said of the messages and blocks of a transcript themselves.

use super::{
    already_cleared, authoring, bears_stub, cutoff, has_role, is_old, marker, member_or_null,
};
use crate::json::JsonView;
use crate::pairing::block_at;
use crate::sites::{before, lemma_sites, sites, Test};
use crate::size::size;
use crate::text::decimal;
use vstd::prelude::*;

pub mod bloat;
pub mod body;
pub mod counted;
pub mod dedup;
pub mod images;
pub mod inputs;
pub mod near;
pub mod reads;
pub mod thinking;
pub mod told;
pub mod window;

verus! {

/// Whether a message is one of a speaker.
pub open spec fn said_by(messages: Seq<JsonView>, mi: int, role: Seq<char>) -> bool {
    0 <= mi < messages.len() && messages[mi].get("role"@) == Some(JsonView::String(role))
}

/// How many messages of the assistant stand at `mi` or behind it.
pub open spec fn turns_from(messages: Seq<JsonView>, mi: int) -> nat
    decreases messages.len() - mi,
{
    if mi >= messages.len() {
        0
    } else {
        turns_from(messages, mi + 1) + if said_by(messages, mi, "assistant"@) {
            1nat
        } else {
            0nat
        }
    }
}

proof fn lemma_turns_drop(messages: Seq<JsonView>, mi: int)
    requires
        0 <= mi < messages.len(),
    ensures
        turns_from(messages, mi) == turns_from(messages.drop_last(), mi) + if said_by(
            messages,
            messages.len() - 1,
            "assistant"@,
        ) {
            1nat
        } else {
            0nat
        },
    decreases messages.len() - mi,
{
    let init = messages.drop_last();
    let last = messages.len() - 1;
    if mi < last {
        lemma_turns_drop(messages, mi + 1);
        assert(said_by(init, mi, "assistant"@) == said_by(messages, mi, "assistant"@));
    } else {
        assert(turns_from(messages, mi + 1) == 0);
        assert(turns_from(init, mi) == 0);
    }
}

/// A message is old exactly where more turns of the assistant stand at it or behind it than are to
/// be kept.
pub proof fn law_old(messages: Seq<JsonView>, keep: nat, mi: int)
    requires
        0 <= mi,
    ensures
        is_old(cutoff(messages, keep), mi) <==> turns_from(messages, mi) > keep,
    decreases messages.len(),
{
    if messages.len() > 0 {
        let init = messages.drop_last();
        let last = messages.len() - 1;
        if mi <= last {
            lemma_turns_drop(messages, mi);
        }
        if !has_role(messages.last(), "assistant"@) {
            law_old(init, keep, mi);
        } else if keep > 0 {
            law_old(init, (keep - 1) as nat, mi);
        }
        lemma_cutoff_in(messages, keep);
    }
}

proof fn lemma_cutoff_in(messages: Seq<JsonView>, keep: nat)
    ensures
        cutoff(messages, keep) matches Some(c) ==> 0 <= c < messages.len(),
    decreases messages.len(),
{
    if messages.len() > 0 {
        lemma_cutoff_in(messages.drop_last(), keep);
        if keep > 0 {
            lemma_cutoff_in(messages.drop_last(), (keep - 1) as nat);
        }
    }
}

/// What is left of elided content: the stub, and how many bytes its text took.
pub open spec fn left_of(stub: Seq<char>, content: JsonView) -> JsonView {
    JsonView::String(stub + " ("@ + decimal(size(content)) + "B elided)"@)
}

/// What takes the place of elided content names the stub and the size of what is gone.
pub proof fn law_marker(stub: Seq<char>, content: JsonView)
    ensures
        marker(stub, content) == left_of(stub, content),
{
}

/// What a block holds under a key; null where it holds nothing.
pub open spec fn held(b: JsonView, key: Seq<char>) -> JsonView {
    if b.get(key) is Some {
        b.get(key)->0
    } else {
        JsonView::Null
    }
}

/// Whether content is a text that begins with a stub that is not empty.
pub open spec fn stubbed(content: JsonView, stub: Seq<char>) -> bool {
    content matches JsonView::String(s) && 0 < stub.len() <= s.len() && forall|k: int|
        0 <= k < stub.len() ==> s[k] == #[trigger] stub[k]
}

/// Whether content is what a client leaves where it cleared a result.
pub open spec fn cleared(content: JsonView) -> bool {
    let words = "[Old tool result content cleared]"@;
    ||| content == JsonView::String(words)
    ||| content matches JsonView::Array(items) && items.len() == 1 && items[0].get("type"@) == Some(
        JsonView::String("text"@),
    ) && items[0].get("text"@) == Some(JsonView::String(words))
}

/// Whether a tool is one of those that write files.
pub open spec fn writes(name: Seq<char>) -> bool {
    name == "Write"@ || name == "Edit"@ || name == "MultiEdit"@ || name == "NotebookEdit"@
}

/// What the strategies take for a member that is missing, for a stub, for a cleared result and for
/// a tool that writes.
pub proof fn law_terms(b: JsonView, key: Seq<char>, content: JsonView, stub: Seq<char>)
    ensures
        member_or_null(b, key) == held(b, key),
        bears_stub(content, stub) == stubbed(content, stub),
        already_cleared(content) == cleared(content),
        authoring(stub) == writes(stub),
{
    if let JsonView::String(s) = content {
        crate::text_laws::law_begins(s, stub);
    }
}

/// Whether a text begins with a word.
pub open spec fn opens_with(s: Seq<char>, word: Seq<char>) -> bool {
    word.len() <= s.len() && forall|k: int| 0 <= k < word.len() ==> s[k] == #[trigger] word[k]
}

/// Positions in order, each once, that are those of the blocks that meet a test.
pub open spec fn list_of(messages: Seq<JsonView>, test: Test, list: Seq<(int, int)>) -> bool {
    &&& forall|i: int, j: int| 0 <= i < j < list.len() ==> before(#[trigger] list[i], #[trigger] list[j])
    &&& forall|i: int|
        0 <= i < list.len() ==> {
            let p = #[trigger] list[i];
            block_at(messages, p.0, p.1) matches Some(b) && test(p.0, p.1, b)
        }
    &&& forall|mi: int, ci: int|
        (#[trigger] block_at(messages, mi, ci) matches Some(b) && test(mi, ci, b)) ==> list.contains(
            (mi, ci),
        )
}

/// Two lists in order that hold the same positions are the same.
proof fn lemma_same_list(a: Seq<(int, int)>, b: Seq<(int, int)>)
    requires
        forall|i: int, j: int| 0 <= i < j < a.len() ==> before(#[trigger] a[i], #[trigger] a[j]),
        forall|i: int, j: int| 0 <= i < j < b.len() ==> before(#[trigger] b[i], #[trigger] b[j]),
        forall|i: int| 0 <= i < a.len() ==> b.contains(#[trigger] a[i]),
        forall|i: int| 0 <= i < b.len() ==> a.contains(#[trigger] b[i]),
    ensures
        a == b,
    decreases a.len(),
{
    if a.len() == 0 {
        if b.len() > 0 {
            assert(a.contains(b[0]));
        }
        assert(a =~= b);
    } else {
        let x = a.last();
        assert(b.contains(a[a.len() - 1]));
        let y = b.last();
        assert(a.contains(b[b.len() - 1]));
        let i = choose|i: int| 0 <= i < a.len() && a[i] == y;
        let j = choose|j: int| 0 <= j < b.len() && b[j] == x;
        assert(x == y) by {
            if i < a.len() - 1 && j < b.len() - 1 {
                assert(before(a[i], a[a.len() - 1]));
                assert(before(b[j], b[b.len() - 1]));
            }
        }
        let c = a.drop_last();
        let d = b.drop_last();
        assert forall|i: int| 0 <= i < c.len() implies d.contains(#[trigger] c[i]) by {
            assert(b.contains(a[i]));
            let k = choose|k: int| 0 <= k < b.len() && b[k] == a[i];
            assert(before(a[i], a[a.len() - 1]));
            assert(k < d.len());
            assert(d[k] == c[i]);
        }
        assert forall|i: int| 0 <= i < d.len() implies c.contains(#[trigger] d[i]) by {
            assert(a.contains(b[i]));
            let k = choose|k: int| 0 <= k < a.len() && a[k] == b[i];
            assert(before(b[i], b[b.len() - 1]));
            assert(k < c.len());
            assert(c[k] == d[i]);
        }
        lemma_same_list(c, d);
        assert(a =~= c.push(x));
        assert(b =~= d.push(y));
    }
}

/// The sites of a test are the list of the blocks that meet it, and the only one.
pub proof fn law_sites(messages: Seq<JsonView>, test: Test, list: Seq<(int, int)>)
    ensures
        list_of(messages, test, list) <==> list == sites(messages, test),
{
    lemma_sites(messages, test);
    let s = sites(messages, test);
    if list_of(messages, test, list) {
        assert forall|i: int| 0 <= i < list.len() implies s.contains(#[trigger] list[i]) by {
            let p = list[i];
            assert(block_at(messages, p.0, p.1) is Some);
            assert(s.contains((p.0, p.1)));
        }
        assert forall|i: int| 0 <= i < s.len() implies list.contains(#[trigger] s[i]) by {
            let p = s[i];
            assert(block_at(messages, p.0, p.1) is Some);
            assert(list.contains((p.0, p.1)));
        }
        lemma_same_list(list, s);
    }
}

} // verus!
