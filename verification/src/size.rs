//! How many bytes the compact text of a value takes.

use crate::json::{json_text, JsonView};
use crate::text::utf8_len;
use vstd::prelude::*;

verus! {

/// How many bytes a character takes more in a JSON string than it has: a quote, a backslash and
/// five control characters are escaped by a letter, every other control character by its number.
pub open spec fn escape_cost(c: char) -> nat {
    if c == '"' || c == '\\' || c == '\n' || c == '\r' || c == '\t' || c == '\x08' || c == '\x0c' {
        1
    } else if ' ' > c {
        5
    } else {
        0
    }
}

/// How many bytes a text takes more in a JSON string than it has, but for the quotes.
pub open spec fn escape_costs(s: Seq<char>) -> nat
    decreases s.len(),
{
    if s.len() == 0 {
        0
    } else {
        escape_costs(s.drop_last()) + escape_cost(s.last())
    }
}

/// The size of a text as a JSON string.
pub open spec fn string_size(s: Seq<char>) -> nat {
    utf8_len(s) + escape_costs(s) + 2
}

/// The sum of some numbers.
pub open spec fn sum(s: Seq<nat>) -> nat
    decreases s.len(),
{
    if s.len() == 0 {
        0
    } else {
        sum(s.drop_last()) + s.last()
    }
}

/// The sum of the numbers in a table.
pub open spec fn sum_of(m: Map<Seq<char>, nat>) -> nat
    decreases m.dom().len(),
{
    if m.dom().finite() && m.dom().len() > 0 {
        let k = m.dom().choose();
        m[k] + sum_of(m.remove(k))
    } else {
        0
    }
}

/// What each item takes up in the text of an array: its text and a comma.
pub open spec fn item_sizes(items: Seq<JsonView>) -> Seq<nat>
    decreases items,
{
    Seq::new(
        items.len(),
        |i: int|
            if 0 <= i < items.len() {
                size(items[i]) + 1
            } else {
                0
            },
    )
}

/// What each member takes up in the text of an object: its key, a colon, its text and a comma.
pub open spec fn member_sizes(m: Map<Seq<char>, JsonView>) -> Map<Seq<char>, nat>
    decreases m,
{
    Map::new(
        |k: Seq<char>| m.contains_key(k),
        |k: Seq<char>|
            if m.dom().finite() && m.contains_key(k) {
                string_size(k) + size(m[k]) + 2
            } else {
                0
            },
    )
}

/// The size of the compact text of a value, in bytes. Between two items or members stands a comma,
/// and nothing else is put between tokens. How many digits a number takes is left to its text.
pub open spec fn size(v: JsonView) -> nat
    decreases v,
{
    match v {
        JsonView::Null => 4,
        JsonView::Bool(b) => if b {
            4
        } else {
            5
        },
        JsonView::Number(_) => utf8_len(json_text(v)),
        JsonView::String(s) => string_size(s),
        JsonView::Array(items) => if items.len() == 0 {
            2
        } else {
            sum(item_sizes(items)) + 1
        },
        JsonView::Object(m) => if m.dom().len() == 0 {
            2
        } else {
            sum_of(member_sizes(m)) + 1
        },
    }
}

/// The sum of a table is one of its numbers and the sum of the others.
proof fn lemma_sum_of_remove(m: Map<Seq<char>, nat>, k: Seq<char>)
    requires
        m.dom().finite(),
        m.contains_key(k),
    ensures
        sum_of(m) == m[k] + sum_of(m.remove(k)),
    decreases m.dom().len(),
{
    let c = m.dom().choose();
    assert(m.dom().contains(c));
    if c != k {
        lemma_sum_of_remove(m.remove(c), k);
        lemma_sum_of_remove(m.remove(k), c);
        assert(m.remove(c).remove(k) =~= m.remove(k).remove(c));
    }
}

/// Where one number of a table becomes no larger, neither does the sum.
proof fn lemma_sum_of_insert(m: Map<Seq<char>, nat>, k: Seq<char>, n: nat)
    requires
        m.dom().finite(),
        m.contains_key(k),
        n <= m[k],
    ensures
        sum_of(m.insert(k, n)) <= sum_of(m),
{
    let new = m.insert(k, n);
    lemma_sum_of_remove(m, k);
    assert(new.dom() =~= m.dom());
    lemma_sum_of_remove(new, k);
    assert(new.remove(k) =~= m.remove(k));
}

proof fn lemma_sum_mono(a: Seq<nat>, b: Seq<nat>)
    requires
        a.len() == b.len(),
        forall|i: int| 0 <= i < a.len() ==> #[trigger] a[i] <= b[i],
    ensures
        sum(a) <= sum(b),
    decreases a.len(),
{
    if a.len() > 0 {
        assert forall|i: int| 0 <= i < a.len() - 1 implies #[trigger] a.drop_last()[i]
            <= b.drop_last()[i] by {
            assert(a[i] <= b[i]);
        }
        lemma_sum_mono(a.drop_last(), b.drop_last());
        assert(a[a.len() - 1] <= b[a.len() - 1]);
    }
}

/// A member that gives way to one that is no larger makes an object no larger.
pub proof fn lemma_with_no_larger(v: JsonView, key: Seq<char>, value: JsonView)
    requires
        v.get(key) matches Some(old) && size(value) <= size(old),
    ensures
        size(v.with(key, value)) <= size(v),
{
    if let JsonView::Object(m) = v {
        let new = m.insert(key, value);
        assert(new.dom() =~= m.dom());
        if m.dom().finite() {
            let before = member_sizes(m);
            let n = string_size(key) + size(value) + 2;
            assert(before.dom() =~= m.dom());
            assert(member_sizes(new) =~= before.insert(key, n));
            lemma_sum_of_insert(before, key, n);
        } else {
            assert(member_sizes(m).dom() =~= m.dom());
            assert(member_sizes(new).dom() =~= m.dom());
        }
    }
}

/// Items that give way, one for one, to items that are no larger make an array no larger.
pub proof fn lemma_items_no_larger(old: Seq<JsonView>, new: Seq<JsonView>)
    requires
        new.len() == old.len(),
        forall|i: int| 0 <= i < old.len() ==> size(#[trigger] new[i]) <= size(old[i]),
    ensures
        size(JsonView::Array(new)) <= size(JsonView::Array(old)),
{
    assert forall|i: int| 0 <= i < new.len() implies #[trigger] item_sizes(new)[i] <= item_sizes(
        old,
    )[i] by {
        assert(size(new[i]) <= size(old[i]));
    }
    lemma_sum_mono(item_sizes(new), item_sizes(old));
}

} // verus!
