//! What it is to look into a JSON value and to change it, said of its members and items.

use crate::assoc::pairs_map;
use crate::json::{views, Json, JsonView};
use vstd::prelude::*;

verus! {

/// Only an object has members. One is read under its key, and to set one changes that one alone.
pub proof fn law_members(
    v: JsonView,
    m: Map<Seq<char>, JsonView>,
    key: Seq<char>,
    other: Seq<char>,
    new: JsonView,
)
    ensures
        m.contains_key(key) ==> JsonView::Object(m).get(key) == Some(m[key]),
        !m.contains_key(key) ==> JsonView::Object(m).get(key) is None,
        !(v is Object) ==> v.get(key) is None && v.with(key, new) == v,
        JsonView::Object(m).with(key, new) == JsonView::Object(m.insert(key, new)),
        v is Object ==> v.with(key, new).get(key) == Some(new),
        key != other ==> v.with(key, new).get(other) == v.get(other),
{
}

/// A text is read from a value that is one, and an array from one that is one.
pub proof fn law_kinds(v: JsonView, key: Seq<char>, text: Seq<char>, items: Seq<JsonView>)
    ensures
        v.as_str() == Some(text) <==> v == JsonView::String(text),
        v.as_array() == Some(items) <==> v == JsonView::Array(items),
        v.get_str(key) == Some(text) <==> v.get(key) == Some(JsonView::String(text)),
        v.get_array(key) == Some(items) <==> v.get(key) == Some(JsonView::Array(items)),
{
}

/// What a value holds is what its parts hold.
pub proof fn law_views(b: bool, s: String, items: Vec<Json>, i: int)
    ensures
        Json::Null@ == JsonView::Null,
        Json::Bool(b)@ == JsonView::Bool(b),
        Json::String(s)@ == JsonView::String(s@),
        Json::Array(items)@ == JsonView::Array(views(items@)),
        views(items@).len() == items@.len(),
        0 <= i < items@.len() ==> views(items@)[i] == items@[i]@,
{
    crate::json::lemma_views(items@);
}

/// Of several pairs under a key the last one counts.
pub proof fn law_pairs(pairs: Seq<(Seq<char>, JsonView)>, key: Seq<char>, v: JsonView)
    ensures
        pairs_map(Seq::<(Seq<char>, JsonView)>::empty()) == Map::<Seq<char>, JsonView>::empty(),
        pairs_map(pairs.push((key, v))) == pairs_map(pairs).insert(key, v),
{
    assert(pairs.push((key, v)).drop_last() =~= pairs);
}

} // verus!
