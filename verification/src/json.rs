//! JSON values: a type of the library's own, what a value is, and the way to and from text.
//!
//! Text is read and written by `serde_json`. Everything between the two works on [`Json`], whose
//! model [`JsonView`] is what the contracts of this library speak of.

use crate::assoc::{
    lemma_pairs_absent, lemma_pairs_finite, lemma_pairs_last, lemma_pairs_overwrite,
    lemma_pairs_present, lemma_pairs_push, lemma_pairs_source, pairs_map,
};
use crate::size::size;
use crate::text::{same_text, utf8_len};
use vstd::prelude::*;
use vstd::utf8::encode_utf8;

verus! {

/// A JSON number, carried through as `serde_json` holds it. Nothing in this library reads one.
#[verifier::external_type_specification]
#[verifier::external_body]
pub struct ExNumber(serde_json::Number);

/// A JSON document, as `serde_json` holds it.
#[verifier::external_type_specification]
#[verifier::external_body]
pub struct ExValue(serde_json::Value);

/// Why a text is not JSON, as `serde_json` reports it.
#[verifier::external_type_specification]
#[verifier::external_body]
pub struct ExError(serde_json::Error);

/// A JSON value.
#[derive(Debug)]
pub enum Json {
    Null,
    Bool(bool),
    Number(serde_json::Number),
    String(String),
    Array(Vec<Json>),
    Object(JsonMap),
}

/// The members of a JSON object.
#[derive(Debug)]
pub struct JsonMap {
    entries: Vec<(String, Json)>,
}

/// What a JSON value is. The members of an object have no order.
#[verifier::ext_equal]
pub enum JsonView {
    Null,
    Bool(bool),
    Number(serde_json::Number),
    String(Seq<char>),
    Array(Seq<JsonView>),
    Object(Map<Seq<char>, JsonView>),
}

/// What each value of a sequence is.
pub open spec fn views(items: Seq<Json>) -> Seq<JsonView>
    decreases items,
{
    Seq::new(
        items.len(),
        |i: int|
            if 0 <= i < items.len() {
                items[i].model()
            } else {
                JsonView::Null
            },
    )
}

impl Json {
    pub open spec fn model(self) -> JsonView
        decreases self,
    {
        match self {
            Json::Null => JsonView::Null,
            Json::Bool(b) => JsonView::Bool(b),
            Json::Number(n) => JsonView::Number(n),
            Json::String(s) => JsonView::String(s@),
            Json::Array(items) => JsonView::Array(views(items@)),
            Json::Object(m) => JsonView::Object(m.model()),
        }
    }
}

impl View for Json {
    type V = JsonView;

    open spec fn view(&self) -> JsonView {
        self.model()
    }
}

/// What the pairs of a sequence are.
pub open spec fn pair_views(pairs: Seq<(String, Json)>) -> Seq<(Seq<char>, JsonView)>
    decreases pairs,
{
    Seq::new(
        pairs.len(),
        |i: int|
            if 0 <= i < pairs.len() {
                (pairs[i].0@, pairs[i].1.model())
            } else {
                (Seq::empty(), JsonView::Null)
            },
    )
}

impl JsonMap {
    pub closed spec fn model(self) -> Map<Seq<char>, JsonView>
        decreases self,
    {
        pairs_map(pair_views(self.entries@))
    }
}

impl View for JsonMap {
    type V = Map<Seq<char>, JsonView>;

    open spec fn view(&self) -> Map<Seq<char>, JsonView> {
        self.model()
    }
}

/// What an optional reference to a value is.
pub open spec fn opt_view(v: Option<&Json>) -> Option<JsonView> {
    match v {
        Some(x) => Some(x@),
        None => None,
    }
}

/// What an optional string slice holds.
pub open spec fn opt_text(v: Option<&str>) -> Option<Seq<char>> {
    match v {
        Some(x) => Some(x@),
        None => None,
    }
}

impl JsonView {
    /// The member of an object under a key, if the value is an object that has it.
    pub open spec fn get(self, key: Seq<char>) -> Option<JsonView> {
        match self {
            JsonView::Object(m) => if m.contains_key(key) {
                Some(m[key])
            } else {
                None
            },
            _ => None,
        }
    }

    /// The text of a string value.
    pub open spec fn as_str(self) -> Option<Seq<char>> {
        match self {
            JsonView::String(s) => Some(s),
            _ => None,
        }
    }

    /// The member under a key, where it is a string.
    pub open spec fn get_str(self, key: Seq<char>) -> Option<Seq<char>> {
        match self.get(key) {
            Some(v) => v.as_str(),
            None => None,
        }
    }

    /// The items of an array value.
    pub open spec fn as_array(self) -> Option<Seq<JsonView>> {
        match self {
            JsonView::Array(items) => Some(items),
            _ => None,
        }
    }

    /// The member under a key, where it is an array.
    pub open spec fn get_array(self, key: Seq<char>) -> Option<Seq<JsonView>> {
        match self.get(key) {
            Some(v) => v.as_array(),
            None => None,
        }
    }

    /// The object with one member set; any other value is left as it is.
    pub open spec fn with(self, key: Seq<char>, value: JsonView) -> JsonView {
        match self {
            JsonView::Object(m) => JsonView::Object(m.insert(key, value)),
            v => v,
        }
    }
}

/// The views of a sequence, item by item.
pub broadcast proof fn lemma_views(items: Seq<Json>)
    ensures
        #![trigger views(items)]
        views(items).len() == items.len(),
        forall|i: int| 0 <= i < items.len() ==> #[trigger] views(items)[i] == items[i]@,
{
}

pub broadcast proof fn lemma_views_push(items: Seq<Json>, item: Json)
    ensures
        #[trigger] views(items.push(item)) == views(items).push(item@),
{
    assert(views(items.push(item)) =~= views(items).push(item@));
}

proof fn lemma_pair_views_push(pairs: Seq<(String, Json)>, pair: (String, Json))
    ensures
        pair_views(pairs.push(pair)) == pair_views(pairs).push((pair.0@, pair.1@)),
{
    assert(pair_views(pairs.push(pair)) =~= pair_views(pairs).push((pair.0@, pair.1@)));
}

impl JsonMap {
    /// An object without members.
    pub fn new() -> (r: JsonMap)
        ensures
            r@ == Map::<Seq<char>, JsonView>::empty(),
    {
        let r = JsonMap { entries: Vec::new() };
        assert(pair_views(r.entries@) =~= Seq::empty());
        r
    }

    fn find(&self, key: &str) -> (r: Option<usize>)
        ensures
            match r {
                Some(i) => i < self.entries@.len() && self.entries@[i as int].0@ == key@ && forall|
                    j: int,
                |
                    i < j < self.entries@.len() ==> (#[trigger] self.entries@[j]).0@ != key@,
                None => forall|j: int|
                    0 <= j < self.entries@.len() ==> (#[trigger] self.entries@[j]).0@ != key@,
            },
    {
        let mut i: usize = self.entries.len();
        while i > 0
            invariant
                i <= self.entries@.len(),
                forall|j: int|
                    i <= j < self.entries@.len() ==> (#[trigger] self.entries@[j]).0@ != key@,
            decreases i,
        {
            i = i - 1;
            if same_text(&self.entries[i].0, key) {
                return Some(i);
            }
        }
        None
    }

    /// The member under a key.
    pub fn get(&self, key: &str) -> (r: Option<&Json>)
        ensures
            opt_view(r) == JsonView::Object(self@).get(key@),
    {
        let ghost pairs = pair_views(self.entries@);
        match self.find(key) {
            Some(i) => {
                proof {
                    assert(pairs[i as int].0 == key@);
                    lemma_pairs_last(pairs, i as int);
                }
                Some(&self.entries[i].1)
            },
            None => {
                proof {
                    lemma_pairs_absent(pairs, key@);
                }
                None
            },
        }
    }

    /// The member under a key, to be changed in place.
    pub fn get_mut(&mut self, key: &str) -> (r: Option<&mut Json>)
        ensures
            match r {
                Some(x) => old(self)@.contains_key(key@) && x@ == old(self)@[key@] && final(self)@
                    == old(self)@.insert(key@, final(x)@),
                None => !old(self)@.contains_key(key@) && final(self)@ == old(self)@,
            },
    {
        let ghost pairs = pair_views(self.entries@);
        match self.find(key) {
            Some(i) => {
                proof {
                    assert(pairs[i as int].0 == key@);
                    lemma_pairs_last(pairs, i as int);
                    assert forall|v: (String, Json)|
                        #![trigger self.entries@.update(i as int, v)]
                        v.0 == self.entries@[i as int].0 implies pairs_map(
                        pair_views(self.entries@.update(i as int, v)),
                    ) == pairs_map(pairs).insert(key@, v.1@) by {
                        lemma_pairs_overwrite(pairs, i as int, v.1@);
                        assert(pair_views(self.entries@.update(i as int, v)) =~= pairs.update(
                            i as int,
                            (pairs[i as int].0, v.1@),
                        ));
                    }
                }
                let entry = &mut self.entries[i];
                Some(&mut entry.1)
            },
            None => {
                proof {
                    lemma_pairs_absent(pairs, key@);
                }
                None
            },
        }
    }

    /// Whether the object has no members.
    pub fn is_empty(&self) -> (r: bool)
        ensures
            r == (self@ == Map::<Seq<char>, JsonView>::empty()),
    {
        let ghost pairs = pair_views(self.entries@);
        proof {
            if pairs.len() > 0 {
                assert(pairs_map(pairs).contains_key(pairs.last().0));
            }
        }
        self.entries.len() == 0
    }

    /// The member under a key, where the object has no other.
    pub fn sole_member(&self, key: &str) -> (r: Option<&Json>)
        ensures
            match r {
                Some(v) => self@ == Map::<Seq<char>, JsonView>::empty().insert(key@, v@),
                None => forall|v: JsonView|
                    self@ != #[trigger] Map::<Seq<char>, JsonView>::empty().insert(key@, v),
            },
    {
        let ghost pairs = pair_views(self.entries@);
        let mut i: usize = 0;
        while i < self.entries.len()
            invariant
                i <= self.entries@.len(),
                pairs == pair_views(self.entries@),
                forall|j: int| 0 <= j < i ==> (#[trigger] pairs[j]).0 == key@,
            decreases self.entries@.len() - i,
        {
            if !same_text(&self.entries[i].0, key) {
                proof {
                    assert(pairs[i as int].0 == self.entries@[i as int].0@);
                    lemma_pairs_present(pairs, i as int);
                    assert forall|v: JsonView| self@
                        != #[trigger] Map::<Seq<char>, JsonView>::empty().insert(key@, v) by {
                        assert(!Map::<Seq<char>, JsonView>::empty().insert(key@, v).contains_key(
                            pairs[i as int].0,
                        ));
                    }
                }
                return None;
            }
            i = i + 1;
        }
        match self.get(key) {
            Some(v) => {
                proof {
                    assert forall|k: Seq<char>| k != key@ implies !self@.contains_key(k) by {
                        lemma_pairs_absent(pairs, k);
                    }
                    assert(self@ =~= Map::<Seq<char>, JsonView>::empty().insert(key@, v@));
                }
                Some(v)
            },
            None => {
                proof {
                    assert forall|v: JsonView| self@
                        != #[trigger] Map::<Seq<char>, JsonView>::empty().insert(key@, v) by {
                        assert(Map::<Seq<char>, JsonView>::empty().insert(key@, v).contains_key(key@));
                    }
                }
                None
            },
        }
    }

    /// Sets the member under a key.
    pub fn insert(&mut self, key: String, value: Json)
        ensures
            final(self)@ == old(self)@.insert(key@, value@),
    {
        let ghost pairs = pair_views(self.entries@);
        match self.find(&key) {
            Some(i) => {
                proof {
                    lemma_pairs_overwrite(pairs, i as int, value@);
                }
                self.entries[i] = (key, value);
                assert(pair_views(self.entries@) =~= pairs.update(
                    i as int,
                    (pairs[i as int].0, value@),
                ));
            },
            None => {
                proof {
                    lemma_pair_views_push(self.entries@, (key, value));
                    lemma_pairs_push(pairs, (key@, value@));
                }
                self.entries.push((key, value));
            },
        }
    }
}

/// What becomes of a value; none where it stays.
pub trait ValueRule {
    /// What becomes of a value.
    spec fn rule(&self, v: JsonView) -> Option<JsonView>;

    /// Says what becomes of a value.
    fn decide(&self, v: &Json) -> (r: Option<Json>)
        ensures
            match r {
                Some(x) => self.rule(v@) == Some(x@),
                None => self.rule(v@) is None,
            },
    ;
}

/// The members of an object after a change to each.
pub open spec fn map_members(
    m: Map<Seq<char>, JsonView>,
    rule: spec_fn(JsonView) -> Option<JsonView>,
) -> Map<Seq<char>, JsonView> {
    m.map_values(
        |v: JsonView|
            match rule(v) {
                Some(x) => x,
                None => v,
            },
    )
}

/// Whether a change to each member changes any.
pub open spec fn some_member(
    m: Map<Seq<char>, JsonView>,
    rule: spec_fn(JsonView) -> Option<JsonView>,
) -> bool {
    exists|k: Seq<char>| #[trigger] m.contains_key(k) && rule(m[k]) is Some
}

proof fn lemma_map_pairs(
    pairs: Seq<(Seq<char>, JsonView)>,
    rule: spec_fn(JsonView) -> Option<JsonView>,
)
    ensures
        pairs_map(
            Seq::new(
                pairs.len(),
                |i: int|
                    (
                        pairs[i].0,
                        match rule(pairs[i].1) {
                            Some(x) => x,
                            None => pairs[i].1,
                        },
                    ),
            ),
        ) == map_members(pairs_map(pairs), rule),
    decreases pairs.len(),
{
    let new = Seq::new(
        pairs.len(),
        |i: int|
            (
                pairs[i].0,
                match rule(pairs[i].1) {
                    Some(x) => x,
                    None => pairs[i].1,
                },
            ),
    );
    if pairs.len() > 0 {
        let init = pairs.drop_last();
        lemma_map_pairs(init, rule);
        assert(new.drop_last() =~= Seq::new(
            init.len(),
            |i: int|
                (
                    init[i].0,
                    match rule(init[i].1) {
                        Some(x) => x,
                        None => init[i].1,
                    },
                ),
        ));
    }
    assert(pairs_map(new) =~= map_members(pairs_map(pairs), rule));
}

impl JsonMap {
    /// Changes each member; none where no member changes.
    pub fn changed<R: ValueRule>(&self, rule: &R) -> (r: Option<JsonMap>)
        ensures
            ({
                let f = |v: JsonView| rule.rule(v);
                match r {
                    Some(m) => some_member(self@, f) && m@ == map_members(self@, f),
                    None => !some_member(self@, f),
                }
            }),
    {
        let ghost f = |v: JsonView| rule.rule(v);
        let ghost pairs = pair_views(self.entries@);
        let ghost new = Seq::new(
            pairs.len(),
            |i: int|
                (
                    pairs[i].0,
                    match f(pairs[i].1) {
                        Some(x) => x,
                        None => pairs[i].1,
                    },
                ),
        );
        let mut entries: Vec<(String, Json)> = Vec::new();
        let mut some: bool = false;
        let mut i: usize = 0;
        while i < self.entries.len()
            invariant
                i <= self.entries@.len(),
                f == (|v: JsonView| rule.rule(v)),
                pairs == pair_views(self.entries@),
                new == Seq::new(
                    pairs.len(),
                    |i: int|
                        (
                            pairs[i].0,
                            match f(pairs[i].1) {
                                Some(x) => x,
                                None => pairs[i].1,
                            },
                        ),
                ),
                pair_views(entries@) == new.take(i as int),
                some ==> some_member(self@, f),
                !some ==> forall|j: int|
                    0 <= j < i && f((#[trigger] pairs[j]).1) is Some ==> exists|k: int|
                        j < k < pairs.len() && (#[trigger] pairs[k]).0 == pairs[j].0,
            decreases self.entries@.len() - i,
        {
            let key = self.entries[i].0.clone();
            let last = match self.find(&key) {
                Some(at) => {
                    proof {
                        assert(pairs[at as int].0 == key@);
                        assert(at < i ==> self.entries@[i as int].0@ != key@);
                    }
                    at == i
                },
                None => {
                    assert(self.entries@[i as int].0@ != key@);
                    false
                },
            };
            let value = match rule.decide(&self.entries[i].1) {
                Some(x) => {
                    if last {
                        proof {
                            lemma_pairs_last(pairs, i as int);
                            assert(self@.contains_key(key@) && f(self@[key@]) is Some);
                        }
                        some = true;
                    }
                    x
                },
                None => self.entries[i].1.copy(),
            };
            proof {
                assert(pairs[i as int] == (key@, self.entries@[i as int].1@));
                lemma_pair_views_push(entries@, (key, value));
            }
            entries.push((key, value));
            i = i + 1;
            assert(pair_views(entries@) =~= new.take(i as int));
        }
        proof {
            lemma_map_pairs(pairs, f);
            assert(new.take(i as int) =~= new);
            if !some {
                assert forall|k: Seq<char>| #[trigger] self@.contains_key(k) implies f(self@[k]) is None by {
                    lemma_pairs_source(pairs, k);
                }
            }
        }
        if some {
            Some(JsonMap { entries })
        } else {
            None
        }
    }
}

/// `Clone::clone` of `serde_json::Number`, which derives it: the same number again.
pub assume_specification[ <serde_json::Number as Clone>::clone ](n: &serde_json::Number) -> (r:
    serde_json::Number)
    ensures
        r == *n,
;

impl Json {
    /// The member of an object under a key.
    pub fn get(&self, key: &str) -> (r: Option<&Json>)
        ensures
            opt_view(r) == self@.get(key@),
    {
        match self {
            Json::Object(m) => m.get(key),
            _ => None,
        }
    }

    /// The text of a string.
    pub fn as_str(&self) -> (r: Option<&str>)
        ensures
            opt_text(r) == self@.as_str(),
    {
        match self {
            Json::String(s) => Some(s.as_str()),
            _ => None,
        }
    }

    /// The member under a key, where it is a string.
    pub fn get_str(&self, key: &str) -> (r: Option<&str>)
        ensures
            opt_text(r) == self@.get_str(key@),
    {
        match self.get(key) {
            Some(v) => v.as_str(),
            None => None,
        }
    }

    /// The items of an array.
    pub fn as_array(&self) -> (r: Option<&Vec<Json>>)
        ensures
            match r {
                Some(items) => self@.as_array() == Some(views(items@)),
                None => self@.as_array() is None,
            },
    {
        match self {
            Json::Array(items) => Some(items),
            _ => None,
        }
    }

    /// The member under a key, where it is an array.
    pub fn get_array(&self, key: &str) -> (r: Option<&Vec<Json>>)
        ensures
            match r {
                Some(items) => self@.get_array(key@) == Some(views(items@)),
                None => self@.get_array(key@) is None,
            },
    {
        match self.get(key) {
            Some(v) => v.as_array(),
            None => None,
        }
    }

    /// Whether the value is null.
    pub fn is_null(&self) -> (r: bool)
        ensures
            r == (self@ == JsonView::Null),
    {
        match self {
            Json::Null => true,
            _ => false,
        }
    }

    /// Whether the value is the string `text`.
    pub fn is_str(&self, text: &str) -> (r: bool)
        ensures
            r == (self@ == JsonView::String(text@)),
    {
        match self {
            Json::String(s) => same_text(s, text),
            _ => false,
        }
    }

    /// Whether the member under `key` is the string `text`.
    pub fn member_is(&self, key: &str, text: &str) -> (r: bool)
        ensures
            r == (self@.get_str(key@) == Some(text@)),
    {
        match self.get(key) {
            Some(v) => v.is_str(text),
            None => false,
        }
    }

    /// Sets a member of an object; leaves any other value as it is.
    pub fn set(&mut self, key: &str, value: Json)
        ensures
            final(self)@ == old(self)@.with(key@, value@),
    {
        match self {
            Json::Object(m) => m.insert(key.to_owned(), value),
            _ => {},
        }
    }

    /// A string value.
    pub fn text(s: &str) -> (r: Json)
        ensures
            r@ == JsonView::String(s@),
    {
        Json::String(s.to_owned())
    }

    /// The value that is an unsigned number.
    pub fn number(n: u64) -> (r: Json)
        ensures
            r@ == JsonView::Number(json_number(n as int)),
    {
        match make_number(n as i128) {
            Some(x) => Json::Number(x),
            None => Json::Null,
        }
    }

    /// The same value again.
    pub fn copy(&self) -> (r: Json)
        ensures
            r@ == self@,
        decreases self,
    {
        match self {
            Json::Null => Json::Null,
            Json::Bool(b) => Json::Bool(*b),
            Json::Number(n) => Json::Number(n.clone()),
            Json::String(s) => Json::String(s.clone()),
            Json::Array(items) => Json::Array(copy_all(items)),
            Json::Object(m) => Json::Object(m.copy()),
        }
    }
}

/// The same values again.
pub fn copy_all(items: &Vec<Json>) -> (r: Vec<Json>)
    ensures
        views(r@) == views(items@),
    decreases items,
{
    let mut r: Vec<Json> = Vec::new();
    let mut i: usize = 0;
    while i < items.len()
        invariant
            i <= items@.len(),
            views(r@) == views(items@).take(i as int),
        decreases items@.len() - i,
    {
        proof {
            assert(decreases_to!(items => items@[i as int]));
        }
        let item = items[i].copy();
        proof {
            lemma_views_push(r@, item);
        }
        r.push(item);
        i = i + 1;
        assert(views(r@) =~= views(items@).take(i as int));
    }
    assert(views(r@) =~= views(items@));
    r
}

impl JsonMap {
    /// The same members again.
    pub fn copy(&self) -> (r: JsonMap)
        ensures
            r@ == self@,
        decreases self,
    {
        let mut entries: Vec<(String, Json)> = Vec::new();
        let mut i: usize = 0;
        while i < self.entries.len()
            invariant
                i <= self.entries@.len(),
                pair_views(entries@) == pair_views(self.entries@).take(i as int),
            decreases self.entries@.len() - i,
        {
            proof {
                assert(decreases_to!(self.entries => self.entries@[i as int]));
            }
            let pair = (self.entries[i].0.clone(), self.entries[i].1.copy());
            proof {
                lemma_pair_views_push(entries@, pair);
            }
            entries.push(pair);
            i = i + 1;
            assert(pair_views(entries@) =~= pair_views(self.entries@).take(i as int));
        }
        assert(pair_views(entries@) =~= pair_views(self.entries@));
        JsonMap { entries }
    }
}

/// To set a member to what it is changes nothing.
pub proof fn lemma_set_same(v: JsonView, key: Seq<char>)
    requires
        v.get(key) is Some,
    ensures
        v.with(key, v.get(key)->0) == v,
{
    if let JsonView::Object(m) = v {
        assert(m.insert(key, m[key]) =~= m);
    }
}

/// The number that `serde_json` makes of an integer that fits a machine.
pub uninterp spec fn json_number(n: int) -> serde_json::Number;

/// Whether an integer is one that a machine holds, with a sign or without.
pub open spec fn machine_integer(n: int) -> bool {
    i64::MIN <= n <= u64::MAX
}

/// `serde_json::Number::from_i128`: the number with that value, which depends on the integer alone,
/// where a signed or an unsigned word of the machine can hold it; none for any other. How it is
/// held is not stated.
#[verifier::external_body]
fn make_number(n: i128) -> (r: Option<serde_json::Number>)
    ensures
        r == if machine_integer(n as int) {
            Some(json_number(n as int))
        } else {
            None
        },
{
    serde_json::Number::from_i128(n)
}

/// The outermost layer of a document.
enum Layer {
    Null,
    Bool(bool),
    Number(serde_json::Number),
    String(String),
    Array(Vec<serde_json::Value>),
    Object(Vec<(String, serde_json::Value)>),
}

/// What a document holds.
pub uninterp spec fn value_json(v: serde_json::Value) -> JsonView;

spec fn values_json(items: Seq<serde_json::Value>) -> Seq<JsonView> {
    Seq::new(items.len(), |i: int| value_json(items[i]))
}

spec fn members_json(pairs: Seq<(String, serde_json::Value)>) -> Seq<(Seq<char>, JsonView)> {
    Seq::new(pairs.len(), |i: int| (pairs[i].0@, value_json(pairs[i].1)))
}

spec fn layer_json(layer: Layer) -> JsonView {
    match layer {
        Layer::Null => JsonView::Null,
        Layer::Bool(b) => JsonView::Bool(b),
        Layer::Number(n) => JsonView::Number(n),
        Layer::String(s) => JsonView::String(s@),
        Layer::Array(items) => JsonView::Array(values_json(items@)),
        Layer::Object(pairs) => JsonView::Object(pairs_map(members_json(pairs@))),
    }
}

/// The variants of `serde_json::Value` one for one: a document is taken apart into its outermost
/// layer, which holds what the document holds. The members of an object come out in the order of
/// its map, which has each key once.
#[verifier::external_body]
fn take_apart(v: serde_json::Value) -> (r: Layer)
    ensures
        layer_json(r) == value_json(v),
        r matches Layer::Object(pairs) ==> distinct_keys(pairs@),
{
    match v {
        serde_json::Value::Null => Layer::Null,
        serde_json::Value::Bool(b) => Layer::Bool(b),
        serde_json::Value::Number(n) => Layer::Number(n),
        serde_json::Value::String(s) => Layer::String(s),
        serde_json::Value::Array(items) => Layer::Array(items),
        serde_json::Value::Object(members) => Layer::Object(members.into_iter().collect()),
    }
}

/// The variants of `serde_json::Value` one for one: a document is put together from its outermost
/// layer and holds what the layer holds. The members of an object, of which no two have one key,
/// are collected into its map.
#[verifier::external_body]
fn put_together(layer: Layer) -> (r: serde_json::Value)
    requires
        layer matches Layer::Object(pairs) ==> distinct_keys(pairs@),
    ensures
        value_json(r) == layer_json(layer),
{
    match layer {
        Layer::Null => serde_json::Value::Null,
        Layer::Bool(b) => serde_json::Value::Bool(b),
        Layer::Number(n) => serde_json::Value::Number(n),
        Layer::String(s) => serde_json::Value::String(s),
        Layer::Array(items) => serde_json::Value::Array(items),
        Layer::Object(pairs) => serde_json::Value::Object(pairs.into_iter().collect()),
    }
}

/// Whether a value nests no deeper than `depth`.
pub open spec fn nests(v: JsonView, depth: nat) -> bool
    decreases depth,
{
    match v {
        JsonView::Array(items) => depth > 0 && forall|i: int|
            0 <= i < items.len() ==> nests(#[trigger] items[i], (depth - 1) as nat),
        JsonView::Object(m) => depth > 0 && forall|k: Seq<char>|
            m.contains_key(k) ==> nests(#[trigger] m[k], (depth - 1) as nat),
        _ => true,
    }
}

/// Whether a number is an integer that a machine holds.
pub open spec fn whole(x: serde_json::Number) -> bool {
    exists|n: int| machine_integer(n) && x == #[trigger] json_number(n)
}

/// Whether two values are the same but for their numbers, of which those that a machine holds as
/// integers are the same too.
pub open spec fn alike(v: JsonView, w: JsonView) -> bool
    decreases v,
{
    match (v, w) {
        (JsonView::Number(x), JsonView::Number(y)) => whole(x) ==> x == y,
        (JsonView::Array(items), JsonView::Array(others)) => items.len() == others.len()
            && forall|i: int| 0 <= i < items.len() ==> alike(#[trigger] items[i], others[i]),
        (JsonView::Object(m), JsonView::Object(n)) => m.dom() == n.dom() && forall|k: Seq<char>|
            m.contains_key(k) ==> alike(#[trigger] m[k], n[k]),
        _ => v == w,
    }
}

/// Whether what was read is a value but for its numbers.
pub open spec fn read_alike(v: JsonView, read: Option<JsonView>) -> bool {
    read matches Some(w) && alike(v, w)
}

/// Whether every number in a value is an integer that a machine holds.
pub open spec fn all_whole(v: JsonView) -> bool
    decreases v,
{
    match v {
        JsonView::Number(x) => whole(x),
        JsonView::Array(items) => forall|i: int|
            0 <= i < items.len() ==> all_whole(#[trigger] items[i]),
        JsonView::Object(m) => forall|k: Seq<char>|
            m.contains_key(k) ==> all_whole(#[trigger] m[k]),
        _ => true,
    }
}

/// A value without other numbers than integers that a machine holds is the only one that it is
/// alike to.
pub proof fn law_alike_whole(v: JsonView, w: JsonView)
    requires
        alike(v, w),
        all_whole(v),
    ensures
        v == w,
    decreases v,
{
    match (v, w) {
        (JsonView::Array(items), JsonView::Array(others)) => {
            assert forall|i: int| 0 <= i < items.len() implies items[i] == others[i] by {
                law_alike_whole(items[i], others[i]);
            }
            assert(items =~= others);
        },
        (JsonView::Object(m), JsonView::Object(n)) => {
            assert forall|k: Seq<char>| m.contains_key(k) implies m[k] == n[k] by {
                law_alike_whole(m[k], n[k]);
            }
            assert(m =~= n);
        },
        _ => {},
    }
}

/// What two values that are alike have in common, member by member.
pub proof fn lemma_alike_get(v: JsonView, w: JsonView, key: Seq<char>)
    requires
        alike(v, w),
    ensures
        match (v.get(key), w.get(key)) {
            (Some(a), Some(b)) => alike(a, b),
            (None, None) => true,
            _ => false,
        },
        v.get_str(key) == w.get_str(key),
        match (v.get_array(key), w.get_array(key)) {
            (Some(a), Some(b)) => a.len() == b.len() && forall|i: int|
                0 <= i < a.len() ==> alike(#[trigger] a[i], b[i]),
            (None, None) => true,
            _ => false,
        },
{
    if let (JsonView::Object(m), JsonView::Object(n)) = (v, w) {
        assert(m.contains_key(key) == n.contains_key(key));
    }
}

/// A value that does not nest too deep does not with a member set that does not.
pub proof fn lemma_nests_with(v: JsonView, key: Seq<char>, new: JsonView, depth: nat)
    requires
        nests(v, depth),
        depth > 0,
        nests(new, (depth - 1) as nat),
    ensures
        nests(v.with(key, new), depth),
{
    if let JsonView::Object(m) = v {
        let n = m.insert(key, new);
        assert forall|k: Seq<char>| n.contains_key(k) implies nests(
            #[trigger] n[k],
            (depth - 1) as nat,
        ) by {
            if k != key {
                assert(nests(m[k], (depth - 1) as nat));
            }
        }
    }
}

/// The members of a value that does not nest too deep nest less deep.
pub proof fn lemma_nests_get(v: JsonView, key: Seq<char>, depth: nat)
    requires
        nests(v, depth),
    ensures
        v.get(key) matches Some(a) ==> depth > 0 && nests(a, (depth - 1) as nat),
        v.get_array(key) matches Some(items) ==> depth > 1 && forall|i: int|
            0 <= i < items.len() ==> nests(#[trigger] items[i], (depth - 2) as nat),
{
    if let Some(JsonView::Array(items)) = v.get(key) {
        assert(nests(JsonView::Array(items), (depth - 1) as nat));
    }
}

/// How deep a value may nest to be read.
pub const MAX_DEPTH: usize = 127;

/// What `serde_json::from_slice` reads from bytes; none where the bytes are not JSON.
pub uninterp spec fn parsed_json(bytes: Seq<u8>) -> Option<JsonView>;

/// What `serde_json::from_slice` finds wrong with bytes that are not JSON, in words.
pub uninterp spec fn parse_complaint(bytes: Seq<u8>) -> Seq<char>;

/// The words for an error of `serde_json`.
pub uninterp spec fn error_text(e: serde_json::Error) -> Seq<char>;

/// `serde_json::from_slice`, read as a document: whether the bytes are JSON, what they then hold,
/// and else what is wrong with them depends on the bytes alone. What is read nests no more than 127
/// deep, since the reader gives up at the next opening bracket. Which bytes are JSON is not stated.
#[verifier::external_body]
fn read_value(bytes: &[u8]) -> (r: Result<serde_json::Value, serde_json::Error>)
    ensures
        match r {
            Ok(v) => parsed_json(bytes@) == Some(value_json(v)) && nests(
                value_json(v),
                MAX_DEPTH as nat,
            ),
            Err(e) => parsed_json(bytes@) is None && error_text(e) == parse_complaint(bytes@),
        },
{
    serde_json::from_slice(bytes)
}

/// `ToString::to_string` of `serde_json::Error`: what is wrong with a text, in words, which depend
/// on the error alone. What the words are is not stated.
#[verifier::external_body]
fn complaint(e: &serde_json::Error) -> (r: String)
    ensures
        r@ == error_text(*e),
{
    e.to_string()
}

/// The compact text that `serde_json::to_string` writes for what a document holds.
pub uninterp spec fn json_text(v: JsonView) -> Seq<char>;

/// `serde_json::to_string` of a document: the compact text of what it holds. Writing a document
/// does not fail. The text is never empty and, since a line feed in a string is escaped and nothing
/// is put between tokens, it is one line. `serde_json::from_slice` reads it back, if the document
/// does not nest more than 127 deep, as the same but for its numbers: machine integers come back as
/// they were, and a floating-point number, which is always finite, as a number that may be rounded.
/// Its size is that of its tokens, as `size` adds them up. What else the text is is not stated.
#[verifier::external_body]
fn write_value(v: &serde_json::Value) -> (r: String)
    ensures
        r@ == json_text(value_json(*v)),
        r@.len() > 0,
        forall|i: int| 0 <= i < r@.len() ==> #[trigger] r@[i] != '\n',
        nests(value_json(*v), MAX_DEPTH as nat) ==> read_alike(
            value_json(*v),
            parsed_json(encode_utf8(r@)),
        ),
        utf8_len(r@) == size(value_json(*v)),
{
    serde_json::to_string(v).unwrap_or_default()
}

/// `values_json` of more values.
proof fn lemma_values_push(items: Seq<serde_json::Value>, item: serde_json::Value)
    ensures
        values_json(items.push(item)) == values_json(items).push(value_json(item)),
{
    assert(values_json(items.push(item)) =~= values_json(items).push(value_json(item)));
}

fn to_values(items: &Vec<Json>) -> (r: Vec<serde_json::Value>)
    ensures
        values_json(r@) == views(items@),
    decreases items,
{
    let mut values: Vec<serde_json::Value> = Vec::new();
    let mut i: usize = 0;
    while i < items.len()
        invariant
            i <= items@.len(),
            values_json(values@) == views(items@).take(i as int),
        decreases items@.len() - i,
    {
        proof {
            assert(decreases_to!(items => items@[i as int]));
        }
        let value = items[i].to_value();
        proof {
            lemma_values_push(values@, value);
        }
        values.push(value);
        i = i + 1;
        assert(values_json(values@) =~= views(items@).take(i as int));
    }
    assert(values_json(values@) =~= views(items@));
    values
}

fn from_values(values: Vec<serde_json::Value>) -> (r: Vec<Json>)
    ensures
        views(r@) == values_json(values@),
    decreases values_json(values@),
{
    let mut rest = values;
    let ghost all = values@;
    let mut items: Vec<Json> = Vec::new();
    while rest.len() > 0
        invariant
            all == values@,
            rest@.len() + items@.len() == all.len(),
            rest@ == all.skip(items@.len() as int),
            views(items@) == values_json(all).take(items@.len() as int),
        decreases rest@.len(),
    {
        let ghost n = items@.len() as int;
        let value = rest.remove(0);
        proof {
            assert(value == all[n]);
            assert(value_json(value) == values_json(all)[n]);
            assert(decreases_to!(values_json(values@) => values_json(values@)[n]));
        }
        let item = Json::from_value(value);
        proof {
            lemma_views_push(items@, item);
        }
        items.push(item);
        assert(rest@ =~= all.skip(n + 1));
        assert(views(items@) =~= values_json(all).take(n + 1));
    }
    assert(views(items@) =~= values_json(all));
    items
}

/// Whether no two pairs have one key.
spec fn distinct_keys(pairs: Seq<(String, serde_json::Value)>) -> bool {
    forall|i: int, j: int| 0 <= i < j < pairs.len() ==> #[trigger] pairs[i].0@ != #[trigger] pairs[j].0@
}

fn from_members(pairs: Vec<(String, serde_json::Value)>) -> (r: JsonMap)
    requires
        distinct_keys(pairs@),
    ensures
        r@ == pairs_map(members_json(pairs@)),
    decreases pairs_map(members_json(pairs@)),
{
    let mut rest = pairs;
    let ghost all = pairs@;
    let ghost members = members_json(all);
    let mut entries: Vec<(String, Json)> = Vec::new();
    while rest.len() > 0
        invariant
            all == pairs@,
            members == members_json(all),
            distinct_keys(all),
            rest@.len() + entries@.len() == all.len(),
            rest@ == all.skip(entries@.len() as int),
            pair_views(entries@) == members.take(entries@.len() as int),
        decreases rest@.len(),
    {
        let ghost n = entries@.len() as int;
        let (key, value) = rest.remove(0);
        proof {
            assert(all[n] == (key, value));
            assert forall|j: int| n < j < members.len() implies (#[trigger] members[j]).0
                != members[n].0 by {
                assert(all[n].0@ != all[j].0@);
            }
            lemma_pairs_last(members, n);
            lemma_pairs_finite(members);
            assert(decreases_to!(pairs_map(members) => pairs_map(members)[key@]));
        }
        let item = Json::from_value(value);
        proof {
            lemma_pair_views_push(entries@, (key, item));
        }
        entries.push((key, item));
        assert(rest@ =~= all.skip(n + 1));
        assert(pair_views(entries@) =~= members.take(n + 1));
    }
    assert(pair_views(entries@) =~= members);
    JsonMap { entries }
}

/// Which of some pairs a later one with the same key shadows makes no difference.
proof fn lemma_unshadowed(pairs: Seq<(Seq<char>, JsonView)>, some: Seq<(Seq<char>, JsonView)>)
    requires
        forall|i: int, j: int|
            0 <= i < j < some.len() ==> #[trigger] some[i].0 != #[trigger] some[j].0,
        forall|i: int| 0 <= i < some.len() ==> last_of(
            pairs,
            pairs.len() as int,
            #[trigger] some[i],
        ),
        forall|i: int|
            0 <= i < pairs.len() && unshadowed(pairs, i) ==> some.contains(#[trigger] pairs[i]),
    ensures
        pairs_map(some) == pairs_map(pairs),
{
    assert forall|k: Seq<char>| #[trigger] pairs_map(some).dom().contains(k) implies pairs_map(
        pairs,
    ).dom().contains(k) && pairs_map(pairs)[k] == pairs_map(some)[k] by {
        lemma_pairs_source(some, k);
        let i = choose|i: int|
            0 <= i < some.len() && (#[trigger] some[i]).0 == k && some[i].1 == pairs_map(some)[k];
        assert(last_of(pairs, pairs.len() as int, some[i]));
        let j = choose|j: int|
            0 <= j < pairs.len() && unshadowed(pairs, j) && #[trigger] pairs[j] == some[i];
        lemma_pairs_last(pairs, j);
    }
    assert forall|k: Seq<char>| #[trigger] pairs_map(pairs).dom().contains(k) implies pairs_map(
        some,
    ).dom().contains(k) by {
        lemma_pairs_source(pairs, k);
        let i = choose|i: int|
            0 <= i < pairs.len() && (#[trigger] pairs[i]).0 == k && forall|j: int|
                i < j < pairs.len() ==> (#[trigger] pairs[j]).0 != k;
        assert(unshadowed(pairs, i));
        assert(some.contains(pairs[i]));
        let j = choose|j: int| 0 <= j < some.len() && some[j] == pairs[i];
        lemma_pairs_present(some, j);
    }
    assert(pairs_map(some).dom() =~= pairs_map(pairs).dom());
    assert(pairs_map(some) =~= pairs_map(pairs));
}

/// Whether no later pair has the key of the `i`th.
spec fn unshadowed(pairs: Seq<(Seq<char>, JsonView)>, i: int) -> bool {
    forall|j: int| i < j < pairs.len() ==> (#[trigger] pairs[j]).0 != pairs[i].0
}

/// Whether a pair is one of the first `n` and the last with its key.
spec fn last_of(pairs: Seq<(Seq<char>, JsonView)>, n: int, pair: (Seq<char>, JsonView)) -> bool {
    exists|j: int| 0 <= j < n && unshadowed(pairs, j) && #[trigger] pairs[j] == pair
}

impl JsonMap {
    /// The members as they are written: of two entries with one key, the later.
    fn to_members(&self) -> (r: Vec<(String, serde_json::Value)>)
        ensures
            pairs_map(members_json(r@)) == self@,
            distinct_keys(r@),
        decreases self,
    {
        let ghost all = pair_views(self.entries@);
        let mut pairs: Vec<(String, serde_json::Value)> = Vec::new();
        let mut i: usize = 0;
        while i < self.entries.len()
            invariant
                i <= self.entries@.len(),
                all == pair_views(self.entries@),
                distinct_keys(pairs@),
                forall|k: int|
                    0 <= k < pairs@.len() ==> last_of(
                        all,
                        i as int,
                        #[trigger] members_json(pairs@)[k],
                    ),
                forall|j: int|
                    0 <= j < i && unshadowed(all, j) ==> members_json(pairs@).contains(
                        #[trigger] all[j],
                    ),
            decreases self.entries@.len() - i,
        {
            proof {
                assert(decreases_to!(self.entries => self.entries@[i as int]));
            }
            let ghost before = pairs@;
            let ghost n = i as int;
            let key = self.entries[i].0.clone();
            let found = self.find(&key);
            let last = match found {
                Some(j) => j == i,
                None => false,
            };
            assert(last == unshadowed(all, n)) by {
                assert(self.entries@[n].0@ == key@);
                assert forall|j: int| n < j < all.len() implies (#[trigger] all[j]).0
                    == self.entries@[j].0@ by {}
                if let Some(j) = found {
                    if j > n {
                        assert(all[j as int].0 == all[n].0);
                    }
                }
            }
            if last {
                let value = self.entries[i].1.to_value();
                pairs.push((key, value));
                proof {
                    let old_members = members_json(before);
                    let new_members = members_json(pairs@);
                    assert(new_members =~= old_members.push((key@, value_json(value))));
                    assert(new_members[before.len() as int] == all[n]);
                    assert forall|j: int| 0 <= j < n + 1 && unshadowed(all, j) implies new_members.contains(
                        #[trigger] all[j]) by {
                        if j < n {
                            let k = choose|k: int| 0 <= k < old_members.len() && old_members[k] == all[j];
                            assert(new_members[k] == all[j]);
                        }
                    }
                    assert forall|k: int, l: int| 0 <= k < l < pairs@.len() implies #[trigger] pairs@[k].0@
                        != #[trigger] pairs@[l].0@ by {
                        if l < before.len() {
                            assert(before[k].0@ != before[l].0@);
                        } else {
                            assert(old_members[k] == (before[k].0@, value_json(before[k].1)));
                            assert(last_of(all, n, old_members[k]));
                            let j = choose|j: int|
                                0 <= j < n && unshadowed(all, j) && (#[trigger] all[j]) == old_members[k];
                            assert(all[n].0 != all[j].0);
                        }
                    }
                    assert forall|k: int| 0 <= k < pairs@.len() implies last_of(
                        all,
                        n + 1,
                        #[trigger] new_members[k],
                    ) by {
                        if k < before.len() {
                            assert(new_members[k] == old_members[k]);
                            let j = choose|j: int|
                                0 <= j < n && unshadowed(all, j) && #[trigger] all[j]
                                    == old_members[k];
                            assert(all[j] == new_members[k]);
                        } else {
                            assert(all[n] == new_members[k]);
                        }
                    }
                }
            } else {
                proof {
                    assert forall|k: int| 0 <= k < pairs@.len() implies last_of(
                        all,
                        n + 1,
                        #[trigger] members_json(pairs@)[k],
                    ) by {
                        let j = choose|j: int|
                            0 <= j < n && unshadowed(all, j) && #[trigger] all[j] == members_json(
                                pairs@,
                            )[k];
                        assert(all[j] == members_json(pairs@)[k]);
                    }
                }
            }
            i = i + 1;
        }
        proof {
            let some = members_json(pairs@);
            assert forall|i: int, j: int| 0 <= i < j < some.len() implies #[trigger] some[i].0
                != #[trigger] some[j].0 by {
                assert(pairs@[i].0@ != pairs@[j].0@);
            }
            lemma_unshadowed(all, some);
        }
        pairs
    }
}

impl Json {
    fn to_value(&self) -> (r: serde_json::Value)
        ensures
            value_json(r) == self@,
        decreases self,
    {
        let layer = match self {
            Json::Null => Layer::Null,
            Json::Bool(b) => Layer::Bool(*b),
            Json::Number(n) => Layer::Number(n.clone()),
            Json::String(s) => Layer::String(s.clone()),
            Json::Array(items) => Layer::Array(to_values(items)),
            Json::Object(m) => Layer::Object(m.to_members()),
        };
        put_together(layer)
    }

    fn from_value(v: serde_json::Value) -> (r: Json)
        ensures
            r@ == value_json(v),
        decreases value_json(v),
    {
        match take_apart(v) {
            Layer::Null => Json::Null,
            Layer::Bool(b) => Json::Bool(b),
            Layer::Number(n) => Json::Number(n),
            Layer::String(s) => Json::String(s),
            Layer::Array(values) => {
                assert(decreases_to!(value_json(v) => value_json(v)->Array_0));
                Json::Array(from_values(values))
            },
            Layer::Object(pairs) => {
                assert(decreases_to!(value_json(v) => value_json(v)->Object_0));
                Json::Object(from_members(pairs))
            },
        }
    }

    /// Reads a JSON text.
    pub fn parse(bytes: &[u8]) -> (r: Option<Json>)
        ensures
            match r {
                Some(v) => parsed_json(bytes@) == Some(v@) && nests(v@, MAX_DEPTH as nat),
                None => parsed_json(bytes@) is None,
            },
    {
        match read_value(bytes) {
            Ok(v) => Some(Json::from_value(v)),
            Err(_) => None,
        }
    }

    /// Reads a JSON text, or says what is wrong with it.
    pub fn read(bytes: &[u8]) -> (r: Result<Json, String>)
        ensures
            match r {
                Ok(v) => parsed_json(bytes@) == Some(v@) && nests(v@, MAX_DEPTH as nat),
                Err(why) => parsed_json(bytes@) is None && why@ == parse_complaint(bytes@),
            },
    {
        match read_value(bytes) {
            Ok(v) => Ok(Json::from_value(v)),
            Err(e) => Err(complaint(&e)),
        }
    }

    /// The compact text of the value: one line, which reads back as the value but for its numbers,
    /// unless that nests too deep.
    pub fn to_text(&self) -> (r: String)
        ensures
            r@ == json_text(self@),
            r@.len() > 0,
            forall|i: int| 0 <= i < r@.len() ==> #[trigger] r@[i] != '\n',
            nests(self@, MAX_DEPTH as nat) ==> read_alike(self@, parsed_json(encode_utf8(r@))),
            utf8_len(r@) == size(self@),
    {
        write_value(&self.to_value())
    }
}

/// The compact text of an array of values.
pub fn array_text(items: &[Json]) -> (r: String)
    ensures
        r@ == json_text(JsonView::Array(views(items@))),
        utf8_len(r@) == size(JsonView::Array(views(items@))),
{
    let mut values: Vec<serde_json::Value> = Vec::new();
    let mut i: usize = 0;
    while i < items.len()
        invariant
            i <= items@.len(),
            values_json(values@) == views(items@).take(i as int),
        decreases items@.len() - i,
    {
        let value = items[i].to_value();
        proof {
            lemma_values_push(values@, value);
        }
        values.push(value);
        i = i + 1;
        assert(values_json(values@) =~= views(items@).take(i as int));
    }
    assert(values_json(values@) =~= views(items@));
    write_value(&put_together(Layer::Array(values)))
}

} // verus!
