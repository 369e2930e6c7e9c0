//! Tables from text to values.

use crate::text::same_text;
use vstd::prelude::*;

verus! {

/// The map that results from inserting the pairs one after another: of two pairs with one key the
/// later stays.
pub open spec fn pairs_map<V>(pairs: Seq<(Seq<char>, V)>) -> Map<Seq<char>, V>
    decreases pairs.len(),
{
    if pairs.len() == 0 {
        Map::empty()
    } else {
        pairs_map(pairs.drop_last()).insert(pairs.last().0, pairs.last().1)
    }
}

/// A key that no pair has is not in the map.
pub proof fn lemma_pairs_absent<V>(pairs: Seq<(Seq<char>, V)>, key: Seq<char>)
    requires
        forall|j: int| 0 <= j < pairs.len() ==> (#[trigger] pairs[j]).0 != key,
    ensures
        !pairs_map(pairs).contains_key(key),
    decreases pairs.len(),
{
    if pairs.len() > 0 {
        lemma_pairs_absent(pairs.drop_last(), key);
    }
}

/// The key of each pair is in the map.
pub proof fn lemma_pairs_present<V>(pairs: Seq<(Seq<char>, V)>, i: int)
    requires
        0 <= i < pairs.len(),
    ensures
        pairs_map(pairs).contains_key(pairs[i].0),
    decreases pairs.len(),
{
    if i < pairs.len() - 1 {
        assert(pairs.drop_last()[i] == pairs[i]);
        lemma_pairs_present(pairs.drop_last(), i);
    }
}

/// The last pair with a key decides what the map holds under it.
pub proof fn lemma_pairs_last<V>(pairs: Seq<(Seq<char>, V)>, i: int)
    requires
        0 <= i < pairs.len(),
        forall|j: int| i < j < pairs.len() ==> (#[trigger] pairs[j]).0 != pairs[i].0,
    ensures
        pairs_map(pairs).contains_key(pairs[i].0),
        pairs_map(pairs)[pairs[i].0] == pairs[i].1,
    decreases pairs.len(),
{
    if i < pairs.len() - 1 {
        assert(pairs.drop_last()[i] == pairs[i]);
        lemma_pairs_last(pairs.drop_last(), i);
    }
}

/// What the map holds under a key comes from the last pair with it.
pub proof fn lemma_pairs_source<V>(pairs: Seq<(Seq<char>, V)>, key: Seq<char>)
    requires
        pairs_map(pairs).contains_key(key),
    ensures
        exists|i: int|
            0 <= i < pairs.len() && (#[trigger] pairs[i]).0 == key && pairs[i].1 == pairs_map(
                pairs,
            )[key] && forall|j: int| i < j < pairs.len() ==> (#[trigger] pairs[j]).0 != key,
    decreases pairs.len(),
{
    if pairs.last().0 == key {
        assert(pairs[pairs.len() - 1].0 == key);
    } else {
        let init = pairs.drop_last();
        lemma_pairs_source(init, key);
        let i = choose|i: int|
            0 <= i < init.len() && (#[trigger] init[i]).0 == key && init[i].1 == pairs_map(
                init,
            )[key] && forall|j: int| i < j < init.len() ==> (#[trigger] init[j]).0 != key;
        assert(pairs[i] == init[i]);
        assert forall|j: int| i < j < pairs.len() implies (#[trigger] pairs[j]).0 != key by {
            if j < init.len() {
                assert(init[j] == pairs[j]);
            }
        }
    }
}

/// To overwrite the last pair with a key is to insert into the map.
pub proof fn lemma_pairs_overwrite<V>(pairs: Seq<(Seq<char>, V)>, i: int, value: V)
    requires
        0 <= i < pairs.len(),
        forall|j: int| i < j < pairs.len() ==> (#[trigger] pairs[j]).0 != pairs[i].0,
    ensures
        pairs_map(pairs.update(i, (pairs[i].0, value))) == pairs_map(pairs).insert(
            pairs[i].0,
            value,
        ),
    decreases pairs.len(),
{
    let new = pairs.update(i, (pairs[i].0, value));
    if i < pairs.len() - 1 {
        assert(pairs.drop_last()[i] == pairs[i]);
        lemma_pairs_overwrite(pairs.drop_last(), i, value);
        assert(new.drop_last() =~= pairs.drop_last().update(i, (pairs[i].0, value)));
        assert(new.last() == pairs.last());
        assert(pairs_map(new) =~= pairs_map(pairs).insert(pairs[i].0, value));
    } else {
        assert(new.drop_last() =~= pairs.drop_last());
        assert(pairs_map(new) =~= pairs_map(pairs).insert(pairs[i].0, value));
    }
}

pub proof fn lemma_pairs_finite<V>(pairs: Seq<(Seq<char>, V)>)
    ensures
        pairs_map(pairs).dom().finite(),
    decreases pairs.len(),
{
    if pairs.len() > 0 {
        lemma_pairs_finite(pairs.drop_last());
    }
}

/// To put one more pair behind the others is to insert into the map.
pub proof fn lemma_pairs_push<V>(pairs: Seq<(Seq<char>, V)>, pair: (Seq<char>, V))
    ensures
        pairs_map(pairs.push(pair)) == pairs_map(pairs).insert(pair.0, pair.1),
{
    assert(pairs.push(pair).drop_last() =~= pairs);
}

/// A table from text to values, in which of two entries with one key the later counts.
pub struct Assoc<V> {
    entries: Vec<(String, V)>,
}

spec fn entry_views<V>(entries: Seq<(String, V)>) -> Seq<(Seq<char>, V)> {
    Seq::new(entries.len(), |i: int| (entries[i].0@, entries[i].1))
}

impl<V> View for Assoc<V> {
    type V = Map<Seq<char>, V>;

    closed spec fn view(&self) -> Map<Seq<char>, V> {
        pairs_map(entry_views(self.entries@))
    }
}

impl<V> Assoc<V> {
    /// A table without entries.
    pub fn new() -> (r: Assoc<V>)
        ensures
            r@ == Map::<Seq<char>, V>::empty(),
    {
        let r = Assoc { entries: Vec::new() };
        assert(entry_views(r.entries@) =~= Seq::empty());
        r
    }

    /// Puts a value under a key.
    pub fn insert(&mut self, key: String, value: V)
        ensures
            final(self)@ == old(self)@.insert(key@, value),
    {
        proof {
            lemma_pairs_push(entry_views(self.entries@), (key@, value));
        }
        let ghost before = self.entries@;
        self.entries.push((key, value));
        assert(entry_views(self.entries@) =~= entry_views(before).push((key@, value)));
    }

    /// The value under a key.
    pub fn get(&self, key: &str) -> (r: Option<&V>)
        ensures
            match r {
                Some(v) => self@.contains_key(key@) && self@[key@] == *v,
                None => !self@.contains_key(key@),
            },
    {
        let ghost pairs = entry_views(self.entries@);
        let mut i: usize = self.entries.len();
        while i > 0
            invariant
                i <= self.entries@.len(),
                pairs == entry_views(self.entries@),
                forall|j: int| i <= j < pairs.len() ==> (#[trigger] pairs[j]).0 != key@,
            decreases i,
        {
            i = i - 1;
            if same_text(&self.entries[i].0, key) {
                proof {
                    assert(pairs[i as int].0 == key@);
                    lemma_pairs_last(pairs, i as int);
                }
                return Some(&self.entries[i].1);
            }
        }
        proof {
            lemma_pairs_absent(pairs, key@);
        }
        None
    }

    /// A key of this table that another has not: the earliest entered, if there is one.
    pub fn first_absent<W>(&self, other: &Assoc<W>) -> (r: Option<String>)
        ensures
            match r {
                Some(key) => self@.contains_key(key@) && !other@.contains_key(key@),
                None => forall|key: Seq<char>| #[trigger]
                    self@.contains_key(key) ==> other@.contains_key(key),
            },
    {
        let ghost pairs = entry_views(self.entries@);
        let mut i: usize = 0;
        while i < self.entries.len()
            invariant
                i <= self.entries@.len(),
                pairs == entry_views(self.entries@),
                forall|j: int| 0 <= j < i ==> other@.contains_key((#[trigger] pairs[j]).0),
            decreases self.entries@.len() - i,
        {
            if other.get(&self.entries[i].0).is_none() {
                proof {
                    assert(pairs[i as int].0 == self.entries@[i as int].0@);
                    lemma_pairs_present(pairs, i as int);
                }
                return Some(self.entries[i].0.clone());
            }
            i = i + 1;
        }
        proof {
            assert forall|key: Seq<char>| #[trigger] self@.contains_key(key) implies other@.contains_key(key) by {
                if !other@.contains_key(key) {
                    lemma_pairs_absent(pairs, key);
                }
            }
        }
        None
    }
}

} // verus!
