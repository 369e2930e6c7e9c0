//! The blocks of a transcript that meet a test, in order.

use crate::json::{lemma_views, views, Json, JsonView};
use crate::pairing::{block_at, blocks_of, get_block, id_at};
use vstd::prelude::*;

verus! {

/// A test on the block at a position.
pub type Test = spec_fn(int, int, JsonView) -> bool;

/// The positions in message `mi` of the blocks that meet the test.
pub open spec fn sites_in(blocks: Seq<JsonView>, mi: int, test: Test) -> Seq<(int, int)>
    decreases blocks.len(),
{
    if blocks.len() == 0 {
        Seq::empty()
    } else {
        let ci = blocks.len() - 1;
        let before = sites_in(blocks.drop_last(), mi, test);
        if test(mi, ci, blocks[ci]) {
            before.push((mi, ci))
        } else {
            before
        }
    }
}

/// The positions of the blocks that meet the test, first to last.
pub open spec fn sites(messages: Seq<JsonView>, test: Test) -> Seq<(int, int)>
    decreases messages.len(),
{
    if messages.len() == 0 {
        Seq::empty()
    } else {
        let mi = messages.len() - 1;
        sites(messages.drop_last(), test) + sites_in(blocks_of(messages[mi]), mi, test)
    }
}

/// Whether a position comes before another.
pub open spec fn before(p: (int, int), q: (int, int)) -> bool {
    p.0 < q.0 || (p.0 == q.0 && p.1 < q.1)
}

proof fn lemma_sites_in(blocks: Seq<JsonView>, mi: int, test: Test)
    ensures
        ({
            let s = sites_in(blocks, mi, test);
            &&& forall|i: int|
                0 <= i < s.len() ==> {
                    let p = #[trigger] s[i];
                    p.0 == mi && 0 <= p.1 < blocks.len() && test(mi, p.1, blocks[p.1])
                }
            &&& forall|i: int, j: int| 0 <= i < j < s.len() ==> before(#[trigger] s[i], #[trigger] s[j])
            &&& forall|ci: int|
                0 <= ci < blocks.len() && test(mi, ci, #[trigger] blocks[ci]) ==> s.contains((mi, ci))
        }),
    decreases blocks.len(),
{
    if blocks.len() > 0 {
        let init = blocks.drop_last();
        let s0 = sites_in(init, mi, test);
        let s = sites_in(blocks, mi, test);
        let last = blocks.len() - 1;
        lemma_sites_in(init, mi, test);
        assert forall|i: int| 0 <= i < s.len() implies {
            let p = #[trigger] s[i];
            p.0 == mi && 0 <= p.1 < blocks.len() && test(mi, p.1, blocks[p.1])
        } by {
            if i < s0.len() {
                assert(s[i] == s0[i]);
            }
        }
        assert forall|i: int, j: int| 0 <= i < j < s.len() implies before(#[trigger] s[i], #[trigger] s[j]) by {
            assert(s[i] == s0[i]);
            if j < s0.len() {
                assert(s[j] == s0[j]);
            }
        }
        assert forall|ci: int| 0 <= ci < blocks.len() && test(mi, ci, #[trigger] blocks[ci]) implies s.contains((mi, ci)) by {
            if ci == last {
                assert(s[s.len() - 1] == (mi, ci));
            } else {
                assert(init[ci] == blocks[ci]);
                let k = choose|k: int| 0 <= k < s0.len() && s0[k] == (mi, ci);
                assert(s[k] == (mi, ci));
            }
        }
    }
}

/// The positions are those of the blocks that meet the test, each once and in order.
pub proof fn lemma_sites(messages: Seq<JsonView>, test: Test)
    ensures
        ({
            let s = sites(messages, test);
            &&& forall|i: int|
                0 <= i < s.len() ==> {
                    let p = #[trigger] s[i];
                    block_at(messages, p.0, p.1) matches Some(b) && test(p.0, p.1, b)
                }
            &&& forall|i: int, j: int| 0 <= i < j < s.len() ==> before(#[trigger] s[i], #[trigger] s[j])
            &&& forall|mi: int, ci: int|
                (#[trigger] block_at(messages, mi, ci) matches Some(b) && test(mi, ci, b)) ==> s.contains(
                    (mi, ci),
                )
        }),
    decreases messages.len(),
{
    if messages.len() > 0 {
        let init = messages.drop_last();
        let last = messages.len() - 1;
        let blocks = blocks_of(messages[last]);
        let s0 = sites(init, test);
        let s1 = sites_in(blocks, last, test);
        let s = sites(messages, test);
        lemma_sites(init, test);
        lemma_sites_in(blocks, last, test);
        assert forall|i: int| 0 <= i < s.len() implies {
            let p = #[trigger] s[i];
            block_at(messages, p.0, p.1) matches Some(b) && test(p.0, p.1, b)
        } by {
            if i < s0.len() {
                assert(s[i] == s0[i]);
                assert(block_at(init, s[i].0, s[i].1) == block_at(messages, s[i].0, s[i].1));
            } else {
                assert(s[i] == s1[i - s0.len()]);
            }
        }
        assert forall|i: int, j: int| 0 <= i < j < s.len() implies before(#[trigger] s[i], #[trigger] s[j]) by {
            if j < s0.len() {
                assert(s[i] == s0[i]);
                assert(s[j] == s0[j]);
            } else {
                assert(s[j] == s1[j - s0.len()]);
                if i < s0.len() {
                    assert(s[i] == s0[i]);
                    assert(block_at(init, s[i].0, s[i].1) is Some);
                } else {
                    assert(s[i] == s1[i - s0.len()]);
                }
            }
        }
        assert forall|mi: int, ci: int|
            (#[trigger] block_at(messages, mi, ci) matches Some(b) && test(mi, ci, b)) implies s.contains((mi, ci)) by {
            if mi == last {
                assert(test(mi, ci, blocks[ci]));
                let k = choose|k: int| 0 <= k < s1.len() && s1[k] == (mi, ci);
                assert(s[s0.len() + k] == (mi, ci));
            } else {
                assert(block_at(init, mi, ci) == block_at(messages, mi, ci));
                let k = choose|k: int| 0 <= k < s0.len() && s0[k] == (mi, ci);
                assert(s[k] == (mi, ci));
            }
        }
    }
}

/// Positions as the machine holds them.
pub open spec fn ints(v: Seq<(usize, usize)>) -> Seq<(int, int)> {
    Seq::new(v.len(), |i: int| (v[i].0 as int, v[i].1 as int))
}

proof fn lemma_ints_push(v: Seq<(usize, usize)>, p: (usize, usize))
    ensures
        ints(v.push(p)) == ints(v).push((p.0 as int, p.1 as int)),
{
    assert(ints(v.push(p)) =~= ints(v).push((p.0 as int, p.1 as int)));
}

/// A test that can be run.
pub trait BlockTest {
    /// What the test rests on.
    spec fn ready(&self) -> bool;

    /// Whether a block meets the test.
    spec fn holds(&self, mi: int, ci: int, block: JsonView) -> bool;

    /// Says whether a block of message `mi` meets the test.
    fn test(&self, mi: usize, ci: usize, block: &Json) -> (r: bool)
        requires
            self.ready(),
        ensures
            r == self.holds(mi as int, ci as int, block@),
    ;
}

/// Finds the blocks of a transcript that meet a test.
pub fn find_sites<T: BlockTest>(messages: &Vec<Json>, test: &T) -> (r: Vec<(usize, usize)>)
    requires
        test.ready(),
    ensures
        ints(r@) == sites(
            views(messages@),
            |mi: int, ci: int, b: JsonView| test.holds(mi, ci, b),
        ),
{
    let ghost f = |mi: int, ci: int, b: JsonView| test.holds(mi, ci, b);
    let ghost all = views(messages@);
    let mut r: Vec<(usize, usize)> = Vec::new();
    assert(ints(r@) =~= Seq::empty());
    let mut mi: usize = 0;
    while mi < messages.len()
        invariant
            mi <= messages@.len(),
            all == views(messages@),
            f == (|mi: int, ci: int, b: JsonView| test.holds(mi, ci, b)),
            test.ready(),
            ints(r@) == sites(all.take(mi as int), f),
        decreases messages@.len() - mi,
    {
        let ghost done = ints(r@);
        let ghost blocks = blocks_of(all[mi as int]);
        proof {
            lemma_views(messages@);
            assert(all.take(mi + 1).drop_last() =~= all.take(mi as int));
            assert(all.take(mi + 1)[mi as int] == all[mi as int]);
        }
        if let Some(content) = messages[mi].get_array("content") {
            let mut ci: usize = 0;
            assert(blocks.take(0) =~= Seq::empty());
            assert(done + sites_in(blocks.take(0), mi as int, f) =~= done);
            while ci < content.len()
                invariant
                    ci <= content@.len(),
                    mi < messages@.len(),
                    f == (|mi: int, ci: int, b: JsonView| test.holds(mi, ci, b)),
                    test.ready(),
                    blocks == views(content@),
                    ints(r@) == done + sites_in(blocks.take(ci as int), mi as int, f),
                decreases content@.len() - ci,
            {
                proof {
                    lemma_views(content@);
                    assert(blocks.take(ci + 1).drop_last() =~= blocks.take(ci as int));
                    assert(blocks.take(ci + 1)[ci as int] == blocks[ci as int]);
                    lemma_ints_push(r@, (mi, ci));
                }
                if test.test(mi, ci, &content[ci]) {
                    r.push((mi, ci));
                    assert(ints(r@) =~= done + sites_in(blocks.take(ci + 1), mi as int, f));
                }
                ci = ci + 1;
            }
            assert(blocks.take(ci as int) =~= blocks);
        } else {
            assert(blocks =~= Seq::empty());
            assert(done + sites_in(blocks, mi as int, f) =~= done);
        }
        mi = mi + 1;
    }
    assert(all.take(mi as int) =~= all);
    r
}

/// The ids that the calls at some positions name.
pub fn ids_of(messages: &Vec<Json>, list: &Vec<(usize, usize)>) -> (r: Vec<String>)
    requires
        forall|i: int|
            0 <= i < list@.len() ==> id_at(views(messages@), #[trigger] ints(list@)[i]) is Some,
    ensures
        r@.len() == list@.len(),
        forall|i: int|
            0 <= i < list@.len() ==> id_at(views(messages@), #[trigger] ints(list@)[i]) == Some(
                r@[i]@,
            ),
{
    let mut r: Vec<String> = Vec::new();
    let mut i: usize = 0;
    while i < list.len()
        invariant
            i <= list@.len(),
            r@.len() == i,
            forall|k: int|
                0 <= k < list@.len() ==> id_at(views(messages@), #[trigger] ints(list@)[k]) is Some,
            forall|k: int|
                0 <= k < i ==> id_at(views(messages@), #[trigger] ints(list@)[k]) == Some(r@[k]@),
        decreases list@.len() - i,
    {
        let p = list[i];
        assert(ints(list@)[i as int] == (p.0 as int, p.1 as int));
        if let Some(block) = get_block(messages, p.0, p.1) {
            if let Some(id) = block.get_str("id") {
                r.push(id.to_owned());
            }
        }
        i = i + 1;
    }
    r
}

/// Finds a position in a list of positions.
pub fn find_position(list: &Vec<(usize, usize)>, p: (usize, usize)) -> (r: Option<usize>)
    ensures
        match r {
            Some(i) => i < list@.len() && list@[i as int] == p && forall|j: int|
                0 <= j < i ==> list@[j] != p,
            None => forall|j: int| 0 <= j < list@.len() ==> list@[j] != p,
        },
{
    let mut i: usize = 0;
    while i < list.len()
        invariant
            i <= list@.len(),
            forall|j: int| 0 <= j < i ==> list@[j] != p,
        decreases list@.len() - i,
    {
        if list[i].0 == p.0 && list[i].1 == p.1 {
            return Some(i);
        }
        i = i + 1;
    }
    None
}

proof fn lemma_sites_in_agree(
    blocks: Seq<JsonView>,
    f: Test,
    others: Seq<JsonView>,
    g: Test,
    mi: int,
)
    requires
        blocks.len() == others.len(),
        forall|ci: int|
            0 <= ci < blocks.len() ==> f(mi, ci, #[trigger] blocks[ci]) == g(mi, ci, others[ci]),
    ensures
        sites_in(blocks, mi, f) == sites_in(others, mi, g),
    decreases blocks.len(),
{
    if blocks.len() > 0 {
        let a = blocks.drop_last();
        let b = others.drop_last();
        assert forall|ci: int| 0 <= ci < a.len() implies f(mi, ci, #[trigger] a[ci]) == g(
            mi,
            ci,
            b[ci],
        ) by {
            assert(a[ci] == blocks[ci]);
        }
        lemma_sites_in_agree(a, f, b, g, mi);
        assert(f(mi, blocks.len() - 1, blocks[blocks.len() - 1]) == g(
            mi,
            blocks.len() - 1,
            others[blocks.len() - 1],
        ));
    }
}

/// Transcripts of one shape whose blocks meet their tests at the same positions have the same
/// sites.
pub proof fn lemma_sites_agree(
    messages: Seq<JsonView>,
    f: Test,
    others: Seq<JsonView>,
    g: Test,
)
    requires
        messages.len() == others.len(),
        forall|mi: int, ci: int|
            match (#[trigger] block_at(messages, mi, ci), block_at(others, mi, ci)) {
                (Some(a), Some(b)) => f(mi, ci, a) == g(mi, ci, b),
                (None, None) => true,
                _ => false,
            },
    ensures
        sites(messages, f) == sites(others, g),
    decreases messages.len(),
{
    if messages.len() > 0 {
        let a = messages.drop_last();
        let b = others.drop_last();
        let last = messages.len() - 1;
        assert forall|mi: int, ci: int|
            match (#[trigger] block_at(a, mi, ci), block_at(b, mi, ci)) {
                (Some(x), Some(y)) => f(mi, ci, x) == g(mi, ci, y),
                (None, None) => true,
                _ => false,
            } by {
            if mi < last {
                assert(block_at(a, mi, ci) == block_at(messages, mi, ci));
                assert(block_at(b, mi, ci) == block_at(others, mi, ci));
            }
        }
        lemma_sites_agree(a, f, b, g);
        let x = blocks_of(messages[last]);
        let y = blocks_of(others[last]);
        assert(x.len() == y.len()) by {
            if x.len() < y.len() {
                assert(block_at(messages, last, x.len() as int) is None);
                assert(block_at(others, last, x.len() as int) is Some);
            }
            if y.len() < x.len() {
                assert(block_at(messages, last, y.len() as int) is Some);
                assert(block_at(others, last, y.len() as int) is None);
            }
        }
        assert forall|ci: int| 0 <= ci < x.len() implies f(last, ci, #[trigger] x[ci]) == g(
            last,
            ci,
            y[ci],
        ) by {
            assert(block_at(messages, last, ci) == Some(x[ci]));
            assert(block_at(others, last, ci) == Some(y[ci]));
        }
        lemma_sites_in_agree(x, f, y, g, last);
    }
}

} // verus!
