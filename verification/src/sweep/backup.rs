//! The files beside a record: what they are called, which of them is restored and which go.

use crate::text::{begins, decimal, starts_with, wide_decimal_of};
use vstd::prelude::*;
use vstd::relations::injective_on;
use vstd::set_lib::{lemma_int_range, lemma_map_size, lemma_subset_equality, set_int_range};
use vstd::string::StringExecFns;

verus! {

/// How many backups are kept.
pub const BAK_RETAIN: usize = 3;

/// What the names of the backups of a file begin with.
pub open spec fn backup_prefix(name: Seq<char>) -> Seq<char> {
    name + ".bak."@
}

fn make_backup_prefix(name: &str) -> (r: String)
    ensures
        r@ == backup_prefix(name@),
{
    let mut s = name.to_owned();
    s.append(".bak.");
    s
}

/// The name of a backup made at some time.
pub fn backup_name(name: &str, nanos: u128) -> (r: String)
    ensures
        r@ == backup_prefix(name@) + decimal(nanos as nat),
{
    let mut s = make_backup_prefix(name);
    s.append(&wide_decimal_of(nanos));
    s
}

/// The name of a file to write to before it takes the place of another.
pub fn temp_name(name: &str, process: u32, nanos: u128) -> (r: String)
    ensures
        r@ == name@ + ".tmp."@ + decimal(process as nat) + "."@ + decimal(nanos as nat),
{
    let mut s = name.to_owned();
    s.append(".tmp.");
    s.append(&wide_decimal_of(process as u128));
    s.append(".");
    s.append(&wide_decimal_of(nanos));
    s
}

/// Whether one file is a backup of another, by their names.
pub fn is_backup_of(file: &str, name: &str) -> (r: bool)
    ensures
        r == begins(file@, backup_prefix(name@)),
{
    starts_with(file, &make_backup_prefix(name))
}

/// How many of some times are later than the one at `i`; of two that are the same, the one that
/// stands further back is later.
pub open spec fn later(times: Seq<u128>, i: int) -> nat {
    later_than(times, times[i], i)
}

/// How many of some times are later than `t`, or the same and further back than `i`.
pub open spec fn later_than(times: Seq<u128>, t: u128, i: int) -> nat
    decreases times.len(),
{
    if times.len() == 0 {
        0
    } else {
        let last = times.len() - 1;
        later_than(times.drop_last(), t, i) + if times[last] > t || (times[last] == t && last > i) {
            1nat
        } else {
            0nat
        }
    }
}

fn count_later(times: &Vec<u128>, i: usize) -> (r: usize)
    requires
        i < times@.len(),
    ensures
        r == later(times@, i as int),
{
    let t: u128 = times[i];
    let mut n: usize = 0;
    let mut k: usize = 0;
    assert(times@.take(0) =~= Seq::empty());
    while k < times.len()
        invariant
            k <= times@.len(),
            n <= k,
            n == later_than(times@.take(k as int), t, i as int),
        decreases times@.len() - k,
    {
        assert(times@.take(k + 1).drop_last() =~= times@.take(k as int));
        if times[k] > t || (times[k] == t && k > i) {
            n = n + 1;
        }
        k = k + 1;
    }
    assert(times@.take(k as int) =~= times@);
    n
}

/// Whether the time at `k` counts as later than the one at `i`.
spec fn is_later(times: Seq<u128>, k: int, i: int) -> bool {
    times[k] > times[i] || (times[k] == times[i] && k > i)
}

/// What is later than the later of two is later than the other too, and so is the later itself.
proof fn lemma_later_less(times: Seq<u128>, i: int, j: int, n: int)
    requires
        0 <= n <= times.len(),
        0 <= i < times.len(),
        0 <= j < times.len(),
        is_later(times, j, i),
    ensures
        later_than(times.take(n), times[j], j) + (if j < n {
            1nat
        } else {
            0nat
        }) <= later_than(times.take(n), times[i], i),
    decreases n,
{
    if n > 0 {
        lemma_later_less(times, i, j, n - 1);
        assert(times.take(n).drop_last() =~= times.take(n - 1));
        assert(times.take(n)[n - 1] == times[n - 1]);
    }
}

proof fn lemma_later_bound(times: Seq<u128>, i: int, n: int)
    requires
        0 <= n <= times.len(),
        0 <= i < times.len(),
    ensures
        later_than(times.take(n), times[i], i) + (if i < n {
            1nat
        } else {
            0nat
        }) <= n,
    decreases n,
{
    if n > 0 {
        lemma_later_bound(times, i, n - 1);
        assert(times.take(n).drop_last() =~= times.take(n - 1));
        assert(times.take(n)[n - 1] == times[n - 1]);
    }
}

/// What is earlier has more that are later than it.
pub proof fn lemma_later_order(times: Seq<u128>, i: int, j: int)
    requires
        0 <= i < times.len(),
        0 <= j < times.len(),
    ensures
        later(times, i) < times.len(),
        times[i] < times[j] || (times[i] == times[j] && i < j) ==> later(times, i) > later(times, j),
{
    let n = times.len() as int;
    assert(times.take(n) =~= times);
    lemma_later_bound(times, i, n);
    if is_later(times, j, i) {
        lemma_later_less(times, i, j, n);
    }
}

/// Each number of later times, from none to all but one, belongs to one time.
proof fn lemma_ranks(times: Seq<u128>)
    ensures
        injective_on(|i: int| later(times, i) as int, set_int_range(0, times.len() as int)),
        set_int_range(0, times.len() as int).map(|i: int| later(times, i) as int) == set_int_range(
            0,
            times.len() as int,
        ),
{
    let n = times.len() as int;
    let f = |i: int| later(times, i) as int;
    let range = set_int_range(0, n);
    assert(times.take(n) =~= times);
    assert forall|i: int, j: int|
        range.contains(i) && range.contains(j) && #[trigger] f(i) == #[trigger] f(j) implies i
        == j by {
        if i != j {
            if is_later(times, j, i) {
                lemma_later_less(times, i, j, n);
            } else {
                lemma_later_less(times, j, i, n);
            }
        }
    }
    lemma_int_range(0, n);
    lemma_map_size(range, range.map(f), f);
    assert forall|k: int| range.map(f).contains(k) implies range.contains(k) by {
        let i = choose|i: int| range.contains(i) && k == f(i);
        lemma_later_bound(times, i, n);
    }
    lemma_subset_equality(range.map(f), range);
}

/// Of the backups, the latest `keep` stay: as many go as there are more than that.
proof fn lemma_surplus_len(times: Seq<u128>, keep: usize, r: Seq<usize>)
    requires
        times.len() <= usize::MAX,
        forall|i: usize| r.contains(i) <==> i < times.len() && later(times, i as int) >= keep,
        forall|a: int, b: int| 0 <= a < b < r.len() ==> r[a] < r[b],
    ensures
        r.len() == if times.len() > keep {
            times.len() - keep
        } else {
            0
        },
{
    let n = times.len() as int;
    let f = |i: int| later(times, i) as int;
    let range = set_int_range(0, n);
    let gone = Set::new(|i: int| 0 <= i < n && later(times, i) >= keep);
    let low = if n > keep {
        keep as int
    } else {
        n
    };
    lemma_ranks(times);
    lemma_int_range(0, n);
    lemma_int_range(low, n);
    assert(gone.subset_of(range));
    vstd::set_lib::lemma_set_subset_finite(range, gone);
    assert(gone.map(f) =~= set_int_range(low, n)) by {
        assert forall|k: int| set_int_range(low, n).contains(k) implies gone.map(f).contains(k) by {
            assert(range.contains(k));
            assert(range.map(f).contains(k));
            let i = choose|i: int| range.contains(i) && k == f(i);
            assert(gone.contains(i));
        }
        assert forall|k: int| gone.map(f).contains(k) implies set_int_range(low, n).contains(k) by {
            let i = choose|i: int| gone.contains(i) && k == f(i);
            assert(range.contains(i));
            assert(range.map(f).contains(f(i)));
        }
    }
    lemma_map_size(gone, set_int_range(low, n), f);
    let g = |x: usize| x as int;
    assert forall|a: int, b: int| 0 <= a < r.len() && 0 <= b < r.len() && a != b implies r[a]
        != r[b] by {
        if a < b {
            assert(r[a] < r[b]);
        } else {
            assert(r[b] < r[a]);
        }
    }
    r.unique_seq_to_set();
    assert(r.to_set().map(g) =~= gone) by {
        assert forall|k: int| gone.contains(k) implies r.to_set().map(g).contains(k) by {
            let x = k as usize;
            assert(r.contains(x));
            assert(r.to_set().contains(x) && g(x) == k);
        }
        assert forall|k: int| r.to_set().map(g).contains(k) implies gone.contains(k) by {
            let x = choose|x: usize| r.to_set().contains(x) && k == g(x);
            assert(r.contains(x));
        }
    }
    lemma_map_size(r.to_set(), gone, g);
}

/// Which backups go, given when each was made: all but the latest `keep`.
pub fn surplus(times: &Vec<u128>, keep: usize) -> (r: Vec<usize>)
    ensures
        forall|i: usize|
            r@.contains(i) <==> i < times@.len() && later(times@, i as int) >= keep,
        forall|a: int, b: int| 0 <= a < b < r@.len() ==> r@[a] < r@[b],
        r@.len() == if times@.len() > keep {
            times@.len() - keep
        } else {
            0
        },
{
    let mut r: Vec<usize> = Vec::new();
    let mut i: usize = 0;
    while i < times.len()
        invariant
            i <= times@.len(),
            forall|j: usize| r@.contains(j) <==> j < i && later(times@, j as int) >= keep,
            forall|a: int, b: int| 0 <= a < b < r@.len() ==> r@[a] < r@[b],
            forall|a: int| 0 <= a < r@.len() ==> r@[a] < i,
        decreases times@.len() - i,
    {
        let ghost before = r@;
        let goes = count_later(times, i) >= keep;
        if goes {
            r.push(i);
        }
        proof {
            assert forall|j: usize| r@.contains(j) <==> j <= i && later(times@, j as int) >= keep by {
                if before.contains(j) {
                    let a = choose|a: int| 0 <= a < before.len() && before[a] == j;
                    assert(r@[a] == j);
                }
                if goes {
                    assert(r@[before.len() as int] == i);
                }
                if r@.contains(j) && j != i {
                    let a = choose|a: int| 0 <= a < r@.len() && r@[a] == j;
                    assert(before[a] == j);
                }
            }
        }
        i = i + 1;
    }
    proof {
        lemma_surplus_len(times@, keep, r@);
    }
    r
}

/// Which backup is restored, given when each was made: the latest, and of several the one that
/// stands first.
pub fn newest(times: &Vec<u128>) -> (r: Option<usize>)
    ensures
        match r {
            Some(i) => {
                &&& i < times@.len()
                &&& forall|j: int| 0 <= j < times@.len() ==> #[trigger] times@[j] <= times@[i as int]
                &&& forall|j: int| 0 <= j < i ==> #[trigger] times@[j] < times@[i as int]
            },
            None => times@.len() == 0,
        },
{
    if times.len() == 0 {
        return None;
    }
    let mut best: usize = 0;
    let mut i: usize = 1;
    while i < times.len()
        invariant
            best < i <= times@.len(),
            forall|j: int| 0 <= j < i ==> #[trigger] times@[j] <= times@[best as int],
            forall|j: int| 0 <= j < best ==> #[trigger] times@[j] < times@[best as int],
        decreases times@.len() - i,
    {
        if times[i] > times[best] {
            best = i;
        }
        i = i + 1;
    }
    Some(best)
}

} // verus!
