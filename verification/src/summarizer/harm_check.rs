//! Finds claims of a summary that something is done for which there is no evidence.

use crate::text::{
    any_word, find_first, first_at, has_part, has_word, lemma_first_at, lemma_split_on_join,
    lemma_trim_push, lines, lines_of, lower, lower_of, occurs, split_on, stands_at, texts, trim,
    trim_of,
};
use vstd::prelude::*;

verus! {

/// A claim without evidence.
#[derive(Debug, PartialEq, Eq)]
pub struct FalseDoneFlag {
    /// The line that makes the claim.
    pub claim: String,
    /// What is wrong with it.
    pub reason: &'static str,
}

/// Words that say that something is not done yet, wherever they stand before a claim.
pub const NOT_DONE: [&'static str; 11] = [
    "awaiting",
    "to confirm",
    "to verify",
    "pending results",
    "pending run",
    "pending test",
    "not yet",
    "yet to",
    "still running",
    "still compiling",
    "in progress",
];

/// Words that make a claim conditional where they stand right before it.
pub const ADJACENT: [&'static str; 10] = [
    "if tests",
    "if green",
    "if pass",
    "if it pass",
    "if all tests",
    "should pass",
    "should be green",
    "would pass",
    "will pass",
    "going to pass",
];

/// Where the first word stands that claims success, and where it ends.
pub open spec fn claim_at(l: Seq<char>) -> Option<(int, int)> {
    match (first_at(l, "green"@), first_at(l, "pass"@)) {
        (Some(g), Some(p)) => if g <= p {
            Some((g, g + 5))
        } else {
            Some((p, p + 4))
        },
        (Some(g), None) => Some((g, g + 5)),
        (None, Some(p)) => Some((p, p + 4)),
        (None, None) => None,
    }
}

/// Whether what a line says of success is said of the future or on a condition.
pub open spec fn hypothetical(l: Seq<char>) -> bool {
    match claim_at(l) {
        Some((from, to)) => any_word(l.take(from), NOT_DONE@) || any_word(l.take(to), ADJACENT@),
        None => false,
    }
}

fn beginning(s: &Vec<char>, n: usize) -> (r: Vec<char>)
    requires
        n <= s@.len(),
    ensures
        r@ == s@.take(n as int),
{
    let mut r: Vec<char> = Vec::new();
    let mut i: usize = 0;
    while i < n
        invariant
            i <= n <= s@.len(),
            r@ == s@.take(i as int),
        decreases n - i,
    {
        r.push(s[i]);
        i = i + 1;
        assert(r@ =~= s@.take(i as int));
    }
    r
}

proof fn lemma_claim_words()
    ensures
        "green"@.len() == 5,
        "pass"@.len() == 4,
{
    reveal_strlit("green");
    reveal_strlit("pass");
}

/// Whether what a line says of success is said of the future or on a condition.
pub fn pass_claim_is_hypothetical(l: &Vec<char>) -> (r: bool)
    ensures
        r == hypothetical(l@),
{
    proof {
        lemma_claim_words();
    }
    let n: usize = l.len();
    assert(n == l@.len());
    let (from, to): (usize, usize) = match (find_first(l, "green"), find_first(l, "pass")) {
        (Some(g), Some(p)) => if g <= p {
            (g, g + 5)
        } else {
            (p, p + 4)
        },
        (Some(g), None) => (g, g + 5),
        (None, Some(p)) => (p, p + 4),
        (None, None) => return false,
    };
    has_word(&beginning(l, from), &NOT_DONE) || has_word(&beginning(l, to), &ADJACENT)
}

/// Whether a line claims that tests passed.
pub open spec fn claims_tests(l: Seq<char>) -> bool {
    ((occurs(l, "test"@) && (occurs(l, "pass"@) || occurs(l, "green"@))) || occurs(
        l,
        "suite passed"@,
    )) && !hypothetical(l)
}

/// Whether there is evidence that tests were run.
pub open spec fn tests_shown(ev: Seq<char>) -> bool {
    let run = occurs(ev, "test"@) || occurs(ev, "spec"@);
    ||| occurs(ev, "test result"@)
    ||| occurs(ev, "passed"@) && run
    ||| occurs(ev, "failed"@) && run
    ||| occurs(ev, " passing"@)
    ||| occurs(ev, "pytest"@)
    ||| occurs(ev, "vitest"@)
    ||| occurs(ev, "✓"@)
}

/// Whether a line claims a commit.
pub open spec fn claims_commit(l: Seq<char>) -> bool {
    occurs(l, "committed"@) || occurs(l, "git commit"@) || occurs(l, "commit hash"@)
}

/// Whether there is evidence of a commit.
pub open spec fn commit_shown(ev: Seq<char>) -> bool {
    occurs(ev, "commit"@) || occurs(ev, "files changed"@) || occurs(ev, "[main "@) || occurs(
        ev,
        "[master "@,
    )
}

/// What is flagged in one line: the line without the whitespace at its ends, and why.
pub open spec fn line_flags(raw: Seq<char>, ev: Seq<char>) -> Seq<(Seq<char>, Seq<char>)> {
    let line = trim(raw);
    let l = lower(line);
    let none = Seq::<(Seq<char>, Seq<char>)>::empty();
    if line.len() == 0 {
        none
    } else {
        let tests = if claims_tests(l) && !tests_shown(ev) {
            none.push(
                (line, "claims tests passed, but the slice contains no test-run result"@),
            )
        } else {
            none
        };
        if claims_commit(l) && !commit_shown(ev) {
            tests.push((line, "claims a commit, but the slice contains no commit evidence"@))
        } else {
            tests
        }
    }
}

/// What is flagged in some lines.
pub open spec fn all_flags(all: Seq<Seq<char>>, ev: Seq<char>) -> Seq<(Seq<char>, Seq<char>)>
    decreases all.len(),
{
    if all.len() == 0 {
        Seq::empty()
    } else {
        all_flags(all.drop_last(), ev) + line_flags(all.last(), ev)
    }
}

/// What flags say.
pub open spec fn flag_views(flags: Seq<FalseDoneFlag>) -> Seq<(Seq<char>, Seq<char>)> {
    Seq::new(flags.len(), |i: int| (flags[i].claim@, flags[i].reason@))
}

fn has_test_claim(l: &Vec<char>) -> (r: bool)
    ensures
        r == claims_tests(l@),
{
    ((has_part(l, "test") && (has_part(l, "pass") || has_part(l, "green"))) || has_part(
        l,
        "suite passed",
    )) && !pass_claim_is_hypothetical(l)
}

fn has_test_evidence(ev: &Vec<char>) -> (r: bool)
    ensures
        r == tests_shown(ev@),
{
    let run = has_part(ev, "test") || has_part(ev, "spec");
    has_part(ev, "test result") || (has_part(ev, "passed") && run) || (has_part(ev, "failed") && run)
        || has_part(ev, " passing") || has_part(ev, "pytest") || has_part(ev, "vitest") || has_part(
        ev,
        "✓",
    )
}

fn push_flag(flags: &mut Vec<FalseDoneFlag>, claim: &str, reason: &'static str)
    ensures
        flag_views(final(flags)@) == flag_views(old(flags)@).push((claim@, reason@)),
{
    let ghost before = flags@;
    flags.push(FalseDoneFlag { claim: claim.to_owned(), reason });
    assert(flag_views(flags@) =~= flag_views(before).push((claim@, reason@)));
}

/// Finds the lines of a summary that claim that tests passed or that something was committed, where
/// the text it was made from shows nothing of the kind.
pub fn detect_false_done(summary: &str, slice_text: &str) -> (r: Vec<FalseDoneFlag>)
    ensures
        flag_views(r@) == all_flags(lines(summary@), lower(slice_text@)),
{
    let ev = lower_of(slice_text);
    let all = lines_of(summary);
    let ghost want = lines(summary@);
    let mut flags: Vec<FalseDoneFlag> = Vec::new();
    let mut i: usize = 0;
    assert(want.take(0) =~= Seq::empty());
    assert(flag_views(flags@) =~= Seq::empty());
    while i < all.len()
        invariant
            i <= all@.len(),
            texts(all@) == want,
            ev@ == lower(slice_text@),
            flag_views(flags@) == all_flags(want.take(i as int), ev@),
        decreases all@.len() - i,
    {
        let ghost done = flag_views(flags@);
        assert(want.take(i + 1).drop_last() =~= want.take(i as int));
        assert(want.take(i + 1).last() == all@[i as int]@);
        let line = trim_of(&all[i]);
        if !line.as_str().is_empty() {
            let l = lower_of(&line);
            if has_test_claim(&l) && !has_test_evidence(&ev) {
                push_flag(
                    &mut flags,
                    &line,
                    "claims tests passed, but the slice contains no test-run result",
                );
            }
            let commit = has_part(&l, "committed") || has_part(&l, "git commit") || has_part(
                &l,
                "commit hash",
            );
            let shown = has_part(&ev, "commit") || has_part(&ev, "files changed") || has_part(
                &ev,
                "[main ",
            ) || has_part(&ev, "[master ");
            if commit && !shown {
                push_flag(
                    &mut flags,
                    &line,
                    "claims a commit, but the slice contains no commit evidence",
                );
            }
        }
        assert(flag_views(flags@) =~= done + line_flags(all@[i as int]@, ev@));
        i = i + 1;
    }
    assert(want.take(i as int) =~= want);
    flags
}

/// Evidence silences: where the text shows a test run and a commit, nothing is flagged.
pub proof fn law_evidence_silences(all: Seq<Seq<char>>, ev: Seq<char>)
    requires
        tests_shown(ev),
        commit_shown(ev),
    ensures
        all_flags(all, ev).len() == 0,
    decreases all.len(),
{
    if all.len() > 0 {
        law_evidence_silences(all.drop_last(), ev);
    }
}

proof fn lemma_flags_concat(a: Seq<Seq<char>>, b: Seq<Seq<char>>, ev: Seq<char>)
    ensures
        all_flags(a + b, ev) == all_flags(a, ev) + all_flags(b, ev),
    decreases b.len(),
{
    if b.len() == 0 {
        assert(a + b =~= a);
        assert(all_flags(a + b, ev) =~= all_flags(a, ev) + all_flags(b, ev));
    } else {
        lemma_flags_concat(a, b.drop_last(), ev);
        assert((a + b).drop_last() =~= a + b.drop_last());
        assert(all_flags(a + b, ev) =~= all_flags(a, ev) + all_flags(b, ev));
    }
}

proof fn lemma_flags_same(a: Seq<Seq<char>>, b: Seq<Seq<char>>, ev: Seq<char>)
    requires
        a.len() == b.len(),
        forall|i: int| 0 <= i < a.len() ==> trim(#[trigger] a[i]) == trim(b[i]),
    ensures
        all_flags(a, ev) == all_flags(b, ev),
    decreases a.len(),
{
    if a.len() > 0 {
        assert forall|i: int| 0 <= i < a.len() - 1 implies trim(#[trigger] a.drop_last()[i]) == trim(
            b.drop_last()[i],
        ) by {
            assert(trim(a[i]) == trim(b[i]));
        }
        lemma_flags_same(a.drop_last(), b.drop_last(), ev);
        assert(trim(a[a.len() - 1]) == trim(b[a.len() - 1]));
    }
}

/// What is flagged in a summary is flagged in what stands between its line feeds.
proof fn lemma_flags_of_parts(summary: Seq<char>, ev: Seq<char>)
    ensures
        all_flags(lines(summary), ev) == all_flags(split_on(summary, '\n'), ev),
{
    let parts = split_on(summary, '\n');
    let all = lines(summary);
    lemma_split_on_join(Seq::empty(), '\n', summary);
    let same = parts.take(all.len() as int);
    assert forall|i: int| 0 <= i < all.len() implies trim(#[trigger] all[i]) == trim(same[i]) by {
        let p = parts[i];
        if p.len() > 0 && p.last() == '\r' {
            lemma_trim_push(p.drop_last(), '\r');
            assert(p.drop_last().push('\r') =~= p);
        }
    }
    lemma_flags_same(all, same, ev);
    if all.len() < parts.len() {
        let last = seq![parts.last()];
        assert(parts =~= same + last);
        lemma_flags_concat(same, last, ev);
        assert(last.drop_last() =~= Seq::empty());
        assert(last.last().len() == 0);
        assert(trim(last.last()).len() == 0);
        assert(all_flags(last, ev) =~= Seq::empty()) by {
            assert(all_flags(last.drop_last(), ev) =~= Seq::empty());
        }
        assert(all_flags(parts, ev) =~= all_flags(same, ev));
    } else {
        assert(same =~= parts);
    }
}

/// What is flagged in two summaries with a line feed between them is what is flagged in each.
pub proof fn law_flags_add_up(a: Seq<char>, b: Seq<char>, ev: Seq<char>)
    ensures
        all_flags(lines(a.push('\n') + b), ev) == all_flags(lines(a), ev) + all_flags(lines(b), ev),
{
    lemma_flags_of_parts(a, ev);
    lemma_flags_of_parts(b, ev);
    lemma_flags_of_parts(a.push('\n') + b, ev);
    lemma_split_on_join(a, '\n', b);
    lemma_flags_concat(split_on(a, '\n'), split_on(b, '\n'), ev);
}

/// A line is flagged twice at most: for a claim of tests, and then for one of a commit.
pub proof fn law_two_flags_at_most(raw: Seq<char>, ev: Seq<char>)
    ensures
        line_flags(raw, ev).len() <= 2,
        forall|i: int|
            0 <= i < line_flags(raw, ev).len() ==> {
                &&& (#[trigger] line_flags(raw, ev)[i]).0 == trim(raw)
                &&& trim(raw).len() > 0
            },
        line_flags(raw, ev).len() == 2 ==> {
            &&& line_flags(raw, ev)[0].1
                == "claims tests passed, but the slice contains no test-run result"@
            &&& line_flags(raw, ev)[1].1
                == "claims a commit, but the slice contains no commit evidence"@
        },
{
}

/// Every claim that is flagged is a line of the summary, without the whitespace at its ends, and not
/// blank.
pub proof fn law_flags_are_lines(all: Seq<Seq<char>>, ev: Seq<char>, k: int)
    requires
        0 <= k < all_flags(all, ev).len(),
    ensures
        all_flags(all, ev)[k].0.len() > 0,
        exists|i: int| 0 <= i < all.len() && trim(#[trigger] all[i]) == all_flags(all, ev)[k].0,
    decreases all.len(),
{
    let init = all.drop_last();
    let before = all_flags(init, ev);
    if k < before.len() {
        law_flags_are_lines(init, ev, k);
        let i = choose|i: int| 0 <= i < init.len() && trim(#[trigger] init[i]) == before[k].0;
        assert(trim(all[i]) == all_flags(all, ev)[k].0);
    } else {
        law_two_flags_at_most(all.last(), ev);
        assert(all_flags(all, ev)[k] == line_flags(all.last(), ev)[k - before.len()]);
        assert(trim(all[all.len() - 1]) == all_flags(all, ev)[k].0);
    }
}

/// What occurs in a text occurs in a longer one that holds it.
proof fn lemma_occurs_more(before: Seq<char>, ev: Seq<char>, after: Seq<char>, part: Seq<char>)
    ensures
        occurs(ev, part) ==> occurs(before + ev + after, part),
{
    if occurs(ev, part) {
        let i = choose|i: int| stands_at(ev, part, i);
        let at = before.len() + i;
        assert((before + ev + after).subrange(at, at + part.len()) =~= ev.subrange(
            i,
            i + part.len(),
        ));
        assert(stands_at(before + ev + after, part, at));
    }
}

/// Whether a flag is still raised on some evidence.
pub open spec fn still_raised(ev: Seq<char>) -> spec_fn((Seq<char>, Seq<char>)) -> bool {
    |flag: (Seq<char>, Seq<char>)|
        if flag.1 == "claims tests passed, but the slice contains no test-run result"@ {
            !tests_shown(ev)
        } else {
            !commit_shown(ev)
        }
}

proof fn lemma_line_flags_more(raw: Seq<char>, ev: Seq<char>, more: Seq<char>)
    requires
        tests_shown(ev) ==> tests_shown(more),
        commit_shown(ev) ==> commit_shown(more),
    ensures
        line_flags(raw, more) == line_flags(raw, ev).filter(still_raised(more)),
{
    reveal_strlit("claims tests passed, but the slice contains no test-run result");
    reveal_strlit("claims a commit, but the slice contains no commit evidence");
    let f = still_raised(more);
    let line = trim(raw);
    let tests = (line, "claims tests passed, but the slice contains no test-run result"@);
    let commit = (line, "claims a commit, but the slice contains no commit evidence"@);
    assert("claims tests passed, but the slice contains no test-run result"@[7] == 't');
    assert("claims a commit, but the slice contains no commit evidence"@[7] == 'a');
    assert(tests.1 != commit.1);
    reveal_with_fuel(Seq::filter, 3);
    let none = Seq::<(Seq<char>, Seq<char>)>::empty();
    assert(none.push(tests).drop_last() =~= none);
    assert(none.push(commit).drop_last() =~= none);
    assert(none.push(tests).push(commit).drop_last() =~= none.push(tests));
    assert(line_flags(raw, more) =~= line_flags(raw, ev).filter(f));
}

proof fn lemma_flags_more(all: Seq<Seq<char>>, ev: Seq<char>, more: Seq<char>)
    requires
        tests_shown(ev) ==> tests_shown(more),
        commit_shown(ev) ==> commit_shown(more),
    ensures
        all_flags(all, more) == all_flags(all, ev).filter(still_raised(more)),
    decreases all.len(),
{
    let f = still_raised(more);
    if all.len() == 0 {
        reveal(Seq::filter);
        assert(all_flags(all, ev).filter(f) =~= Seq::empty());
    } else {
        lemma_flags_more(all.drop_last(), ev, more);
        lemma_line_flags_more(all.last(), ev, more);
        Seq::filter_distributes_over_add(
            all_flags(all.drop_last(), ev),
            line_flags(all.last(), ev),
            f,
        );
    }
}

/// More text that a summary was made from only silences: what is flagged then was flagged before,
/// in the same order, and what is gone is what the text now shows.
pub proof fn law_more_text_silences(
    all: Seq<Seq<char>>,
    before: Seq<char>,
    slice_text: Seq<char>,
    after: Seq<char>,
)
    ensures
        ({
            let ev = lower(slice_text);
            let more = lower(before + slice_text + after);
            all_flags(all, more) == all_flags(all, ev).filter(still_raised(more))
        }),
{
    let ev = lower(slice_text);
    let more = lower(before + slice_text + after);
    assert(more =~= lower(before) + ev + lower(after));
    assert forall|part: Seq<char>| #[trigger] occurs(ev, part) implies occurs(more, part) by {
        lemma_occurs_more(lower(before), ev, lower(after), part);
    }
    lemma_flags_more(all, ev, more);
}

/// A part that stands in the beginning that two texts share stands in both.
proof fn lemma_stands_shared(a: Seq<char>, b: Seq<char>, n: int, part: Seq<char>, i: int)
    requires
        0 <= n <= a.len(),
        n <= b.len(),
        a.take(n) == b.take(n),
        i + part.len() <= n,
    ensures
        stands_at(a, part, i) == stands_at(b, part, i),
{
    if 0 <= i {
        assert(a.take(n).subrange(i, i + part.len()) =~= a.subrange(i, i + part.len()));
        assert(b.take(n).subrange(i, i + part.len()) =~= b.subrange(i, i + part.len()));
    }
}

/// What stands behind the word that claims success makes no difference to whether the claim is
/// hypothetical.
pub proof fn law_claim_by_what_leads_to_it(l: Seq<char>, other: Seq<char>)
    requires
        claim_at(l) matches Some((from, to)) && to <= other.len() && other.take(to) == l.take(to),
    ensures
        claim_at(other) == claim_at(l),
        hypothetical(other) == hypothetical(l),
{
    let (from, to) = claim_at(l)->0;
    let green = "green"@;
    let pass = "pass"@;
    reveal_strlit("green");
    reveal_strlit("pass");
    assert(green.len() == 5 && pass.len() == 4 && green[0] == 'g' && pass[0] == 'p');
    lemma_first_at(l, green);
    lemma_first_at(l, pass);
    lemma_first_at(other, green);
    lemma_first_at(other, pass);
    assert(to <= l.len());
    assert forall|i: int| i + 5 <= to implies stands_at(l, green, i) == #[trigger] stands_at(
        other,
        green,
        i,
    ) by {
        lemma_stands_shared(l, other, to, green, i);
    }
    assert forall|i: int| i + 4 <= to implies stands_at(l, pass, i) == #[trigger] stands_at(
        other,
        pass,
        i,
    ) by {
        lemma_stands_shared(l, other, to, pass, i);
    }
    if to == from + 5 && first_at(l, green) == Some(from) {
        assert(stands_at(other, green, from));
        assert(occurs(other, green));
        let g = first_at(other, green)->0;
        assert(stands_at(l, green, g) == stands_at(other, green, g));
        assert(g == from);
        if let Some(p) = first_at(other, pass) {
            assert(stands_at(l, pass, p) == stands_at(other, pass, p) || p + 4 > to);
            if p < from {
                assert(occurs(l, pass));
            }
        }
    } else {
        assert(first_at(l, pass) == Some(from) && to == from + 4);
        assert(stands_at(other, pass, from));
        assert(occurs(other, pass));
        let p = first_at(other, pass)->0;
        assert(stands_at(l, pass, p) == stands_at(other, pass, p));
        assert(p == from);
        if let Some(g) = first_at(other, green) {
            assert(stands_at(l, green, g) == stands_at(other, green, g) || g + 5 > to);
            if g < from {
                assert(occurs(l, green));
            }
            if g == from {
                assert(other.subrange(from, from + 5)[0] == other[from]);
                assert(other.subrange(from, from + 4)[0] == other[from]);
            }
        }
    }
    assert(claim_at(other) == claim_at(l));
    assert(other.take(from) =~= other.take(to).take(from));
    assert(l.take(from) =~= l.take(to).take(from));
}

} // verus!
