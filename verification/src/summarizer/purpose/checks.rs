//! Which models are asked, and how a summary is held against what it was made from.

use crate::summarizer::harm_check::{
    all_flags, claim_at, claims_commit, claims_tests, commit_shown, hypothetical, line_flags,
    tests_shown, ADJACENT, NOT_DONE,
};
use crate::summarizer::{
    disqualified, fact_form, folded, keeps_fact, kept_facts, standing, ModelStanding,
    APPROVED_MODELS, DISQUALIFIED_FAMILIES, DISQUALIFIED_MODELS, WARN_MODELS,
};
use crate::strategies::purpose::opens_with;
use crate::text::{any_word, first_at, lemma_first_at, lower, lowercase, occurs, trim};
use crate::text_laws::{
    holds_word, holds_word_in_any_case, law_begins, law_lower, law_occurs, law_occurs_in_any_case,
    same_letter, small, word_from,
};
use vstd::prelude::*;

verus! {

/// Whether a model is one of those that were found harmful, or of the family that was.
pub open spec fn harmful(tag: Seq<char>) -> bool {
    ||| tag == "granite4.1:3b"@ || tag == "granite4.1:8b"@ || tag == "qwen2.5-coder:3b"@ || tag
        == "ministral-3:3b"@ || tag == "gemma3:4b"@ || tag == "qwen3.5:0.8b"@
    ||| opens_with(tag, "granite4.1:"@)
}

/// A model is disqualified exactly where it is one of the six that were found harmful, or its name
/// begins like those of the family that was.
pub proof fn law_disqualified(tag: Seq<char>)
    ensures
        disqualified(tag) <==> harmful(tag),
{
    let d = DISQUALIFIED_MODELS@;
    assert(d[0]@ == "granite4.1:3b"@ && d[1]@ == "granite4.1:8b"@ && d[2]@ == "qwen2.5-coder:3b"@);
    assert(d[3]@ == "ministral-3:3b"@ && d[4]@ == "gemma3:4b"@ && d[5]@ == "qwen3.5:0.8b"@);
    assert(DISQUALIFIED_FAMILIES@[0]@ == "granite4.1:"@);
    law_begins(tag, "granite4.1:"@);
    if exists|i: int| 0 <= i < 6 && #[trigger] d[i]@ == tag {
        let i = choose|i: int| 0 <= i < 6 && #[trigger] d[i]@ == tag;
        assert(i == 0 || i == 1 || i == 2 || i == 3 || i == 4 || i == 5);
    }
    if exists|i: int|
        0 <= i < 1 && crate::text::begins(tag, #[trigger] DISQUALIFIED_FAMILIES@[i]@) {
        let i = choose|i: int|
            0 <= i < 1 && crate::text::begins(tag, #[trigger] DISQUALIFIED_FAMILIES@[i]@);
        assert(i == 0);
    }
    if opens_with(tag, "granite4.1:"@) {
        assert(crate::text::begins(tag, DISQUALIFIED_FAMILIES@[0]@));
    }
}

/// What is known of a model: first whether it is harmful; then whether it is the one that loses
/// facts; then whether it is one of the others that were found good; of any other nothing.
pub proof fn law_standing(tag: Seq<char>)
    ensures
        standing(tag) == if harmful(tag) {
            ModelStanding::Disqualified
        } else if tag == "qwen3.5:2b"@ {
            ModelStanding::Weak
        } else if tag == "qwen3.5:4b"@ || tag == "qwen3.5:4b-q8_0"@ || tag == "qwen3.5:9b"@ {
            ModelStanding::Approved
        } else {
            ModelStanding::Unverified
        },
{
    law_disqualified(tag);
    let a = APPROVED_MODELS@;
    assert(a[0]@ == "qwen3.5:4b"@ && a[1]@ == "qwen3.5:4b-q8_0"@ && a[2]@ == "qwen3.5:9b"@ && a[3]@
        == "qwen3.5:2b"@);
    assert(WARN_MODELS@[0]@ == "qwen3.5:2b"@);
    if exists|i: int| 0 <= i < 4 && #[trigger] a[i]@ == tag {
        let i = choose|i: int| 0 <= i < 4 && #[trigger] a[i]@ == tag;
        assert(i == 0 || i == 1 || i == 2 || i == 3);
    }
    if exists|i: int| 0 <= i < 1 && #[trigger] WARN_MODELS@[i]@ == tag {
        let i = choose|i: int| 0 <= i < 1 && #[trigger] WARN_MODELS@[i]@ == tag;
        assert(i == 0);
    }
}

/// What a fact is compared by has no capital letters of ASCII and no hyphens, and else the characters
/// of the fact, one for one, before what lies beyond ASCII is settled.
pub proof fn law_folded(s: Seq<char>)
    ensures
        folded(s).len() == s.len(),
        forall|i: int|
            #![trigger folded(s)[i]]
            0 <= i < s.len() ==> if s[i] == '-' {
                folded(s)[i] == '_'
            } else {
                same_letter(s[i], folded(s)[i]) && !('A' <= folded(s)[i] <= 'Z') && (!('A' <= s[i] <= 'Z')
                    ==> folded(s)[i] == s[i])
            },
        fact_form(s) == lowercase(folded(s)),
{
    law_lower(s);
    assert forall|i: int| #![trigger folded(s)[i]] 0 <= i < s.len() implies if s[i] == '-' {
        folded(s)[i] == '_'
    } else {
        same_letter(s[i], folded(s)[i]) && !('A' <= folded(s)[i] <= 'Z') && (!('A' <= s[i] <= 'Z')
            ==> folded(s)[i] == s[i])
    } by {
        assert(same_letter(s[i], lower(s)[i]));
        assert(!('A' <= lower(s)[i] <= 'Z'));
        if 'A' <= s[i] <= 'Z' && lower(s)[i] == '-' {
            let d = (s[i] as u32 + 32) as char;
            assert(d as u32 == s[i] as u32 + 32);
        }
    }
}

/// A fact is kept exactly where its form stands, whole, at some place in that of the summary; each
/// fact counts once.
pub proof fn law_kept_facts(summary: Seq<char>, facts: Seq<&str>, fact: &str)
    ensures
        keeps_fact(summary, fact@) <==> holds_word(fact_form(summary), fact_form(fact@)),
        kept_facts(summary, Seq::empty()) == 0,
        kept_facts(summary, facts.push(fact)) == kept_facts(summary, facts) + if holds_word(
            fact_form(summary),
            fact_form(fact@),
        ) {
            1nat
        } else {
            0nat
        },
{
    law_occurs(fact_form(summary), fact_form(fact@));
    assert(facts.push(fact).drop_last() =~= facts);
}

proof fn lemma_word(s: Seq<char>, word: Seq<char>)
    requires
        small(word),
    ensures
        occurs(lower(s), word) <==> holds_word_in_any_case(s, word),
{
    law_occurs_in_any_case(s, word);
}

/// Whether a text shows that tests were run.
pub open spec fn shows_tests(s: Seq<char>) -> bool {
    let run = holds_word_in_any_case(s, "test"@) || holds_word_in_any_case(s, "spec"@);
    ||| holds_word_in_any_case(s, "test result"@)
    ||| run && (holds_word_in_any_case(s, "passed"@) || holds_word_in_any_case(s, "failed"@))
    ||| holds_word_in_any_case(s, " passing"@)
    ||| holds_word_in_any_case(s, "pytest"@)
    ||| holds_word_in_any_case(s, "vitest"@)
    ||| holds_word_in_any_case(s, "✓"@)
}

/// Whether a text shows a commit.
pub open spec fn shows_commit(s: Seq<char>) -> bool {
    ||| holds_word_in_any_case(s, "commit"@)
    ||| holds_word_in_any_case(s, "files changed"@)
    ||| holds_word_in_any_case(s, "[main "@)
    ||| holds_word_in_any_case(s, "[master "@)
}

/// What counts as evidence: that tests were run, or that something was committed, by the words that
/// stand anywhere in the text, in any case of letters.
pub proof fn law_evidence(s: Seq<char>)
    ensures
        tests_shown(lower(s)) <==> shows_tests(s),
        commit_shown(lower(s)) <==> shows_commit(s),
{
    reveal_strlit("test");
    reveal_strlit("spec");
    reveal_strlit("test result");
    reveal_strlit("passed");
    reveal_strlit("failed");
    reveal_strlit(" passing");
    reveal_strlit("pytest");
    reveal_strlit("vitest");
    reveal_strlit("✓");
    reveal_strlit("commit");
    reveal_strlit("files changed");
    reveal_strlit("[main ");
    reveal_strlit("[master ");
    lemma_word(s, "test"@);
    lemma_word(s, "spec"@);
    lemma_word(s, "test result"@);
    lemma_word(s, "passed"@);
    lemma_word(s, "failed"@);
    lemma_word(s, " passing"@);
    lemma_word(s, "pytest"@);
    lemma_word(s, "vitest"@);
    lemma_word(s, "✓"@);
    lemma_word(s, "commit"@);
    lemma_word(s, "files changed"@);
    lemma_word(s, "[main "@);
    lemma_word(s, "[master "@);
}

/// A line claims a commit where one of three words for it stands in it, in any case of letters.
pub proof fn law_claims_commit(line: Seq<char>)
    ensures
        claims_commit(lower(line)) <==> holds_word_in_any_case(line, "committed"@)
            || holds_word_in_any_case(line, "git commit"@) || holds_word_in_any_case(
            line,
            "commit hash"@,
        ),
{
    reveal_strlit("committed");
    reveal_strlit("git commit");
    reveal_strlit("commit hash");
    lemma_word(line, "committed"@);
    lemma_word(line, "git commit"@);
    lemma_word(line, "commit hash"@);
}

/// A line claims that tests passed where it speaks of tests and of passing or green, or of a suite
/// that passed, and not of the future or on a condition.
pub proof fn law_claims_tests(line: Seq<char>)
    ensures
        claims_tests(lower(line)) <==> (holds_word_in_any_case(line, "suite passed"@) || (
        holds_word_in_any_case(line, "test"@) && (holds_word_in_any_case(line, "pass"@)
            || holds_word_in_any_case(line, "green"@)))) && !hypothetical(lower(line)),
{
    reveal_strlit("suite passed");
    reveal_strlit("test");
    reveal_strlit("pass");
    reveal_strlit("green");
    lemma_word(line, "suite passed"@);
    lemma_word(line, "test"@);
    lemma_word(line, "pass"@);
    lemma_word(line, "green"@);
}

/// Whether a word is one of those that say that something is not done yet.
pub open spec fn not_done_word(w: Seq<char>) -> bool {
    ||| w == "awaiting"@ || w == "to confirm"@ || w == "to verify"@ || w == "pending results"@
    ||| w == "pending run"@ || w == "pending test"@ || w == "not yet"@ || w == "yet to"@
    ||| w == "still running"@ || w == "still compiling"@ || w == "in progress"@
}

/// Whether a word is one of those that make a claim conditional where they end with it.
pub open spec fn conditional_word(w: Seq<char>) -> bool {
    ||| w == "if tests"@ || w == "if green"@ || w == "if pass"@ || w == "if it pass"@
    ||| w == "if all tests"@ || w == "should pass"@ || w == "should be green"@ || w == "would pass"@
    ||| w == "will pass"@ || w == "going to pass"@
}

/// Whether a place is the first at which `green` or `pass` stands in a line, and where that word
/// ends.
pub open spec fn first_claim(l: Seq<char>, from: int, to: int) -> bool {
    &&& (word_from(l, "green"@, from) && to == from + 5) || (word_from(l, "pass"@, from) && to == from
        + 4)
    &&& forall|k: int| 0 <= k < from ==> !#[trigger] word_from(l, "green"@, k)
    &&& forall|k: int| 0 <= k < from ==> !#[trigger] word_from(l, "pass"@, k)
}

proof fn lemma_first_is(l: Seq<char>, word: Seq<char>)
    ensures
        match first_at(l, word) {
            Some(i) => word_from(l, word, i) && forall|k: int| 0 <= k < i ==> !#[trigger] word_from(
                l,
                word,
                k,
            ),
            None => forall|k: int| !#[trigger] word_from(l, word, k),
        },
{
    lemma_first_at(l, word);
    law_occurs(l, word);
    if let Some(i) = first_at(l, word) {
        crate::text_laws::law_stands_at(l, word, i);
        assert forall|k: int| 0 <= k < i implies !#[trigger] word_from(l, word, k) by {
            crate::text_laws::law_stands_at(l, word, k);
        }
    } else {
        assert forall|k: int| !#[trigger] word_from(l, word, k) by {
            if word_from(l, word, k) {
                assert(holds_word(l, word));
            }
        }
    }
}

/// What a line says of success is hypothetical where, before the first `green` or `pass` in it, a
/// word says that something is not done yet, or, up to the end of that word, one makes it
/// conditional. A line without either is not.
pub proof fn law_hypothetical(l: Seq<char>, from: int, to: int)
    ensures
        first_claim(l, from, to) ==> (hypothetical(l) <==> (exists|w: Seq<char>| #[trigger]
            not_done_word(w) && holds_word(l.take(from), w)) || (exists|w: Seq<char>| #[trigger]
            conditional_word(w) && holds_word(l.take(to), w))),
        !holds_word(l, "green"@) && !holds_word(l, "pass"@) ==> !hypothetical(l),
{
    reveal_strlit("green");
    reveal_strlit("pass");
    let green = "green"@;
    let pass = "pass"@;
    assert(green.len() == 5 && pass.len() == 4 && green[0] == 'g' && pass[0] == 'p');
    lemma_first_is(l, green);
    lemma_first_is(l, pass);
    law_occurs(l, green);
    law_occurs(l, pass);
    if first_claim(l, from, to) {
        if word_from(l, green, from) && word_from(l, pass, from) {
            assert(l[from + 0] == green[0] && l[from + 0] == pass[0]);
        }
        assert(claim_at(l) == Some((from, to))) by {
            if word_from(l, green, from) {
                assert(first_at(l, green) is Some);
                let g = first_at(l, green)->0;
                assert(g == from);
                if let Some(p) = first_at(l, pass) {
                    assert(word_from(l, pass, p));
                }
            } else {
                assert(first_at(l, pass) is Some);
                let p = first_at(l, pass)->0;
                assert(word_from(l, pass, p));
                assert(p == from);
                if let Some(g) = first_at(l, green) {
                    assert(word_from(l, green, g));
                }
            }
        }
        lemma_not_done(l.take(from));
        lemma_conditional(l.take(to));
    }
}

proof fn lemma_not_done(s: Seq<char>)
    ensures
        any_word(s, NOT_DONE@) <==> exists|w: Seq<char>| #[trigger] not_done_word(w) && holds_word(s, w),
{
    let n = NOT_DONE@;
    assert(n.len() == 11);
    assert(n[0]@ == "awaiting"@ && n[1]@ == "to confirm"@ && n[2]@ == "to verify"@ && n[3]@
        == "pending results"@);
    assert(n[4]@ == "pending run"@ && n[5]@ == "pending test"@ && n[6]@ == "not yet"@ && n[7]@
        == "yet to"@);
    assert(n[8]@ == "still running"@ && n[9]@ == "still compiling"@ && n[10]@ == "in progress"@);
    if any_word(s, n) {
        let i = choose|i: int| 0 <= i < n.len() && occurs(s, (#[trigger] n[i])@);
        law_occurs(s, n[i]@);
        assert(i == 0 || i == 1 || i == 2 || i == 3 || i == 4 || i == 5 || i == 6 || i == 7 || i == 8
            || i == 9 || i == 10);
        assert(not_done_word(n[i]@));
    }
    if exists|w: Seq<char>| #[trigger] not_done_word(w) && holds_word(s, w) {
        let w = choose|w: Seq<char>| #[trigger] not_done_word(w) && holds_word(s, w);
        law_occurs(s, w);
        assert(w == n[0]@ || w == n[1]@ || w == n[2]@ || w == n[3]@ || w == n[4]@ || w == n[5]@ || w
            == n[6]@ || w == n[7]@ || w == n[8]@ || w == n[9]@ || w == n[10]@);
    }
}

proof fn lemma_conditional(s: Seq<char>)
    ensures
        any_word(s, ADJACENT@) <==> exists|w: Seq<char>| #[trigger]
            conditional_word(w) && holds_word(s, w),
{
    let n = ADJACENT@;
    assert(n.len() == 10);
    assert(n[0]@ == "if tests"@ && n[1]@ == "if green"@ && n[2]@ == "if pass"@ && n[3]@
        == "if it pass"@);
    assert(n[4]@ == "if all tests"@ && n[5]@ == "should pass"@ && n[6]@ == "should be green"@ && n[7]@
        == "would pass"@);
    assert(n[8]@ == "will pass"@ && n[9]@ == "going to pass"@);
    if any_word(s, n) {
        let i = choose|i: int| 0 <= i < n.len() && occurs(s, (#[trigger] n[i])@);
        law_occurs(s, n[i]@);
        assert(i == 0 || i == 1 || i == 2 || i == 3 || i == 4 || i == 5 || i == 6 || i == 7 || i == 8
            || i == 9);
        assert(conditional_word(n[i]@));
    }
    if exists|w: Seq<char>| #[trigger] conditional_word(w) && holds_word(s, w) {
        let w = choose|w: Seq<char>| #[trigger] conditional_word(w) && holds_word(s, w);
        law_occurs(s, w);
        assert(w == n[0]@ || w == n[1]@ || w == n[2]@ || w == n[3]@ || w == n[4]@ || w == n[5]@ || w
            == n[6]@ || w == n[7]@ || w == n[8]@ || w == n[9]@);
    }
}

/// A line is flagged, as it is but for the white characters at its ends, for a claim of tests without
/// a trace of any, and for a claim of a commit without a trace of one; the first flag comes first. A
/// blank line is not.
pub proof fn law_line_flags(raw: Seq<char>, text: Seq<char>)
    ensures
        ({
            let line = trim(raw);
            let tests = "claims tests passed, but the slice contains no test-run result"@;
            let commit = "claims a commit, but the slice contains no commit evidence"@;
            let t = line.len() > 0 && claims_tests(lower(line)) && !shows_tests(text);
            let c = line.len() > 0 && claims_commit(lower(line)) && !shows_commit(text);
            line_flags(raw, lower(text)) == (if t {
                seq![(line, tests)]
            } else {
                Seq::empty()
            }) + (if c {
                seq![(line, commit)]
            } else {
                Seq::empty()
            })
        }),
{
    law_evidence(text);
    let line = trim(raw);
    let tests = "claims tests passed, but the slice contains no test-run result"@;
    let commit = "claims a commit, but the slice contains no commit evidence"@;
    let t = line.len() > 0 && claims_tests(lower(line)) && !shows_tests(text);
    let c = line.len() > 0 && claims_commit(lower(line)) && !shows_commit(text);
    assert(line_flags(raw, lower(text)) =~= (if t {
        seq![(line, tests)]
    } else {
        Seq::empty()
    }) + (if c {
        seq![(line, commit)]
    } else {
        Seq::empty()
    }));
}

/// Every line is looked at, in order.
pub proof fn law_all_flags(all: Seq<Seq<char>>, line: Seq<char>, ev: Seq<char>)
    ensures
        all_flags(Seq::empty(), ev) == Seq::<(Seq<char>, Seq<char>)>::empty(),
        all_flags(all.push(line), ev) == all_flags(all, ev) + line_flags(line, ev),
{
    assert(all.push(line).drop_last() =~= all);
}

} // verus!
