//! Measures how many facts planted in a text a summary keeps.

use super::slice::{
    cut, serialize_slice, shown, shown_block, shown_blocks, shown_message, REASONING_BLOCK_CAP,
    TOOL_RESULT_BLOCK_CAP,
};
use super::{fact_form, keeps_fact, normalize_fact};
use crate::json::{lemma_views, views, Json, JsonMap, JsonView};
use crate::text::{begins, chars_of, decimal, decimal_of, has_part, occurs, stands_at};
use vstd::prelude::*;
use vstd::string::StringExecFns;

verus! {

/// In which third of the text a fact was planted.
#[derive(Debug, Clone, Copy, PartialEq, Eq, Structural)]
pub enum Bucket {
    Start,
    Mid,
    End,
}

/// The facts: what each is called, what must be kept of it, and the line in which it stands.
pub const PROBE_FACTS: [(&'static str, &'static str, &'static str); 12] = [
    (
        "auth file",
        "session_7421.rs",
        "Edited src/auth/session_7421.rs to fix the blocking call.",
    ),
    ("migration", "migrate_v9.sql", "Applied db/migrate_v9.sql to add the ledger table."),
    (
        "error code",
        "error[E0277]",
        "Hit error[E0277]: the trait bound `Job: Send` is not satisfied.",
    ),
    (
        "network errno",
        "ECONNREFUSED",
        "Probe failed with ECONNREFUSED against the upstream.",
    ),
    (
        "db decision",
        "SQLite",
        "DECIDED: use SQLite (rejected Postgres) for the local ledger.",
    ),
    ("retry const", "max_retries", "Set max_retries = 5 in the reconnect loop."),
    (
        "function",
        "reconcile_balances",
        "fn reconcile_balances() must stay synchronous.",
    ),
    (
        "env var",
        "TRIMWIRE_AUDIT",
        "Reads the TRIMWIRE_AUDIT env var to pick the audit path.",
    ),
    ("port", "8765", "The gateway listens on port 8765 by default."),
    ("test count", "37 tests", "Suite is 37 tests; 3 were failing before the fix."),
    (
        "todo",
        "leap-second",
        "TODO: handle the leap-second edge case in the scheduler.",
    ),
    (
        "symbol",
        "PruneState",
        "The summary is cached in PruneState and replayed by reprune.",
    ),
];

/// How many facts there are.
pub const FACT_COUNT: usize = 12;

/// How large the text is, unless said otherwise.
pub const DEFAULT_PROBE_BYTES: usize = 131072;

/// A text with the facts in it.
pub struct ProbeSlice {
    /// The text.
    pub slice_text: String,
    /// Over how many turns the facts are spread.
    pub n_turns: usize,
}

/// In which turn the `i`th of `n` facts is planted, of `n_turns`: evenly spread, from the first to
/// the last.
pub open spec fn fact_turn(i: int, n: int, n_turns: int) -> int {
    let last = if n_turns > 0 {
        n_turns - 1
    } else {
        0
    };
    let gaps = if n > 2 {
        n - 1
    } else {
        1
    };
    i * last / gaps
}

fn turn_of_fact(i: usize, n: usize, n_turns: usize) -> (r: u128)
    ensures
        r == fact_turn(i as int, n as int, n_turns as int),
{
    let last: u128 = if n_turns > 0 {
        (n_turns - 1) as u128
    } else {
        0
    };
    let gaps: u128 = if n > 2 {
        (n - 1) as u128
    } else {
        1
    };
    proof {
        assert(i * last <= 0xffff_ffff_ffff_ffff * 0xffff_ffff_ffff_ffff) by (nonlinear_arith)
            requires
                i <= 0xffff_ffff_ffff_ffff,
                last <= 0xffff_ffff_ffff_ffff,
        ;
    }
    i as u128 * last / gaps
}

/// In which third a fact is planted.
pub open spec fn fact_bucket(i: int, n: int, n_turns: int) -> Bucket {
    let third = if n_turns / 3 > 1 {
        n_turns / 3
    } else {
        1
    };
    if fact_turn(i, n, n_turns) < third {
        Bucket::Start
    } else if fact_turn(i, n, n_turns) < 2 * third {
        Bucket::Mid
    } else {
        Bucket::End
    }
}

/// In which third the `i`th of `n` facts is planted.
pub fn bucket_of(i: usize, n: usize, n_turns: usize) -> (r: Bucket)
    ensures
        r == fact_bucket(i as int, n as int, n_turns as int),
{
    let pos: u128 = turn_of_fact(i, n, n_turns);
    let third: u128 = if n_turns / 3 > 1 {
        (n_turns / 3) as u128
    } else {
        1
    };
    if pos < third {
        Bucket::Start
    } else if pos < 2 * third {
        Bucket::Mid
    } else {
        Bucket::End
    }
}

/// The last of the first `k` facts that is planted in turn `t`.
pub open spec fn fact_in_turn(t: int, n_turns: int, k: int) -> Option<int>
    decreases k,
{
    if k <= 0 {
        None
    } else if fact_turn(k - 1, FACT_COUNT as int, n_turns) == t {
        Some(k - 1)
    } else {
        fact_in_turn(t, n_turns, k - 1)
    }
}

fn find_fact(t: usize, n_turns: usize) -> (r: Option<usize>)
    ensures
        match r {
            Some(i) => fact_in_turn(t as int, n_turns as int, FACT_COUNT as int) == Some(i as int)
                && i < FACT_COUNT,
            None => fact_in_turn(t as int, n_turns as int, FACT_COUNT as int) is None,
        },
{
    let mut k: usize = FACT_COUNT;
    while k > 0
        invariant
            k <= FACT_COUNT,
            fact_in_turn(t as int, n_turns as int, FACT_COUNT as int) == fact_in_turn(
                t as int,
                n_turns as int,
                k as int,
            ),
        decreases k,
    {
        if turn_of_fact(k - 1, FACT_COUNT, n_turns) == t as u128 {
            return Some(k - 1);
        }
        k = k - 1;
    }
    None
}

/// A text several times over.
pub open spec fn repeated_text(s: Seq<char>, n: nat) -> Seq<char>
    decreases n,
{
    if n == 0 {
        Seq::empty()
    } else {
        repeated_text(s, (n - 1) as nat) + s
    }
}

/// What is to be left out of a summary.
pub open spec fn noise() -> Seq<char> {
    repeated_text("    debug: irrelevant trace line that should be summarized away\n"@, 6)
}

fn make_noise() -> (r: String)
    ensures
        r@ == noise(),
{
    let mut s = String::new();
    let mut i: usize = 0;
    while i < 6
        invariant
            i <= 6,
            s@ == repeated_text(
                "    debug: irrelevant trace line that should be summarized away\n"@,
                i as nat,
            ),
        decreases 6 - i,
    {
        s.append("    debug: irrelevant trace line that should be summarized away\n");
        i = i + 1;
    }
    s
}

/// A message of one block.
pub open spec fn block_message(role: Seq<char>, block: JsonView) -> JsonView {
    JsonView::Object(
        Map::<Seq<char>, JsonView>::empty().insert("role"@, JsonView::String(role)).insert(
            "content"@,
            JsonView::Array(seq![block]),
        ),
    )
}

/// The call of turn `t`.
pub open spec fn probe_call(t: nat) -> JsonView {
    let input = Map::<Seq<char>, JsonView>::empty().insert(
        "command"@,
        JsonView::String("step "@ + decimal(t)),
    );
    block_message(
        "assistant"@,
        JsonView::Object(
            Map::<Seq<char>, JsonView>::empty().insert(
                "type"@,
                JsonView::String("tool_use"@),
            ).insert("id"@, JsonView::String("t"@ + decimal(t))).insert(
                "name"@,
                JsonView::String("Bash"@),
            ).insert("input"@, JsonView::Object(input)),
        ),
    )
}

/// The result of turn `t`: a fact first, where one is planted, and noise.
pub open spec fn probe_result(t: nat, n_turns: int) -> JsonView {
    let text = match fact_in_turn(t as int, n_turns, FACT_COUNT as int) {
        Some(i) => PROBE_FACTS@[i].2@ + "\n"@ + noise(),
        None => "step "@ + decimal(t) + " completed ok\n"@ + noise(),
    };
    block_message(
        "user"@,
        JsonView::Object(
            Map::<Seq<char>, JsonView>::empty().insert(
                "type"@,
                JsonView::String("tool_result"@),
            ).insert("tool_use_id"@, JsonView::String("t"@ + decimal(t))).insert(
                "content"@,
                JsonView::String(text),
            ),
        ),
    )
}

/// The messages in which the facts are planted.
pub open spec fn probe_messages(n_turns: int) -> Seq<JsonView> {
    Seq::new(
        (2 * n_turns) as nat,
        |k: int|
            if k % 2 == 0 {
                probe_call((k / 2) as nat)
            } else {
                probe_result((k / 2) as nat, n_turns)
            },
    )
}

fn make_block_message(role: &str, block: JsonMap) -> (r: Json)
    ensures
        r@ == block_message(role@, JsonView::Object(block@)),
{
    let ghost b = JsonView::Object(block@);
    let mut blocks: Vec<Json> = Vec::new();
    blocks.push(Json::Object(block));
    proof {
        lemma_views(blocks@);
        assert(views(blocks@) =~= seq![b]);
    }
    let mut m = JsonMap::new();
    m.insert("role".to_owned(), Json::text(role));
    m.insert("content".to_owned(), Json::Array(blocks));
    Json::Object(m)
}

fn make_call(t: usize) -> (r: Json)
    ensures
        r@ == probe_call(t as nat),
{
    let mut step = "step ".to_owned();
    step.append(&decimal_of(t));
    let mut input = JsonMap::new();
    input.insert("command".to_owned(), Json::String(step));
    let mut id = "t".to_owned();
    id.append(&decimal_of(t));
    let mut block = JsonMap::new();
    block.insert("type".to_owned(), Json::text("tool_use"));
    block.insert("id".to_owned(), Json::String(id));
    block.insert("name".to_owned(), Json::text("Bash"));
    block.insert("input".to_owned(), Json::Object(input));
    make_block_message("assistant", block)
}

fn make_result(t: usize, n_turns: usize) -> (r: Json)
    ensures
        r@ == probe_result(t as nat, n_turns as int),
{
    let text = match find_fact(t, n_turns) {
        Some(i) => {
            let mut s = PROBE_FACTS[i].2.to_owned();
            s.append("\n");
            s.append(&make_noise());
            s
        },
        None => {
            let mut s = "step ".to_owned();
            s.append(&decimal_of(t));
            s.append(" completed ok\n");
            s.append(&make_noise());
            s
        },
    };
    let mut id = "t".to_owned();
    id.append(&decimal_of(t));
    let mut block = JsonMap::new();
    block.insert("type".to_owned(), Json::text("tool_result"));
    block.insert("tool_use_id".to_owned(), Json::String(id));
    block.insert("content".to_owned(), Json::String(text));
    make_block_message("user", block)
}

/// Plants the facts in a text of about `target_bytes`.
pub fn build_probe_slice(target_bytes: usize) -> (r: ProbeSlice)
    ensures
        r.n_turns == if target_bytes / 520 > 36 {
            target_bytes / 520
        } else {
            36
        },
        r.slice_text@ == shown(
            probe_messages(r.n_turns as int),
            REASONING_BLOCK_CAP as nat,
            TOOL_RESULT_BLOCK_CAP as nat,
        ),
{
    let n_turns: usize = if target_bytes / 520 > 36 {
        target_bytes / 520
    } else {
        36
    };
    let ghost want = probe_messages(n_turns as int);
    let mut messages: Vec<Json> = Vec::new();
    let mut t: usize = 0;
    while t < n_turns
        invariant
            t <= n_turns,
            want == probe_messages(n_turns as int),
            messages@.len() == 2 * t,
            forall|k: int| 0 <= k < 2 * t ==> (#[trigger] messages@[k])@ == want[k],
        decreases n_turns - t,
    {
        messages.push(make_call(t));
        messages.push(make_result(t, n_turns));
        proof {
            assert((2 * t) / 2 == t && (2 * t) % 2 == 0);
            assert((2 * t + 1) / 2 == t && (2 * t + 1) % 2 == 1);
            assert(want[2 * t as int] == probe_call(t as nat));
            assert(want[2 * t + 1] == probe_result(t as nat, n_turns as int));
        }
        t = t + 1;
    }
    proof {
        lemma_views(messages@);
        assert(views(messages@) =~= want);
    }
    ProbeSlice {
        slice_text: serialize_slice(&messages, REASONING_BLOCK_CAP, TOOL_RESULT_BLOCK_CAP),
        n_turns,
    }
}

/// What a summary kept of each fact: whether it is there, what it is called, what must be kept of
/// it, and where it was planted.
pub struct ProbeReport {
    pub facts: Vec<(bool, &'static str, &'static str, Bucket)>,
}

/// How many of some facts were kept.
pub open spec fn count_kept(facts: Seq<(bool, &'static str, &'static str, Bucket)>) -> nat
    decreases facts.len(),
{
    if facts.len() == 0 {
        0
    } else {
        count_kept(facts.drop_last()) + if facts.last().0 {
            1nat
        } else {
            0nat
        }
    }
}

/// Those of some facts that were planted in one third.
pub open spec fn facts_in(
    facts: Seq<(bool, &'static str, &'static str, Bucket)>,
    b: Bucket,
) -> Seq<(bool, &'static str, &'static str, Bucket)>
    decreases facts.len(),
{
    if facts.len() == 0 {
        facts
    } else {
        let before = facts_in(facts.drop_last(), b);
        if facts.last().3 == b {
            before.push(facts.last())
        } else {
            before
        }
    }
}

impl ProbeReport {
    /// Looks for the facts in a summary of a text of `n_turns` turns.
    pub fn score(summary: &str, n_turns: usize) -> (r: ProbeReport)
        ensures
            r.facts@.len() == FACT_COUNT,
            forall|i: int|
                0 <= i < FACT_COUNT ==> {
                    let fact = #[trigger] r.facts@[i];
                    &&& fact.0 == keeps_fact(summary@, PROBE_FACTS@[i].1@)
                    &&& fact.1 == PROBE_FACTS@[i].0
                    &&& fact.2 == PROBE_FACTS@[i].1
                    &&& fact.3 == fact_bucket(i, FACT_COUNT as int, n_turns as int)
                },
    {
        let hay = chars_of(&normalize_fact(summary));
        let mut facts: Vec<(bool, &'static str, &'static str, Bucket)> = Vec::new();
        let mut i: usize = 0;
        while i < FACT_COUNT
            invariant
                i <= FACT_COUNT,
                hay@ == fact_form(summary@),
                facts@.len() == i,
                forall|j: int|
                    0 <= j < i ==> {
                        let fact = #[trigger] facts@[j];
                        &&& fact.0 == keeps_fact(summary@, PROBE_FACTS@[j].1@)
                        &&& fact.1 == PROBE_FACTS@[j].0
                        &&& fact.2 == PROBE_FACTS@[j].1
                        &&& fact.3 == fact_bucket(j, FACT_COUNT as int, n_turns as int)
                    },
            decreases FACT_COUNT - i,
        {
            let (label, needle, _) = PROBE_FACTS[i];
            let present = has_part(&hay, &normalize_fact(needle));
            facts.push((present, label, needle, bucket_of(i, FACT_COUNT, n_turns)));
            i = i + 1;
        }
        ProbeReport { facts }
    }

    /// How many facts were kept.
    pub fn kept(&self) -> (r: usize)
        ensures
            r == count_kept(self.facts@),
            r <= self.facts@.len(),
    {
        let mut n: usize = 0;
        let mut i: usize = 0;
        assert(self.facts@.take(0) =~= Seq::empty());
        while i < self.facts.len()
            invariant
                i <= self.facts@.len(),
                n <= i,
                n == count_kept(self.facts@.take(i as int)),
            decreases self.facts@.len() - i,
        {
            assert(self.facts@.take(i + 1).drop_last() =~= self.facts@.take(i as int));
            assert(self.facts@.take(i + 1).last() == self.facts@[i as int]);
            if self.facts[i].0 {
                n = n + 1;
            }
            i = i + 1;
        }
        assert(self.facts@.take(i as int) =~= self.facts@);
        n
    }

    /// How many facts there are.
    pub fn total(&self) -> (r: usize)
        ensures
            r == self.facts@.len(),
    {
        self.facts.len()
    }

    /// How many of the facts in one third were kept, and how many there are.
    pub fn bucket(&self, b: Bucket) -> (r: (usize, usize))
        ensures
            r.0 == count_kept(facts_in(self.facts@, b)),
            r.1 == facts_in(self.facts@, b).len(),
    {
        let ghost all = self.facts@;
        let mut kept: usize = 0;
        let mut n: usize = 0;
        let mut i: usize = 0;
        assert(all.take(0) =~= Seq::empty());
        while i < self.facts.len()
            invariant
                i <= self.facts@.len(),
                all == self.facts@,
                kept <= n <= i,
                kept == count_kept(facts_in(all.take(i as int), b)),
                n == facts_in(all.take(i as int), b).len(),
            decreases self.facts@.len() - i,
        {
            assert(all.take(i + 1).drop_last() =~= all.take(i as int));
            assert(all.take(i + 1).last() == all[i as int]);
            if self.facts[i].3 == b {
                proof {
                    let before = facts_in(all.take(i as int), b);
                    assert(before.push(all[i as int]).drop_last() =~= before);
                }
                n = n + 1;
                if self.facts[i].0 {
                    kept = kept + 1;
                }
            }
            i = i + 1;
        }
        assert(all.take(i as int) =~= all);
        (kept, n)
    }
}

/// The thirds divide the facts, and those that were kept, among them.
pub proof fn law_buckets_divide(facts: Seq<(bool, &'static str, &'static str, Bucket)>)
    ensures
        facts_in(facts, Bucket::Start).len() + facts_in(facts, Bucket::Mid).len() + facts_in(
            facts,
            Bucket::End,
        ).len() == facts.len(),
        count_kept(facts_in(facts, Bucket::Start)) + count_kept(facts_in(facts, Bucket::Mid))
            + count_kept(facts_in(facts, Bucket::End)) == count_kept(facts),
    decreases facts.len(),
{
    if facts.len() > 0 {
        let init = facts.drop_last();
        law_buckets_divide(init);
        let s = facts_in(init, Bucket::Start);
        let m = facts_in(init, Bucket::Mid);
        let e = facts_in(init, Bucket::End);
        assert(s.push(facts.last()).drop_last() =~= s);
        assert(m.push(facts.last()).drop_last() =~= m);
        assert(e.push(facts.last()).drop_last() =~= e);
    }
}

/// Where there are three turns or more for each fact, each has a turn of its own.
pub proof fn law_facts_apart(n_turns: int, i: int)
    requires
        n_turns >= 36,
        0 <= i < FACT_COUNT,
    ensures
        0 <= fact_turn(i, FACT_COUNT as int, n_turns) < n_turns,
        fact_in_turn(fact_turn(i, FACT_COUNT as int, n_turns), n_turns, FACT_COUNT as int) == Some(i),
{
    lemma_fact_turn(n_turns, i, FACT_COUNT - 1);
    lemma_fact_in_turn(n_turns, i, FACT_COUNT as int);
}

/// Later facts are planted in later turns.
proof fn lemma_fact_turn(n_turns: int, i: int, j: int)
    requires
        n_turns >= 36,
        0 <= i <= j < FACT_COUNT,
    ensures
        0 <= fact_turn(i, FACT_COUNT as int, n_turns) <= fact_turn(j, FACT_COUNT as int, n_turns),
        fact_turn(j, FACT_COUNT as int, n_turns) < n_turns,
        i < j ==> fact_turn(i, FACT_COUNT as int, n_turns) < fact_turn(
            j,
            FACT_COUNT as int,
            n_turns,
        ),
{
    let last = n_turns - 1;
    assert(0 <= i * last && j * last <= 11 * last) by (nonlinear_arith)
        requires
            0 <= i,
            j <= 11,
            last >= 35,
    ;
    if i < j {
        assert(j * last >= i * last + last) by (nonlinear_arith)
            requires
                i + 1 <= j,
                last >= 35,
        ;
    }
    let (x, y) = (i * last, j * last);
    assert(fact_turn(i, FACT_COUNT as int, n_turns) == x / 11);
    assert(fact_turn(j, FACT_COUNT as int, n_turns) == y / 11);
}

proof fn lemma_fact_in_turn(n_turns: int, i: int, k: int)
    requires
        n_turns >= 36,
        0 <= i < k <= FACT_COUNT,
    ensures
        fact_in_turn(fact_turn(i, FACT_COUNT as int, n_turns), n_turns, k) == Some(i),
    decreases k,
{
    if i < k - 1 {
        lemma_fact_turn(n_turns, i, k - 1);
        lemma_fact_in_turn(n_turns, i, k - 1);
    }
}

/// What occurs in a part occurs in the whole.
proof fn lemma_occurs_within(before: Seq<char>, s: Seq<char>, after: Seq<char>, part: Seq<char>)
    requires
        occurs(s, part),
    ensures
        occurs(before + s + after, part),
{
    let i = choose|i: int| stands_at(s, part, i);
    let at = before.len() + i;
    assert((before + s + after).subrange(at, at + part.len()) =~= s.subrange(i, i + part.len()));
    assert(stands_at(before + s + after, part, at));
}

proof fn lemma_shown_occurs(
    messages: Seq<JsonView>,
    k: int,
    reasoning_cap: nat,
    tool_result_cap: nat,
    part: Seq<char>,
)
    requires
        0 <= k < messages.len(),
        occurs(shown_message(messages[k], reasoning_cap, tool_result_cap), part),
    ensures
        occurs(shown(messages, reasoning_cap, tool_result_cap), part),
    decreases messages.len(),
{
    let init = messages.drop_last();
    let head = shown(init, reasoning_cap, tool_result_cap);
    let last = shown_message(messages.last(), reasoning_cap, tool_result_cap);
    if k == messages.len() - 1 {
        lemma_occurs_within(head, last, Seq::empty(), part);
        assert(head + last + Seq::empty() =~= head + last);
    } else {
        assert(init[k] == messages[k]);
        lemma_shown_occurs(init, k, reasoning_cap, tool_result_cap, part);
        lemma_occurs_within(Seq::empty(), head, last, part);
        assert(Seq::empty() + head + last =~= head + last);
    }
}

/// A text that is cut keeps a beginning that is no longer than its head.
proof fn lemma_cut_keeps(line: Seq<char>, rest: Seq<char>, cap: nat)
    requires
        line.len() <= cap / 2,
    ensures
        begins(cut(line + rest, cap), line),
{
    let s = line + rest;
    assert(cut(s, cap).subrange(0, line.len() as int) =~= line);
}

/// The line of a fact is short.
proof fn lemma_lines_short(i: int)
    requires
        0 <= i < FACT_COUNT,
    ensures
        PROBE_FACTS@[i].2@.len() <= 100,
{
    reveal_strlit("Edited src/auth/session_7421.rs to fix the blocking call.");
    reveal_strlit("Applied db/migrate_v9.sql to add the ledger table.");
    reveal_strlit("Hit error[E0277]: the trait bound `Job: Send` is not satisfied.");
    reveal_strlit("Probe failed with ECONNREFUSED against the upstream.");
    reveal_strlit("DECIDED: use SQLite (rejected Postgres) for the local ledger.");
    reveal_strlit("Set max_retries = 5 in the reconnect loop.");
    reveal_strlit("fn reconcile_balances() must stay synchronous.");
    reveal_strlit("Reads the TRIMWIRE_AUDIT env var to pick the audit path.");
    reveal_strlit("The gateway listens on port 8765 by default.");
    reveal_strlit("Suite is 37 tests; 3 were failing before the fix.");
    reveal_strlit("TODO: handle the leap-second edge case in the scheduler.");
    reveal_strlit("The summary is cached in PruneState and replayed by reprune.");
}

/// However large the text is to be, the line of every fact stands in it.
pub proof fn law_facts_planted(n_turns: int, i: int)
    requires
        n_turns >= 36,
        0 <= i < FACT_COUNT,
    ensures
        occurs(
            shown(
                probe_messages(n_turns),
                REASONING_BLOCK_CAP as nat,
                TOOL_RESULT_BLOCK_CAP as nat,
            ),
            PROBE_FACTS@[i].2@,
        ),
{
    let rc = REASONING_BLOCK_CAP as nat;
    let tc = TOOL_RESULT_BLOCK_CAP as nat;
    let line = PROBE_FACTS@[i].2@;
    let t = fact_turn(i, FACT_COUNT as int, n_turns);
    law_facts_apart(n_turns, i);
    lemma_lines_short(i);
    let m = probe_messages(n_turns);
    let k = 2 * t + 1;
    assert(k / 2 == t && k % 2 == 1);
    assert(m[k] == probe_result(t as nat, n_turns));
    let text = line + "\n"@ + noise();
    assert(text =~= line + ("\n"@ + noise()));
    lemma_cut_keeps(line, "\n"@ + noise(), tc);
    assert(stands_at(cut(text, tc), line, 0));
    lemma_result_shown(m[k], t as nat, text, rc, tc);
    lemma_occurs_within(
        "\n### "@ + "user"@ + "\n"@ + "[tool_result] "@,
        cut(text, tc),
        seq!['\n'],
        line,
    );
    lemma_shown_occurs(m, k, rc, tc, line);
}

/// What the summarizer is shown of a result.
proof fn lemma_result_shown(
    m: JsonView,
    t: nat,
    text: Seq<char>,
    reasoning_cap: nat,
    tool_result_cap: nat,
)
    requires
        m == block_message(
            "user"@,
            JsonView::Object(
                Map::<Seq<char>, JsonView>::empty().insert(
                    "type"@,
                    JsonView::String("tool_result"@),
                ).insert("tool_use_id"@, JsonView::String("t"@ + decimal(t))).insert(
                    "content"@,
                    JsonView::String(text),
                ),
            ),
        ),
    ensures
        shown_message(m, reasoning_cap, tool_result_cap) == "\n### "@ + "user"@ + "\n"@
            + "[tool_result] "@ + cut(text, tool_result_cap) + seq!['\n'],
{
    reveal_strlit("type");
    reveal_strlit("role");
    reveal_strlit("content");
    reveal_strlit("tool_use_id");
    reveal_strlit("tool_result");
    reveal_strlit("tool_use");
    reveal_strlit("text");
    assert("type"@.len() == 4 && "content"@.len() == 7 && "tool_use_id"@.len() == 11);
    assert("role"@.len() == 4 && "role"@[0] == 'r' && "type"@[0] == 't');
    assert("tool_result"@.len() == 11 && "tool_use"@.len() == 8 && "text"@.len() == 4);
    let block = m.get_array("content"@)->0[0];
    let blocks = seq![block];
    assert(m.get("content"@) == Some(JsonView::Array(blocks)));
    assert(m.get_str("role"@) == Some("user"@));
    assert(block.get_str("type"@) == Some("tool_result"@));
    assert(block.get("content"@) == Some(JsonView::String(text)));
    assert(shown_block(block, reasoning_cap, tool_result_cap) == "[tool_result] "@ + cut(
        text,
        tool_result_cap,
    ));
    assert(blocks.drop_last() =~= Seq::empty());
    reveal_with_fuel(shown_blocks, 2);
    assert(shown_blocks(blocks, reasoning_cap, tool_result_cap) =~= "[tool_result] "@ + cut(
        text,
        tool_result_cap,
    ) + seq!['\n']);
    assert(shown_message(m, reasoning_cap, tool_result_cap) =~= "\n### "@ + "user"@ + "\n"@
        + "[tool_result] "@ + cut(text, tool_result_cap) + seq!['\n']);
}

proof fn lemma_all_kept(facts: Seq<(bool, &'static str, &'static str, Bucket)>)
    ensures
        count_kept(facts) <= facts.len(),
    decreases facts.len(),
{
    if facts.len() > 0 {
        lemma_all_kept(facts.drop_last());
    }
}

/// All facts count as kept exactly where each was, and none exactly where none was.
pub proof fn law_all_or_none_kept(facts: Seq<(bool, &'static str, &'static str, Bucket)>)
    ensures
        count_kept(facts) == facts.len() <==> (forall|i: int|
            0 <= i < facts.len() ==> (#[trigger] facts[i]).0),
        count_kept(facts) == 0 <==> (forall|i: int|
            0 <= i < facts.len() ==> !(#[trigger] facts[i]).0),
    decreases facts.len(),
{
    if facts.len() > 0 {
        let init = facts.drop_last();
        law_all_or_none_kept(init);
        lemma_all_kept(init);
        let n = facts.len() - 1;
        assert(facts[n] == facts.last());
        assert forall|i: int| 0 <= i < n implies #[trigger] init[i] == facts[i] by {}
        if forall|i: int| 0 <= i < facts.len() ==> (#[trigger] facts[i]).0 {
            assert forall|i: int| 0 <= i < init.len() implies (#[trigger] init[i]).0 by {
                assert(facts[i].0);
            }
        }
        if forall|i: int| 0 <= i < facts.len() ==> !(#[trigger] facts[i]).0 {
            assert forall|i: int| 0 <= i < init.len() implies !(#[trigger] init[i]).0 by {
                assert(!facts[i].0);
            }
        }
        if forall|i: int| 0 <= i < init.len() ==> (#[trigger] init[i]).0 {
            assert forall|i: int| 0 <= i < facts.len() && facts.last().0 implies (
            #[trigger] facts[i]).0 by {
                if i < n {
                    assert(init[i].0);
                }
            }
        }
        if forall|i: int| 0 <= i < init.len() ==> !(#[trigger] init[i]).0 {
            assert forall|i: int| 0 <= i < facts.len() && !facts.last().0 implies !(
            #[trigger] facts[i]).0 by {
                if i < n {
                    assert(!init[i].0);
                }
            }
        }
    }
}

} // verus!
