//! A summary in its place: what stands there, how it is known that it still belongs there, and what
//! is left around it.

use crate::json::{json_text, views, JsonView};
use crate::summarizer::slice::{
    all_starts, chain_fits, hash_of, hex_digit, replay, replayed, selected, sha256, summary_pair,
    window_count, SummaryDecision,
};
use crate::summarizer::CompactorError;
use crate::text::{decimal, trim};
use vstd::prelude::*;
use vstd::utf8::encode_utf8;

verus! {

/// The sixteen digits, from the lowest on.
pub open spec fn digit(n: int) -> char {
    "0123456789abcdef"@[n]
}

proof fn lemma_digit(n: int)
    requires
        0 <= n < 16,
    ensures
        hex_digit(n) == digit(n),
{
    reveal_strlit("0123456789abcdef");
}

/// A hash has two digits for each byte of the digest of all the bytes, the higher half first.
pub proof fn law_hash(bytes: Seq<u8>, i: int)
    ensures
        hash_of(bytes).len() == 2 * sha256(bytes).len(),
        0 <= i < sha256(bytes).len() ==> hash_of(bytes)[2 * i] == digit(sha256(bytes)[i] as int / 16)
            && hash_of(bytes)[2 * i + 1] == digit(sha256(bytes)[i] as int % 16),
{
    if 0 <= i < sha256(bytes).len() {
        let b = sha256(bytes)[i] as int;
        lemma_digit(b / 16);
        lemma_digit(b % 16);
        assert((2 * i) / 2 == i && (2 * i + 1) / 2 == i);
        assert((2 * i) % 2 == 0 && (2 * i + 1) % 2 == 1);
    }
}

/// Two contents have the same hash exactly where they have the same digest.
pub proof fn law_hash_tells_apart(a: Seq<u8>, b: Seq<u8>)
    requires
        sha256(a).len() == sha256(b).len(),
    ensures
        hash_of(a) == hash_of(b) <==> sha256(a) == sha256(b),
{
    if hash_of(a) == hash_of(b) {
        assert forall|i: int| 0 <= i < sha256(a).len() implies sha256(a)[i] == sha256(b)[i] by {
            law_hash(a, i);
            law_hash(b, i);
            let x = sha256(a)[i] as int;
            let y = sha256(b)[i] as int;
            lemma_digits_differ(x / 16, y / 16);
            lemma_digits_differ(x % 16, y % 16);
        }
        assert(sha256(a) =~= sha256(b));
    }
}

proof fn lemma_digits_differ(m: int, n: int)
    requires
        0 <= m < 16,
        0 <= n < 16,
        digit(m) == digit(n),
    ensures
        m == n,
{
    reveal_strlit("0123456789abcdef");
    let s = "0123456789abcdef"@;
    assert(s[0] == '0' && s[1] == '1' && s[2] == '2' && s[3] == '3' && s[4] == '4' && s[5] == '5'
        && s[6] == '6' && s[7] == '7' && s[8] == '8' && s[9] == '9' && s[10] == 'a' && s[11] == 'b'
        && s[12] == 'c' && s[13] == 'd' && s[14] == 'e' && s[15] == 'f');
}

/// A summary still belongs to a transcript exactly where the transcript has the messages that it
/// covers, one at least, and their text as one array has the hash that it was made with.
pub proof fn law_anchored(d: SummaryDecision, original: Seq<JsonView>)
    ensures
        d.anchored(original) <==> d.start < d.end && d.end <= original.len() && d.slice_hash@
            == hash_of(
            encode_utf8(
                json_text(
                    JsonView::Array(
                        Seq::new((d.end - d.start) as nat, |i: int| original[d.start + i]),
                    ),
                ),
            ),
        ),
{
    if d.start < d.end && d.end <= original.len() {
        assert(original.subrange(d.start as int, d.end as int) =~= Seq::new(
            (d.end - d.start) as nat,
            |i: int| original[d.start + i],
        ));
    }
}

/// What a summary covers decides alone whether it still belongs: two transcripts that have the same
/// messages there are alike to it, whatever stands before or behind.
pub proof fn law_anchored_alike(d: SummaryDecision, a: Seq<JsonView>, b: Seq<JsonView>)
    requires
        d.end <= a.len(),
        d.end <= b.len(),
        forall|i: int| d.start <= i < d.end ==> #[trigger] a[i] == b[i],
    ensures
        d.anchored(a) == d.anchored(b),
{
    if d.start < d.end {
        assert(a.subrange(d.start as int, d.end as int) =~= b.subrange(d.start as int, d.end as int));
    }
}

/// Whether a message is of one text by someone.
pub open spec fn says_only(m: JsonView, role: Seq<char>, text: Seq<char>) -> bool {
    &&& m.get("role"@) == Some(JsonView::String(role))
    &&& m.get("content"@) matches Some(JsonView::Array(blocks)) && blocks.len() == 1 && blocks[0].get(
        "type"@,
    ) == Some(JsonView::String("text"@)) && blocks[0].get("text"@) == Some(JsonView::String(text))
}

/// Two messages take the place of those that are summarized. The first is the assistant's: which
/// messages it stands for, how far to trust it, and the summary without white characters at its ends.
/// The second is the user's, and goes on.
pub proof fn law_pair(start: nat, end: nat, summary: Seq<char>)
    ensures
        ({
            let pair = summary_pair(start, end, summary);
            &&& pair.len() == 2
            &&& says_only(
                pair[0],
                "assistant"@,
                "[trimwire: summarized turns "@ + decimal(start) + ".."@ + decimal(end)
                    + " — local-model compaction of original turns: a local model compacted these older turns to save context; file/output detail is recoverable by re-reading the files or re-running the tools. This summary may be lossy: treat any \"done\"/result claims in it as unverified and double-check load-bearing ones before relying on them. If it looks wrong or fabricated, tell the user (they can run `trimwire report`).]"@
                    + "\n\n"@ + trim(summary),
            )
            &&& says_only(
                pair[1],
                "user"@,
                "Understood — continuing from the summarized context above."@,
            )
        }),
{
    reveal_strlit("role");
    reveal_strlit("content");
    reveal_strlit("type");
    reveal_strlit("text");
    assert("role"@.len() == 4 && "content"@.len() == 7);
    assert("type"@[1] == 'y' && "text"@[1] == 'e');
}

/// Summaries can take their places exactly where there is one, each still belongs and ends within the
/// transcript, and none begins before the one in front of it has ended.
pub proof fn law_chain_fits(chain: Seq<SummaryDecision>, original: Seq<JsonView>, len: int)
    ensures
        chain_fits(chain, original, len) <==> {
            &&& chain.len() > 0
            &&& forall|i: int|
                0 <= i < chain.len() ==> (#[trigger] chain[i]).anchored(original) && chain[i].end
                    <= len
            &&& forall|i: int| 0 < i < chain.len() ==> chain[i - 1].end <= (#[trigger] chain[i]).start
        },
{
    if chain_fits(chain, original, len) {
        assert forall|i: int| 0 < i < chain.len() implies chain[i - 1].end <= (
        #[trigger] chain[i]).start by {
            assert(chain[i].anchored(original));
        }
    } else if chain.len() > 0 && (forall|i: int|
        0 <= i < chain.len() ==> (#[trigger] chain[i]).anchored(original) && chain[i].end <= len) && (
    forall|i: int| 0 < i < chain.len() ==> chain[i - 1].end <= (#[trigger] chain[i]).start) {
        assert forall|i: int| 0 <= i < chain.len() implies {
            &&& (#[trigger] chain[i]).anchored(original)
            &&& chain[i].end <= len
            &&& crate::summarizer::slice::chain_end(chain, i) <= chain[i].start
        } by {}
    }
}

proof fn lemma_replay_last(
    out: Seq<JsonView>,
    chain: Seq<SummaryDecision>,
    d: SummaryDecision,
    i: int,
    from: int,
)
    requires
        0 <= i <= chain.len(),
        0 <= from,
        i < chain.len() ==> from <= chain[i].start,
        forall|k: int| 0 <= k < chain.len() ==> (#[trigger] chain[k]).start <= chain[k].end,
        forall|k: int| 0 < k < chain.len() ==> chain[k - 1].end <= (#[trigger] chain[k]).start,
        chain.len() > 0 ==> chain.last().end <= d.start,
        i == chain.len() ==> from <= d.start,
        d.start <= d.end <= out.len(),
    ensures
        replay(out, chain.push(d), i, from) == replay(out.take(d.start as int), chain, i, from)
            + views(d.messages@) + out.skip(d.end as int),
    decreases chain.len() - i,
{
    let all = chain.push(d);
    let head = out.take(d.start as int);
    if i == chain.len() {
        reveal_with_fuel(replay, 2);
        assert(all[i] == d);
        assert(out.subrange(from, d.start as int) =~= head.skip(from));
        assert(replay(out, all, i, from) =~= head.skip(from) + views(d.messages@) + out.skip(
            d.end as int,
        ));
    } else {
        assert(all[i] == chain[i]);
        lemma_ends_before(chain, d, i);
        if i + 1 < chain.len() {
            assert(chain[i + 1 - 1].end <= chain[i + 1].start);
        } else {
            assert(chain.last() == chain[i]);
        }
        lemma_replay_last(out, chain, d, i + 1, chain[i].end as int);
        assert(out.subrange(from, chain[i].start as int) =~= head.subrange(
            from,
            chain[i].start as int,
        ));
        assert(replay(out, all, i, from) =~= replay(head, chain, i, from) + views(d.messages@)
            + out.skip(d.end as int));
    }
}

proof fn lemma_ends_before(chain: Seq<SummaryDecision>, d: SummaryDecision, i: int)
    requires
        0 <= i < chain.len(),
        forall|k: int| 0 <= k < chain.len() ==> (#[trigger] chain[k]).start <= chain[k].end,
        forall|k: int| 0 < k < chain.len() ==> chain[k - 1].end <= (#[trigger] chain[k]).start,
        chain.last().end <= d.start,
    ensures
        chain[i].end <= d.start,
    decreases chain.len() - i,
{
    if i + 1 < chain.len() {
        lemma_ends_before(chain, d, i + 1);
        assert(chain[i + 1 - 1].end <= chain[i + 1].start);
    }
}

/// Without summaries a transcript stays. With one more at the end of a chain it is what the chain
/// makes of all before that one's start, then that one's messages, then all from its end on.
pub proof fn law_replayed(
    out: Seq<JsonView>,
    chain: Seq<SummaryDecision>,
    d: SummaryDecision,
    original: Seq<JsonView>,
)
    requires
        chain_fits(chain.push(d), original, out.len() as int),
    ensures
        replayed(out, Seq::empty()) == out,
        replayed(out, chain.push(d)) == replayed(out.take(d.start as int), chain) + views(d.messages@)
            + out.skip(d.end as int),
{
    assert(out.skip(0) =~= out);
    let all = chain.push(d);
    law_chain_fits(all, original, out.len() as int);
    assert(all[chain.len() as int] == d);
    assert forall|k: int| 0 <= k < chain.len() implies (#[trigger] chain[k]).start <= chain[k].end by {
        assert(all[k] == chain[k]);
        assert(all[k].anchored(original));
    }
    assert forall|k: int| 0 < k < chain.len() implies chain[k - 1].end <= (
    #[trigger] chain[k]).start by {
        assert(all[k] == chain[k] && all[k - 1] == chain[k - 1]);
        assert(all[k].anchored(original));
    }
    if chain.len() > 0 {
        let n = chain.len() as int;
        assert(all[n].anchored(original));
        assert(all[n - 1] == chain.last());
    }
    lemma_replay_last(out, chain, d, 0, 0);
}

/// The places at which a summary could begin are counted up to the end of what is to be summarized;
/// where nothing is, there are none.
pub proof fn law_window_count(messages: Seq<JsonView>, keep: nat, max_end: int)
    ensures
        window_count(messages, keep, max_end) == match selected(messages, keep, max_end) {
            Some(range) => all_starts(messages, range.1).len(),
            None => 0,
        },
{
}

/// What is said of each reason why there is no summary.
pub proof fn law_says(text: String, status: u16)
    ensures
        CompactorError::Unreachable(text).says() == "summarizer backend unreachable: "@ + text@,
        CompactorError::Timeout.says() == "summarizer backend timed out"@,
        CompactorError::HttpStatus(status).says() == "summarizer backend HTTP "@ + decimal(
            status as nat,
        ),
        CompactorError::Malformed(text).says() == "summarizer response malformed: "@ + text@,
        CompactorError::EmptyResponse.says() == "summarizer returned an empty summary"@,
{
}

} // verus!
