//! Which part of a transcript is summarized, how it is shown to the summarizer, and how a summary
//! takes its place.

use crate::json::{array_text, copy_all, json_text, lemma_views, views, Json, JsonMap, JsonView};
use super::{tool_heavy, tool_result_share};
use crate::strategies::{cutoff, has_role};
use crate::text::{
    any_word, byte_len, chars_of, decimal, decimal_of, has_word, lemma_utf8_concat, lower, lower_of,
    same_text, string_of, trim, trim_of, utf8_len,
};
use sha2::Digest;
use vstd::prelude::*;
use vstd::slice::slice_subrange;
use vstd::string::StringExecFns;
use vstd::utf8::encode_utf8;

verus! {

/// The SHA-256 digest of some bytes, as `sha2` computes it.
pub uninterp spec fn sha256(bytes: Seq<u8>) -> Seq<u8>;

/// `sha2::Sha256::digest`: the digest of the bytes, which depends on them alone and has 32 bytes.
/// What it is is not stated.
#[verifier::external_body]
fn digest(bytes: &[u8]) -> (r: Vec<u8>)
    ensures
        r@ == sha256(bytes@),
        r@.len() == 32,
{
    sha2::Sha256::digest(bytes).to_vec()
}

/// A hexadecimal digit in lower case.
pub open spec fn hex_digit(n: int) -> char {
    if n < 10 {
        (48 + n) as char
    } else {
        (87 + n) as char
    }
}

/// Bytes in hexadecimal: two digits each, the higher first.
pub open spec fn hex_of(bytes: Seq<u8>) -> Seq<char> {
    Seq::new(
        2 * bytes.len(),
        |i: int|
            if i % 2 == 0 {
                hex_digit(bytes[i / 2] as int / 16)
            } else {
                hex_digit(bytes[i / 2] as int % 16)
            },
    )
}

/// `hex::encode`: the bytes in hexadecimal, in lower case.
#[verifier::external_body]
fn hex_text(bytes: &Vec<u8>) -> (r: String)
    ensures
        r@ == hex_of(bytes@),
{
    hex::encode(bytes)
}

/// The hash by which content is known again.
pub open spec fn hash_of(bytes: Seq<u8>) -> Seq<char> {
    hex_of(sha256(bytes))
}

/// The hash by which content is known again.
pub fn content_hash(bytes: &[u8]) -> (r: String)
    ensures
        r@ == hash_of(bytes@),
{
    hex_text(&digest(bytes))
}

/// The hash of some messages.
pub open spec fn anchor(messages: Seq<JsonView>) -> Seq<char> {
    hash_of(encode_utf8(json_text(JsonView::Array(messages))))
}

fn anchor_of(messages: &[Json]) -> (r: String)
    ensures
        r@ == anchor(views(messages@)),
{
    let text = array_text(messages);
    content_hash(text.as_str().as_bytes())
}

/// A summary of the messages `start..end`, and what it was made from.
#[derive(Debug)]
pub struct SummaryDecision {
    /// The first message that is summarized.
    pub start: usize,
    /// The first message behind them.
    pub end: usize,
    /// The hash of the messages that were summarized.
    pub slice_hash: String,
    /// The messages that take their place.
    pub messages: Vec<Json>,
}

/// What stands before a summary: which turns it covers, and how far to trust it.
pub open spec fn marker_of(start: nat, end: nat) -> Seq<char> {
    "[trimwire: summarized turns "@ + decimal(start) + ".."@ + decimal(end)
        + " — local-model compaction of original turns: a local model compacted these older turns to save context; file/output detail is recoverable by re-reading the files or re-running the tools. This summary may be lossy: treat any \"done\"/result claims in it as unverified and double-check load-bearing ones before relying on them. If it looks wrong or fabricated, tell the user (they can run `trimwire report`).]"@
}

/// What stands before a summary.
pub fn summary_marker(start: usize, end: usize) -> (r: String)
    ensures
        r@ == marker_of(start as nat, end as nat),
{
    let mut s = "[trimwire: summarized turns ".to_owned();
    s.append(&decimal_of(start));
    s.append("..");
    s.append(&decimal_of(end));
    s.append(
        " — local-model compaction of original turns: a local model compacted these older turns to save context; file/output detail is recoverable by re-reading the files or re-running the tools. This summary may be lossy: treat any \"done\"/result claims in it as unverified and double-check load-bearing ones before relying on them. If it looks wrong or fabricated, tell the user (they can run `trimwire report`).]",
    );
    s
}

/// A message of one text block.
pub open spec fn text_message(role: Seq<char>, text: Seq<char>) -> JsonView {
    let block = JsonView::Object(
        Map::<Seq<char>, JsonView>::empty().insert("type"@, JsonView::String("text"@)).insert(
            "text"@,
            JsonView::String(text),
        ),
    );
    JsonView::Object(
        Map::<Seq<char>, JsonView>::empty().insert("role"@, JsonView::String(role)).insert(
            "content"@,
            JsonView::Array(seq![block]),
        ),
    )
}

fn make_text_message(role: &str, text: &str) -> (r: Json)
    ensures
        r@ == text_message(role@, text@),
{
    let mut block = JsonMap::new();
    block.insert("type".to_owned(), Json::text("text"));
    block.insert("text".to_owned(), Json::text(text));
    let ghost b = block@;
    let mut blocks: Vec<Json> = Vec::new();
    blocks.push(Json::Object(block));
    let mut m = JsonMap::new();
    m.insert("role".to_owned(), Json::text(role));
    proof {
        lemma_views(blocks@);
        assert(views(blocks@) =~= seq![JsonView::Object(b)]);
    }
    m.insert("content".to_owned(), Json::Array(blocks));
    Json::Object(m)
}

/// The messages that take the place of the summarized ones: the summary as the assistant's turn,
/// and an acknowledgement as the user's.
pub open spec fn summary_pair(start: nat, end: nat, summary: Seq<char>) -> Seq<JsonView> {
    seq![
        text_message("assistant"@, marker_of(start, end) + "\n\n"@ + trim(summary)),
        text_message("user"@, "Understood — continuing from the summarized context above."@),
    ]
}

impl SummaryDecision {
    /// Makes a summary of the messages `start..end` ready to take their place; none where there
    /// are no such messages.
    pub fn new(original: &[Json], start: usize, end: usize, summary: &str) -> (r: Option<
        SummaryDecision,
    >)
        ensures
            match r {
                Some(d) => start < end <= original@.len() && d.start == start && d.end == end
                    && d.slice_hash@ == anchor(views(original@).subrange(start as int, end as int))
                    && views(d.messages@) == summary_pair(start as nat, end as nat, summary@),
                None => !(start < end <= original@.len()),
            },
    {
        if start >= end || end > original.len() {
            return None;
        }
        let part = slice_subrange(original, start, end);
        let slice_hash = anchor_of(part);
        proof {
            lemma_views(original@);
            lemma_views(part@);
            assert(views(part@) =~= views(original@).subrange(start as int, end as int));
        }
        let mut text = summary_marker(start, end);
        text.append("\n\n");
        text.append(&trim_of(summary));
        let mut messages: Vec<Json> = Vec::new();
        messages.push(make_text_message("assistant", &text));
        messages.push(
            make_text_message("user", "Understood — continuing from the summarized context above."),
        );
        proof {
            lemma_views(messages@);
            assert(views(messages@) =~= summary_pair(start as nat, end as nat, summary@));
        }
        Some(SummaryDecision { start, end, slice_hash, messages })
    }

    /// Whether the messages that were summarized are still what they were.
    pub open spec fn anchored(&self, original: Seq<JsonView>) -> bool {
        self.start < self.end <= original.len() && anchor(
            original.subrange(self.start as int, self.end as int),
        ) == self.slice_hash@
    }
}

/// Whether the messages that were summarized are still what they were.
pub fn anchor_matches(original: &[Json], d: &SummaryDecision) -> (r: bool)
    ensures
        r == d.anchored(views(original@)),
{
    proof {
        lemma_views(original@);
    }
    if d.start >= d.end || d.end > original.len() {
        return false;
    }
    let part = slice_subrange(original, d.start, d.end);
    proof {
        lemma_views(part@);
        assert(views(part@) =~= views(original@).subrange(d.start as int, d.end as int));
    }
    same_text(&anchor_of(part), &d.slice_hash)
}

/// Whether summaries can take their places: there is one, each begins where the one before ends or
/// later, none ends behind the transcript of `len` messages, and what each was made from is still
/// there.
pub open spec fn chain_fits(
    chain: Seq<SummaryDecision>,
    original: Seq<JsonView>,
    len: int,
) -> bool {
    &&& chain.len() > 0
    &&& forall|i: int|
        0 <= i < chain.len() ==> {
            &&& (#[trigger] chain[i]).anchored(original)
            &&& chain[i].end <= len
            &&& chain_end(chain, i) <= chain[i].start
        }
}

/// Where the first `i` summaries of a chain end.
pub open spec fn chain_end(chain: Seq<SummaryDecision>, i: int) -> int {
    if i <= 0 {
        0
    } else {
        chain[i - 1].end as int
    }
}

/// The messages from `from` on with the summaries from the `i`th on in their places.
pub open spec fn replay(
    out: Seq<JsonView>,
    chain: Seq<SummaryDecision>,
    i: int,
    from: int,
) -> Seq<JsonView>
    decreases chain.len() - i,
{
    if i < 0 || i >= chain.len() {
        out.skip(from)
    } else {
        out.subrange(from, chain[i].start as int) + views(chain[i].messages@) + replay(
            out,
            chain,
            i + 1,
            chain[i].end as int,
        )
    }
}

/// The transcript with the summaries in their places.
pub open spec fn replayed(out: Seq<JsonView>, chain: Seq<SummaryDecision>) -> Seq<JsonView> {
    replay(out, chain, 0, 0)
}

/// Puts one summary in its place.
fn splice(out: &mut Vec<Json>, start: usize, end: usize, messages: &Vec<Json>)
    requires
        start <= end <= old(out)@.len(),
    ensures
        views(final(out)@) == views(old(out)@).take(start as int) + views(messages@) + views(
            old(out)@,
        ).skip(end as int),
{
    let ghost before = out@;
    let mut tail = out.split_off(end);
    out.truncate(start);
    let mut middle = copy_all(messages);
    let ghost mid = middle@;
    let ghost end_part = tail@;
    out.append(&mut middle);
    out.append(&mut tail);
    proof {
        lemma_views(before);
        lemma_views(mid);
        lemma_views(messages@);
        lemma_views(out@);
        assert(out@ =~= before.take(start as int) + mid + before.skip(end as int));
        assert(views(out@) =~= views(before).take(start as int) + views(messages@) + views(
            before,
        ).skip(end as int)) by {
            assert forall|i: int| 0 <= i < out@.len() implies views(out@)[i] == (views(before).take(
                start as int,
            ) + views(messages@) + views(before).skip(end as int))[i] by {
                if start <= i < start + mid.len() {
                    assert(views(mid)[i - start] == views(messages@)[i - start]);
                }
            }
        }
    }
}

/// Puts a summary in its place and says whether it did.
pub fn apply_summary(out: &mut Vec<Json>, original: &[Json], d: &SummaryDecision) -> (r: bool)
    ensures
        r == (d.anchored(views(original@)) && d.end <= old(out)@.len()),
        views(final(out)@) == if r {
            views(old(out)@).take(d.start as int) + views(d.messages@) + views(old(out)@).skip(
                d.end as int,
            )
        } else {
            views(old(out)@)
        },
{
    if !anchor_matches(original, d) || d.end > out.len() {
        return false;
    }
    splice(out, d.start, d.end, &d.messages);
    true
}

/// Puts all summaries of a chain in their places, or none, and says whether it did.
pub fn apply_summaries(out: &mut Vec<Json>, original: &[Json], chain: &[SummaryDecision]) -> (r:
    bool)
    ensures
        r == chain_fits(chain@, views(original@), old(out)@.len() as int),
        views(final(out)@) == if r {
            replayed(views(old(out)@), chain@)
        } else {
            views(old(out)@)
        },
{
    if chain.len() == 0 {
        return false;
    }
    let ghost before = views(out@);
    let n: usize = chain.len();
    proof {
        lemma_views(out@);
    }
    let mut prev_end: usize = 0;
    let mut i: usize = 0;
    while i < n
        invariant
            i <= n,
            n == chain@.len(),
            prev_end == chain_end(chain@, i as int),
            forall|k: int|
                0 <= k < i ==> {
                    &&& (#[trigger] chain@[k]).anchored(views(original@))
                    &&& chain@[k].end <= out@.len()
                    &&& chain_end(chain@, k) <= chain@[k].start
                },
        decreases n - i,
    {
        let d = &chain[i];
        if d.start < prev_end || d.end > out.len() || !anchor_matches(original, d) {
            return false;
        }
        prev_end = d.end;
        i = i + 1;
    }
    let mut k: usize = n;
    proof {
        assert(before.take(chain_end(chain@, n as int)) + replay(
            before,
            chain@,
            n as int,
            chain_end(chain@, n as int),
        ) =~= before);
    }
    while k > 0
        invariant
            k <= n,
            n == chain@.len(),
            chain_fits(chain@, views(original@), before.len() as int),
            views(out@) == before.take(chain_end(chain@, k as int)) + replay(
                before,
                chain@,
                k as int,
                chain_end(chain@, k as int),
            ),
        decreases k,
    {
        k = k - 1;
        let d = &chain[k];
        let ghost i = k as int;
        let ghost rest = replay(before, chain@, i + 1, d.end as int);
        let ghost cur = views(out@);
        proof {
            assert(chain@[i].anchored(views(original@)));
            lemma_views(out@);
            assert(cur.len() == d.end + rest.len());
            assert(cur.take(d.start as int) =~= before.take(d.start as int));
            assert(cur.skip(d.end as int) =~= rest);
        }
        splice(out, d.start, d.end, &d.messages);
        proof {
            let f = chain_end(chain@, i);
            assert(before.take(f) + before.subrange(f, d.start as int) =~= before.take(
                d.start as int,
            ));
            assert(views(out@) =~= before.take(f) + replay(before, chain@, i, f));
        }
    }
    assert(before.take(0) + replay(before, chain@, 0, 0) =~= replayed(before, chain@));
    true
}

/// A summary that has just been made is anchored in what it was made from, and takes its place
/// there.
pub proof fn law_fresh_summary_anchored(
    original: Seq<JsonView>,
    d: SummaryDecision,
    start: usize,
    end: usize,
)
    requires
        start < end <= original.len(),
        d.start == start,
        d.end == end,
        d.slice_hash@ == anchor(original.subrange(start as int, end as int)),
    ensures
        d.anchored(original),
        chain_fits(seq![d], original, original.len() as int),
{
}

/// A chain of one summary does what the summary alone does.
pub proof fn law_chain_of_one(out: Seq<JsonView>, d: SummaryDecision)
    requires
        d.start <= d.end <= out.len(),
    ensures
        replayed(out, seq![d]) == out.take(d.start as int) + views(d.messages@) + out.skip(
            d.end as int,
        ),
{
    reveal_with_fuel(replay, 2);
    assert(out.subrange(0, d.start as int) =~= out.take(d.start as int));
}

/// How many messages a summary takes away, less those it puts in their place.
pub open spec fn shrinkage(chain: Seq<SummaryDecision>, i: int) -> int
    decreases chain.len() - i,
{
    if i < 0 || i >= chain.len() {
        0
    } else {
        chain[i].end - chain[i].start - chain[i].messages@.len() + shrinkage(chain, i + 1)
    }
}

proof fn lemma_replay_len(
    out: Seq<JsonView>,
    chain: Seq<SummaryDecision>,
    original: Seq<JsonView>,
    i: int,
    from: int,
)
    requires
        chain_fits(chain, original, out.len() as int),
        0 <= i <= chain.len(),
        0 <= from <= out.len(),
        i < chain.len() ==> from <= chain[i].start,
    ensures
        replay(out, chain, i, from).len() == out.len() - from - shrinkage(chain, i),
    decreases chain.len() - i,
{
    if i < chain.len() {
        assert(chain[i].anchored(original));
        lemma_views(chain[i].messages@);
        if i + 1 < chain.len() {
            assert(chain[i + 1].anchored(original));
            assert(chain_end(chain, i + 1) == chain[i].end);
        }
        lemma_replay_len(out, chain, original, i + 1, chain[i].end as int);
    }
}

/// A transcript with summaries in their places has as many messages less as the summaries take
/// away.
pub proof fn law_replayed_length(
    out: Seq<JsonView>,
    chain: Seq<SummaryDecision>,
    original: Seq<JsonView>,
)
    requires
        chain_fits(chain, original, out.len() as int),
    ensures
        replayed(out, chain).len() == out.len() - shrinkage(chain, 0),
{
    assert(chain[0].anchored(original));
    lemma_replay_len(out, chain, original, 0, 0);
}

proof fn lemma_replay_grown(
    out: Seq<JsonView>,
    chain: Seq<SummaryDecision>,
    d: SummaryDecision,
    original: Seq<JsonView>,
    i: int,
    from: int,
)
    requires
        chain_fits(chain.push(d), original, out.len() as int),
        chain_fits(chain, original, out.len() as int),
        0 <= i <= chain.len(),
        0 <= from <= out.len(),
        i < chain.len() ==> from <= chain[i].start,
        i == chain.len() ==> from <= d.start,
    ensures
        ({
            let short = replay(out, chain, i, from);
            let long = replay(out, chain.push(d), i, from);
            let same = short.len() - (out.len() - d.start);
            &&& 0 <= same <= short.len()
            &&& same <= long.len()
            &&& long.take(same) == short.take(same)
        }),
    decreases chain.len() - i,
{
    let more = chain.push(d);
    let short = replay(out, chain, i, from);
    let long = replay(out, more, i, from);
    assert(more[chain.len() as int] == d);
    assert(d.anchored(original));
    if i < chain.len() {
        assert(more[i] == chain[i]);
        assert(chain[i].anchored(original));
        lemma_views(chain[i].messages@);
        if i + 1 < chain.len() {
            assert(chain[i + 1].anchored(original));
            assert(chain_end(chain, i + 1) == chain[i].end);
        } else {
            assert(chain_end(more, i + 1) == chain[i].end);
        }
        lemma_replay_grown(out, chain, d, original, i + 1, chain[i].end as int);
        let s = replay(out, chain, i + 1, chain[i].end as int);
        let l = replay(out, more, i + 1, chain[i].end as int);
        let head = out.subrange(from, chain[i].start as int) + views(chain[i].messages@);
        let k = s.len() - (out.len() - d.start);
        assert(short =~= head + s);
        assert(long =~= head + l);
        assert(long.take(head.len() + k) =~= head + l.take(k));
        assert(short.take(head.len() + k) =~= head + s.take(k));
    } else {
        reveal_with_fuel(replay, 2);
        let same = short.len() - (out.len() - d.start);
        assert(long.take(same) =~= short.take(same));
    }
}

/// To put one more summary behind a chain leaves everything before its place as it was.
pub proof fn law_appended_summary(
    out: Seq<JsonView>,
    chain: Seq<SummaryDecision>,
    d: SummaryDecision,
    original: Seq<JsonView>,
)
    requires
        chain_fits(chain, original, out.len() as int),
        chain_fits(chain.push(d), original, out.len() as int),
    ensures
        ({
            let same = replayed(out, chain).len() - (out.len() - d.start);
            replayed(out, chain.push(d)).take(same) == replayed(out, chain).take(same)
        }),
{
    assert(chain[0].anchored(original));
    lemma_replay_grown(out, chain, d, original, 0, 0);
}

/// The positions of the assistant's messages, in order.
pub open spec fn assistants(messages: Seq<JsonView>) -> Seq<int>
    decreases messages.len(),
{
    if messages.len() == 0 {
        Seq::empty()
    } else {
        let before = assistants(messages.drop_last());
        if has_role(messages.last(), "assistant"@) {
            before.push(messages.len() - 1)
        } else {
            before
        }
    }
}

pub proof fn lemma_assistants(messages: Seq<JsonView>)
    ensures
        ({
            let a = assistants(messages);
            &&& a.len() <= messages.len()
            &&& forall|i: int| 0 <= i < a.len() ==> {
                &&& 0 <= #[trigger] a[i] < messages.len()
                &&& has_role(messages[a[i]], "assistant"@)
            }
            &&& forall|i: int, j: int| 0 <= i < j < a.len() ==> #[trigger] a[i] < #[trigger] a[j]
            &&& forall|m: int|
                0 <= m < messages.len() && has_role(#[trigger] messages[m], "assistant"@) ==> a.contains(m)
        }),
    decreases messages.len(),
{
    if messages.len() > 0 {
        let init = messages.drop_last();
        let a0 = assistants(init);
        let a = assistants(messages);
        lemma_assistants(init);
        assert forall|i: int| 0 <= i < a.len() implies {
            &&& 0 <= #[trigger] a[i] < messages.len()
            &&& has_role(messages[a[i]], "assistant"@)
        } by {
            if i < a0.len() {
                assert(a[i] == a0[i]);
                assert(init[a0[i]] == messages[a0[i]]);
            }
        }
        assert forall|i: int, j: int| 0 <= i < j < a.len() implies #[trigger] a[i] < #[trigger] a[j] by {
            assert(a[i] == a0[i]);
            if j < a0.len() {
                assert(a[j] == a0[j]);
            }
        }
        assert forall|m: int| 0 <= m < messages.len() && has_role(#[trigger] messages[m], "assistant"@) implies a.contains(m) by {
            if m < init.len() {
                assert(init[m] == messages[m]);
                let k = choose|k: int| 0 <= k < a0.len() && a0[k] == m;
                assert(a[k] == m);
            } else {
                assert(a[a.len() - 1] == m);
            }
        }
    }
}

/// Numbers as the machine holds them.
pub open spec fn as_ints(v: Seq<usize>) -> Seq<int> {
    Seq::new(v.len(), |i: int| v[i] as int)
}

fn assistant_positions(messages: &[Json]) -> (r: Vec<usize>)
    ensures
        as_ints(r@) == assistants(views(messages@)),
{
    let ghost all = views(messages@);
    let mut r: Vec<usize> = Vec::new();
    let mut i: usize = 0;
    proof {
        assert(all.take(0) =~= Seq::empty());
        assert(as_ints(r@) =~= Seq::empty());
    }
    while i < messages.len()
        invariant
            i <= messages@.len(),
            all == views(messages@),
            as_ints(r@) == assistants(all.take(i as int)),
        decreases messages@.len() - i,
    {
        proof {
            lemma_views(messages@);
            assert(all.take(i + 1).drop_last() =~= all.take(i as int));
            assert(all.take(i + 1).last() == all[i as int]);
        }
        if messages[i].member_is("role", "assistant") {
            let ghost before = as_ints(r@);
            r.push(i);
            assert(as_ints(r@) =~= before.push(i as int));
        }
        i = i + 1;
    }
    proof {
        lemma_views(messages@);
        assert(all.take(i as int) =~= all);
    }
    r
}

/// The last of some ascending numbers that is greater than `low` and at most `high`.
pub open spec fn last_within(a: Seq<int>, low: int, high: int) -> Option<int>
    decreases a.len(),
{
    if a.len() == 0 {
        None
    } else if low < a.last() <= high {
        Some(a.last())
    } else {
        last_within(a.drop_last(), low, high)
    }
}

fn find_last_within(a: &Vec<usize>, low: usize, high: usize) -> (r: Option<usize>)
    ensures
        match r {
            Some(i) => last_within(as_ints(a@), low as int, high as int) == Some(i as int),
            None => last_within(as_ints(a@), low as int, high as int) is None,
        },
{
    let ghost all = as_ints(a@);
    let mut i: usize = a.len();
    assert(all.take(i as int) =~= all);
    while i > 0
        invariant
            i <= a@.len(),
            all == as_ints(a@),
            last_within(all, low as int, high as int) == last_within(
                all.take(i as int),
                low as int,
                high as int,
            ),
        decreases i,
    {
        proof {
            assert(all.take(i as int).last() == all[i - 1]);
            assert(all.take(i as int).drop_last() =~= all.take(i - 1));
        }
        i = i - 1;
        if low < a[i] && a[i] <= high {
            return Some(a[i]);
        }
    }
    None
}

/// The messages to summarize: from the assistant's first turn, which must follow one of the user,
/// to the last turn of the assistant that lies before the protected ones and not behind `max_end`.
/// None where that is too little to be worth it.
pub open spec fn selected(messages: Seq<JsonView>, keep_recent_turns: nat, max_end: int) -> Option<
    (int, int),
> {
    let keep = if keep_recent_turns == 0 {
        1
    } else {
        keep_recent_turns as int
    };
    let a = assistants(messages);
    if a.len() < keep + 2 {
        None
    } else {
        let protected = a[a.len() - keep];
        let limit = if protected <= max_end {
            protected
        } else {
            max_end
        };
        let start = a[0];
        if start == 0 || !has_role(messages[start - 1], "user"@) {
            None
        } else {
            match last_within(a, start, limit) {
                Some(end) => if end < start + 4 {
                    None
                } else {
                    Some((start, end))
                },
                None => None,
            }
        }
    }
}

/// A pair of positions as the machine holds it.
pub open spec fn opt_pair(v: Option<(usize, usize)>) -> Option<(int, int)> {
    match v {
        Some(p) => Some((p.0 as int, p.1 as int)),
        None => None,
    }
}

/// Chooses the messages to summarize.
pub fn select_slice(messages: &[Json], keep_recent_turns: usize, max_end: usize) -> (r: Option<
    (usize, usize),
>)
    ensures
        opt_pair(r) == selected(views(messages@), keep_recent_turns as nat, max_end as int),
{
    let ghost all = views(messages@);
    let keep: usize = if keep_recent_turns == 0 {
        1
    } else {
        keep_recent_turns
    };
    let a = assistant_positions(messages);
    let ghost aa = assistants(all);
    proof {
        lemma_views(messages@);
        lemma_assistants(all);
        assert forall|i: int| 0 <= i < aa.len() implies aa[i] == a@[i] as int by {
            assert(as_ints(a@)[i] == aa[i]);
        }
    }
    let n: usize = a.len();
    if n < 2 || n - 2 < keep {
        return None;
    }
    let protected: usize = a[n - keep];
    let limit: usize = if protected <= max_end {
        protected
    } else {
        max_end
    };
    let start: usize = a[0];
    if start == 0 || !messages[start - 1].member_is("role", "user") {
        return None;
    }
    proof {
        lemma_last_within(aa, start as int, limit as int);
    }
    match find_last_within(&a, start, limit) {
        Some(end) => if end - start < 4 {
            None
        } else {
            Some((start, end))
        },
        None => None,
    }
}

pub proof fn lemma_last_within(a: Seq<int>, low: int, high: int)
    ensures
        last_within(a, low, high) matches Some(x) ==> low < x <= high && a.contains(x),
    decreases a.len(),
{
    if a.len() > 0 {
        lemma_last_within(a.drop_last(), low, high);
        if low < a.last() <= high {
            assert(a[a.len() - 1] == a.last());
        } else if let Some(x) = last_within(a.drop_last(), low, high) {
            let k = choose|k: int| 0 <= k < a.drop_last().len() && a.drop_last()[k] == x;
            assert(a[k] == x);
        }
    }
}

/// What is chosen lies within the bounds, is at least four messages long, begins and ends at a turn
/// of the assistant, follows a turn of the user, and leaves the protected turns alone.
pub proof fn law_selected_bounds(messages: Seq<JsonView>, keep_recent_turns: nat, max_end: int)
    ensures
        selected(messages, keep_recent_turns, max_end) matches Some((start, end)) ==> {
            &&& 0 < start
            &&& start + 4 <= end < messages.len()
            &&& end <= max_end
            &&& has_role(messages[start], "assistant"@)
            &&& has_role(messages[end], "assistant"@)
            &&& has_role(messages[start - 1], "user"@)
            &&& keep_recent_turns > 0 ==> (cutoff(messages, (keep_recent_turns - 1) as nat) matches Some(
                c,
            ) && end <= c)
        },
{
    let a = assistants(messages);
    lemma_assistants(messages);
    if let Some((start, end)) = selected(messages, keep_recent_turns, max_end) {
        let keep = if keep_recent_turns == 0 {
            1
        } else {
            keep_recent_turns as int
        };
        let protected = a[a.len() - keep];
        let limit = if protected <= max_end {
            protected
        } else {
            max_end
        };
        lemma_last_within(a, start, limit);
        let k = choose|k: int| 0 <= k < a.len() && a[k] == end;
        assert(has_role(messages[a[k]], "assistant"@));
        assert(has_role(messages[a[0]], "assistant"@));
        if keep_recent_turns > 0 {
            lemma_cutoff_assistant(messages, (keep_recent_turns - 1) as nat);
        }
    }
}

/// The cutoff is the assistant's turn counted from the end.
proof fn lemma_cutoff_assistant(messages: Seq<JsonView>, keep: nat)
    ensures
        ({
            let a = assistants(messages);
            cutoff(messages, keep) == if keep < a.len() {
                Some(a[a.len() - 1 - keep])
            } else {
                None
            }
        }),
    decreases messages.len(),
{
    if messages.len() > 0 {
        let init = messages.drop_last();
        lemma_cutoff_assistant(init, keep);
        if keep > 0 {
            lemma_cutoff_assistant(init, (keep - 1) as nat);
        }
    }
}

/// The phrases that mark a correction, in lower case.
pub const OVERRIDE_MARKERS: [&'static str; 3] = [
    "authoritative override",
    "current ground truth",
    "do not resurrect",
];

/// Whether a text bears a phrase that marks a correction.
pub open spec fn marks_override(s: Seq<char>) -> bool {
    any_word(lower(s), OVERRIDE_MARKERS@)
}

/// Whether a block of a message bears such a phrase, in its text or in the result it holds. What a
/// call carries does not count.
pub open spec fn block_overrides(b: JsonView) -> bool {
    let kind = b.get_str("type"@);
    if kind == Some("text"@) {
        b.get_str("text"@) matches Some(s) && marks_override(s)
    } else if kind == Some("tool_result"@) {
        match b.get("content"@) {
            Some(JsonView::String(s)) => marks_override(s),
            Some(v) => marks_override(json_text(v)),
            None => false,
        }
    } else {
        false
    }
}

/// Whether one of the blocks bears such a phrase.
pub open spec fn any_override(blocks: Seq<JsonView>) -> bool {
    exists|i: int| 0 <= i < blocks.len() && block_overrides(#[trigger] blocks[i])
}

/// Whether a message bears a phrase that marks a correction.
pub open spec fn overrides(m: JsonView) -> bool {
    match m.get("content"@) {
        Some(JsonView::String(s)) => marks_override(s),
        Some(JsonView::Array(blocks)) => any_override(blocks),
        _ => false,
    }
}

fn has_override(s: &str) -> (r: bool)
    ensures
        r == marks_override(s@),
{
    has_word(&lower_of(s), &OVERRIDE_MARKERS)
}

fn block_has_override(b: &Json) -> (r: bool)
    ensures
        r == block_overrides(b@),
{
    proof {
        lemma_kinds_differ();
    }
    if b.member_is("type", "text") {
        match b.get_str("text") {
            Some(s) => has_override(s),
            None => false,
        }
    } else if b.member_is("type", "tool_result") {
        match b.get("content") {
            Some(v) => match v {
                Json::String(s) => has_override(s),
                _ => has_override(&v.to_text()),
            },
            None => false,
        }
    } else {
        false
    }
}

/// The block types that are told apart differ.
proof fn lemma_kinds_differ()
    ensures
        "text"@ != "tool_result"@,
        "text"@ != "tool_use"@,
        "tool_use"@ != "tool_result"@,
{
    reveal_strlit("text");
    reveal_strlit("tool_result");
    reveal_strlit("tool_use");
    assert("text"@.len() == 4 && "tool_result"@.len() == 11 && "tool_use"@.len() == 8);
}

/// Whether a message bears a phrase that marks a correction.
pub fn message_has_override_marker(m: &Json) -> (r: bool)
    ensures
        r == overrides(m@),
{
    match m.get("content") {
        Some(content) => match content {
            Json::String(s) => has_override(s),
            Json::Array(blocks) => {
                let ghost all = views(blocks@);
                let mut i: usize = 0;
                while i < blocks.len()
                    invariant
                        i <= blocks@.len(),
                        all == views(blocks@),
                        m@.get("content"@) == Some(JsonView::Array(all)),
                        forall|j: int| 0 <= j < i ==> !block_overrides(#[trigger] all[j]),
                    decreases blocks@.len() - i,
                {
                    proof {
                        lemma_views(blocks@);
                    }
                    if block_has_override(&blocks[i]) {
                        assert(block_overrides(all[i as int]));
                        return true;
                    }
                    i = i + 1;
                }
                false
            },
            _ => false,
        },
        None => false,
    }
}

/// The first message from `start` on and before `end` that bears a correction.
pub open spec fn first_override(messages: Seq<JsonView>, start: int, end: int) -> Option<int>
    decreases end - start,
{
    if start >= end {
        None
    } else if overrides(messages[start]) {
        Some(start)
    } else {
        first_override(messages, start + 1, end)
    }
}

/// The last turn of the assistant behind `start` and not behind `j`; `start` where there is none.
pub open spec fn turn_back(messages: Seq<JsonView>, start: int, j: int) -> int
    decreases j - start,
{
    if j <= start {
        start
    } else if has_role(messages[j], "assistant"@) {
        j
    } else {
        turn_back(messages, start, j - 1)
    }
}

/// Where the summary must end so that a correction, and what follows it, stays as it is.
pub open spec fn override_cap(messages: Seq<JsonView>, start: int, end: int) -> int {
    match first_override(messages, start, end) {
        Some(j) => turn_back(messages, start, j),
        None => end,
    }
}

/// Says where the summary of `start..end` must end so that a correction stays as it is. The range
/// may go on behind the transcript only where it bears a correction.
pub fn cap_slice_at_override(messages: &[Json], start: usize, end: usize) -> (r: usize)
    requires
        start < end ==> end <= messages@.len() || first_override(
            views(messages@),
            start as int,
            messages@.len() as int,
        ) is Some,
    ensures
        r == override_cap(views(messages@), start as int, end as int),
{
    let ghost all = views(messages@);
    proof {
        lemma_views(messages@);
    }
    let mut i: usize = start;
    while i < end && !message_has_override_marker(&messages[i])
        invariant
            start <= i,
            i <= end || i == start,
            i < end ==> end <= messages@.len() || first_override(
                all,
                i as int,
                all.len() as int,
            ) is Some,
            all == views(messages@),
            all.len() == messages@.len(),
            forall|k: int| 0 <= k < all.len() ==> #[trigger] all[k] == messages@[k]@,
            first_override(all, start as int, end as int) == first_override(
                all,
                i as int,
                end as int,
            ),
        decreases end - i,
    {
        i = i + 1;
    }
    if i >= end {
        return end;
    }
    let mut j: usize = i;
    while j > start && !messages[j].member_is("role", "assistant")
        invariant
            start <= j <= i < end,
            i < messages@.len(),
            all == views(messages@),
            forall|k: int| 0 <= k < all.len() ==> #[trigger] all[k] == messages@[k]@,
            all.len() == messages@.len(),
            turn_back(all, start as int, i as int) == turn_back(all, start as int, j as int),
        decreases j,
    {
        j = j - 1;
    }
    j
}

pub proof fn lemma_first_override(messages: Seq<JsonView>, start: int, end: int)
    ensures
        match first_override(messages, start, end) {
            Some(j) => start <= j < end && overrides(messages[j]) && forall|k: int|
                start <= k < j ==> !overrides(#[trigger] messages[k]),
            None => forall|k: int| start <= k < end ==> !overrides(#[trigger] messages[k]),
        },
    decreases end - start,
{
    if start < end && !overrides(messages[start]) {
        lemma_first_override(messages, start + 1, end);
    }
}

pub proof fn lemma_turn_back(messages: Seq<JsonView>, start: int, j: int)
    requires
        start <= j,
    ensures
        start <= turn_back(messages, start, j) <= j,
        turn_back(messages, start, j) > start ==> has_role(
            messages[turn_back(messages, start, j)],
            "assistant"@,
        ),
    decreases j - start,
{
    if j > start && !has_role(messages[j], "assistant"@) {
        lemma_turn_back(messages, start, j - 1);
    }
}

/// No message that bears a correction is summarized, and the cap only ever shortens.
pub proof fn law_override_kept(messages: Seq<JsonView>, start: int, end: int)
    requires
        start <= end,
    ensures
        start <= override_cap(messages, start, end) <= end,
        start < override_cap(messages, start, end) < end ==> has_role(
            messages[override_cap(messages, start, end)],
            "assistant"@,
        ),
        forall|k: int|
            start <= k < override_cap(messages, start, end) ==> !overrides(#[trigger] messages[k]),
{
    lemma_first_override(messages, start, end);
    if let Some(j) = first_override(messages, start, end) {
        lemma_turn_back(messages, start, j);
    }
}

/// Whether a summary up to `end` could begin at a message: at a turn of the assistant that follows
/// one of the user, four messages or more before the end.
pub open spec fn can_start(messages: Seq<JsonView>, s: int, end: int) -> bool {
    0 < s < messages.len() && s + 4 <= end && has_role(messages[s], "assistant"@) && has_role(
        messages[s - 1],
        "user"@,
    )
}

/// The messages among the first `n` at which a summary up to `end` could begin, in order.
pub open spec fn starts(messages: Seq<JsonView>, end: int, n: int) -> Seq<int>
    decreases n,
{
    if n <= 0 {
        Seq::empty()
    } else {
        let before = starts(messages, end, n - 1);
        if can_start(messages, n - 1, end) {
            before.push(n - 1)
        } else {
            before
        }
    }
}

/// The messages at which a summary up to `end` could begin, in order.
pub open spec fn all_starts(messages: Seq<JsonView>, end: int) -> Seq<int> {
    starts(messages, end, messages.len() as int)
}

/// The messages at which a summary up to `end` could begin.
pub fn eligible_starts_to(messages: &[Json], end: usize) -> (r: Vec<usize>)
    ensures
        as_ints(r@) == all_starts(views(messages@), end as int),
{
    let ghost all = views(messages@);
    let mut r: Vec<usize> = Vec::new();
    let mut i: usize = 0;
    assert(as_ints(r@) =~= Seq::empty());
    while i < messages.len()
        invariant
            i <= messages@.len(),
            all == views(messages@),
            as_ints(r@) == starts(all, end as int, i as int),
        decreases messages@.len() - i,
    {
        proof {
            lemma_views(messages@);
        }
        if i > 0 && i < end && end - i >= 4 && messages[i].member_is("role", "assistant")
            && messages[i - 1].member_is("role", "user") {
            let ghost before = as_ints(r@);
            r.push(i);
            assert(as_ints(r@) =~= before.push(i as int));
        }
        i = i + 1;
    }
    proof {
        lemma_views(messages@);
    }
    r
}

/// How many places there are at which the summary could begin; none where nothing is to be
/// summarized.
pub open spec fn window_count(messages: Seq<JsonView>, keep_recent_turns: nat, max_end: int) -> nat {
    match selected(messages, keep_recent_turns, max_end) {
        Some((_, end)) => all_starts(messages, end).len(),
        None => 0,
    }
}

/// How many places there are at which the summary could begin.
pub fn eligible_window_count(messages: &[Json], keep_recent_turns: usize, max_end: usize) -> (r:
    usize)
    ensures
        r == window_count(views(messages@), keep_recent_turns as nat, max_end as int),
{
    match select_slice(messages, keep_recent_turns, max_end) {
        Some((_, end)) => {
            let s = eligible_starts_to(messages, end);
            assert(as_ints(s@).len() == s@.len());
            s.len()
        },
        None => 0,
    }
}

/// How much of a text of the conversation is shown to the summarizer, in characters.
pub const REASONING_BLOCK_CAP: usize = 8000;

/// How much of a tool result is shown to the summarizer, in characters.
pub const TOOL_RESULT_BLOCK_CAP: usize = 400;

/// A text cut to its head and tail where it has more than `cap` characters. A cap of zero cuts
/// nothing.
pub open spec fn cut(s: Seq<char>, cap: nat) -> Seq<char> {
    if cap == 0 || s.len() <= cap {
        s
    } else {
        let head = cap / 2;
        let tail = cap - head;
        s.take(head as int) + "\n…["@ + decimal((s.len() - cap) as nat) + " chars elided]…\n"@
            + s.skip(s.len() - tail)
    }
}

/// Puts a text behind another, cut to its head and tail where it has more than `cap` characters.
pub fn push_capped(out: &mut String, s: &str, cap: usize)
    ensures
        final(out)@ == old(out)@ + cut(s@, cap as nat),
{
    let chars = chars_of(s);
    let n: usize = chars.len();
    if cap == 0 || n <= cap {
        out.append(s);
        return;
    }
    let ghost before = out@;
    let head: usize = cap / 2;
    let tail: usize = cap - head;
    let mut part = string_of(&chars, 0, head);
    part.append("\n…[");
    part.append(&decimal_of(n - cap));
    part.append(" chars elided]…\n");
    part.append(&string_of(&chars, n - tail, n));
    proof {
        assert(s@.subrange(0, head as int) =~= s@.take(head as int));
        assert(s@.subrange(n - tail, n as int) =~= s@.skip(n - tail));
    }
    out.append(&part);
}

/// The text of a member, or a question mark.
pub open spec fn text_or_mark(v: JsonView, key: Seq<char>) -> Seq<char> {
    match v.get_str(key) {
        Some(s) => s,
        None => "?"@,
    }
}

/// What the summarizer is shown of a block.
pub open spec fn shown_block(b: JsonView, reasoning_cap: nat, tool_result_cap: nat) -> Seq<char> {
    let kind = b.get_str("type"@);
    if kind == Some("text"@) {
        match b.get_str("text"@) {
            Some(t) => cut(t, reasoning_cap),
            None => Seq::empty(),
        }
    } else if kind == Some("tool_use"@) {
        "[tool_use "@ + text_or_mark(b, "name"@) + "] "@ + match b.get("input"@) {
            Some(input) => cut(json_text(input), reasoning_cap),
            None => Seq::empty(),
        }
    } else if kind == Some("tool_result"@) {
        "[tool_result] "@ + match b.get("content"@) {
            Some(JsonView::String(s)) => cut(s, tool_result_cap),
            Some(v) => cut(json_text(v), tool_result_cap),
            None => Seq::empty(),
        }
    } else {
        Seq::empty()
    }
}

/// What the summarizer is shown of some blocks, each on a line of its own.
pub open spec fn shown_blocks(
    blocks: Seq<JsonView>,
    reasoning_cap: nat,
    tool_result_cap: nat,
) -> Seq<char>
    decreases blocks.len(),
{
    if blocks.len() == 0 {
        Seq::empty()
    } else {
        (shown_blocks(blocks.drop_last(), reasoning_cap, tool_result_cap) + shown_block(
            blocks.last(),
            reasoning_cap,
            tool_result_cap,
        )).push('\n')
    }
}

/// What the summarizer is shown of a message: its role, and its content.
pub open spec fn shown_message(m: JsonView, reasoning_cap: nat, tool_result_cap: nat) -> Seq<char> {
    "\n### "@ + text_or_mark(m, "role"@) + "\n"@ + match m.get("content"@) {
        Some(JsonView::String(s)) => cut(s, reasoning_cap),
        Some(JsonView::Array(blocks)) => shown_blocks(blocks, reasoning_cap, tool_result_cap),
        _ => Seq::empty(),
    }
}

/// What the summarizer is shown of some messages.
pub open spec fn shown(messages: Seq<JsonView>, reasoning_cap: nat, tool_result_cap: nat) -> Seq<char>
    decreases messages.len(),
{
    if messages.len() == 0 {
        Seq::empty()
    } else {
        shown(messages.drop_last(), reasoning_cap, tool_result_cap) + shown_message(
            messages.last(),
            reasoning_cap,
            tool_result_cap,
        )
    }
}

/// What the summarizer is shown of messages that follow others is put behind what it is shown of
/// those.
pub proof fn law_shown_joined(
    a: Seq<JsonView>,
    b: Seq<JsonView>,
    reasoning_cap: nat,
    tool_result_cap: nat,
)
    ensures
        shown(a + b, reasoning_cap, tool_result_cap) == shown(a, reasoning_cap, tool_result_cap)
            + shown(b, reasoning_cap, tool_result_cap),
    decreases b.len(),
{
    if b.len() == 0 {
        assert(a + b =~= a);
        assert(shown(a, reasoning_cap, tool_result_cap) + Seq::empty() =~= shown(
            a,
            reasoning_cap,
            tool_result_cap,
        ));
    } else {
        law_shown_joined(a, b.drop_last(), reasoning_cap, tool_result_cap);
        assert((a + b).drop_last() =~= a + b.drop_last());
        assert(shown(a + b, reasoning_cap, tool_result_cap) =~= shown(
            a,
            reasoning_cap,
            tool_result_cap,
        ) + shown(b, reasoning_cap, tool_result_cap));
    }
}

fn show_block(out: &mut String, b: &Json, reasoning_cap: usize, tool_result_cap: usize)
    ensures
        final(out)@ == old(out)@ + shown_block(
            b@,
            reasoning_cap as nat,
            tool_result_cap as nat,
        ),
{
    let ghost before = out@;
    proof {
        lemma_kinds_differ();
    }
    if b.member_is("type", "text") {
        if let Some(t) = b.get_str("text") {
            push_capped(out, t, reasoning_cap);
        } else {
            assert(before + Seq::empty() =~= before);
        }
    } else if b.member_is("type", "tool_use") {
        let mut part = "[tool_use ".to_owned();
        match b.get_str("name") {
            Some(name) => part.append(name),
            None => part.append("?"),
        }
        part.append("] ");
        let ghost label = part@;
        if let Some(input) = b.get("input") {
            push_capped(&mut part, &input.to_text(), reasoning_cap);
        } else {
            assert(label + Seq::empty() =~= label);
        }
        out.append(&part);
    } else if b.member_is("type", "tool_result") {
        let mut part = "[tool_result] ".to_owned();
        let ghost label = part@;
        match b.get("content") {
            Some(v) => match v {
                Json::String(s) => push_capped(&mut part, s, tool_result_cap),
                _ => push_capped(&mut part, &v.to_text(), tool_result_cap),
            },
            None => {
                assert(label + Seq::empty() =~= label);
            },
        }
        out.append(&part);
    } else {
        assert(before + Seq::empty() =~= before);
    }
}

fn show_blocks(out: &mut String, blocks: &Vec<Json>, reasoning_cap: usize, tool_result_cap: usize)
    ensures
        final(out)@ == old(out)@ + shown_blocks(
            views(blocks@),
            reasoning_cap as nat,
            tool_result_cap as nat,
        ),
{
    let ghost before = out@;
    let ghost all = views(blocks@);
    let ghost rc = reasoning_cap as nat;
    let ghost tc = tool_result_cap as nat;
    let mut i: usize = 0;
    assert(all.take(0) =~= Seq::empty());
    assert(before + shown_blocks(all.take(0), rc, tc) =~= before);
    while i < blocks.len()
        invariant
            i <= blocks@.len(),
            all == views(blocks@),
            rc == reasoning_cap,
            tc == tool_result_cap,
            out@ == before + shown_blocks(all.take(i as int), rc, tc),
        decreases blocks@.len() - i,
    {
        proof {
            lemma_views(blocks@);
            assert(all.take(i + 1).drop_last() =~= all.take(i as int));
            assert(all.take(i + 1).last() == all[i as int]);
        }
        show_block(out, &blocks[i], reasoning_cap, tool_result_cap);
        out.push('\n');
        assert(out@ =~= before + shown_blocks(all.take(i + 1), rc, tc));
        i = i + 1;
    }
    proof {
        lemma_views(blocks@);
        assert(all.take(i as int) =~= all);
    }
}

fn show_message(out: &mut String, m: &Json, reasoning_cap: usize, tool_result_cap: usize)
    ensures
        final(out)@ == old(out)@ + shown_message(
            m@,
            reasoning_cap as nat,
            tool_result_cap as nat,
        ),
{
    let mut part = "\n### ".to_owned();
    match m.get_str("role") {
        Some(role) => part.append(role),
        None => part.append("?"),
    }
    part.append("\n");
    let ghost label = part@;
    match m.get("content") {
        Some(content) => match content {
            Json::String(s) => push_capped(&mut part, s, reasoning_cap),
            Json::Array(blocks) => show_blocks(&mut part, blocks, reasoning_cap, tool_result_cap),
            _ => {
                assert(label + Seq::empty() =~= label);
            },
        },
        None => {
            assert(label + Seq::empty() =~= label);
        },
    }
    out.append(&part);
}

/// Writes messages out as the summarizer is shown them.
pub fn serialize_slice(slice: &[Json], reasoning_cap: usize, tool_result_cap: usize) -> (r: String)
    ensures
        r@ == shown(views(slice@), reasoning_cap as nat, tool_result_cap as nat),
{
    let ghost all = views(slice@);
    let ghost rc = reasoning_cap as nat;
    let ghost tc = tool_result_cap as nat;
    let mut out = String::new();
    let mut i: usize = 0;
    assert(all.take(0) =~= Seq::empty());
    while i < slice.len()
        invariant
            i <= slice@.len(),
            all == views(slice@),
            rc == reasoning_cap,
            tc == tool_result_cap,
            out@ == shown(all.take(i as int), rc, tc),
        decreases slice@.len() - i,
    {
        proof {
            lemma_views(slice@);
            assert(all.take(i + 1).drop_last() =~= all.take(i as int));
            assert(all.take(i + 1).last() == all[i as int]);
        }
        show_message(&mut out, &slice[i], reasoning_cap, tool_result_cap);
        i = i + 1;
    }
    proof {
        lemma_views(slice@);
        assert(all.take(i as int) =~= all);
    }
    out
}

/// The size of what the summarizer is shown of the messages `start..end`, in bytes.
pub open spec fn shown_len(
    messages: Seq<JsonView>,
    start: int,
    end: int,
    reasoning_cap: nat,
    tool_result_cap: nat,
) -> nat {
    utf8_len(shown(messages.subrange(start, end), reasoning_cap, tool_result_cap))
}

/// More messages take no less room.
pub proof fn law_shown_len_grows(
    messages: Seq<JsonView>,
    start: int,
    end: int,
    further: int,
    reasoning_cap: nat,
    tool_result_cap: nat,
)
    requires
        0 <= start <= end <= further <= messages.len(),
    ensures
        shown_len(messages, start, end, reasoning_cap, tool_result_cap) <= shown_len(
            messages,
            start,
            further,
            reasoning_cap,
            tool_result_cap,
        ),
    decreases further - end,
{
    if end < further {
        law_shown_len_grows(messages, start, end, further - 1, reasoning_cap, tool_result_cap);
        let part = messages.subrange(start, further);
        assert(part.drop_last() =~= messages.subrange(start, further - 1));
        lemma_utf8_concat(
            shown(part.drop_last(), reasoning_cap, tool_result_cap),
            shown_message(part.last(), reasoning_cap, tool_result_cap),
        );
    }
}

fn fits(
    messages: &[Json],
    start: usize,
    end: usize,
    reasoning_cap: usize,
    tool_result_cap: usize,
    char_budget: usize,
) -> (r: bool)
    requires
        start <= end <= messages@.len(),
    ensures
        r == (shown_len(
            views(messages@),
            start as int,
            end as int,
            reasoning_cap as nat,
            tool_result_cap as nat,
        ) <= char_budget),
{
    let part = slice_subrange(messages, start, end);
    proof {
        lemma_views(messages@);
        lemma_views(part@);
        assert(views(part@) =~= views(messages@).subrange(start as int, end as int));
    }
    byte_len(&serialize_slice(part, reasoning_cap, tool_result_cap)) <= char_budget
}

/// The first turn of the assistant from `i` on, four messages or more before the end, from which on
/// what the summarizer is shown takes no more than the budget.
pub open spec fn fitting_start(
    messages: Seq<JsonView>,
    i: int,
    end: int,
    reasoning_cap: nat,
    tool_result_cap: nat,
    char_budget: nat,
) -> Option<int>
    decreases end - i,
{
    if i + 4 > end {
        None
    } else if has_role(messages[i], "assistant"@) && shown_len(
        messages,
        i,
        end,
        reasoning_cap,
        tool_result_cap,
    ) <= char_budget {
        Some(i)
    } else {
        fitting_start(messages, i + 1, end, reasoning_cap, tool_result_cap, char_budget)
    }
}

/// Whether the assistant's first turn from `start` on lies less than four messages before the end.
pub open spec fn first_turn_late(messages: Seq<JsonView>, start: int, end: int) -> bool {
    exists|i: int|
        start <= i < messages.len() && i + 4 > end && has_role(#[trigger] messages[i], "assistant"@)
            && forall|k: int| start <= k < i ==> !has_role(#[trigger] messages[k], "assistant"@)
}

/// Moves the beginning of `start..end` forward until what the summarizer is shown takes no more
/// than the budget; leaves it where that cannot be had. The range may go on behind the transcript
/// only where there is nothing to show.
pub fn cap_slice_start(
    messages: &[Json],
    start: usize,
    end: usize,
    reasoning_cap: usize,
    tool_result_cap: usize,
    char_budget: usize,
) -> (r: usize)
    requires
        start < end ==> end <= messages@.len() || first_turn_late(
            views(messages@),
            start as int,
            end as int,
        ),
    ensures
        r as int == match fitting_start(
            views(messages@),
            start as int,
            end as int,
            reasoning_cap as nat,
            tool_result_cap as nat,
            char_budget as nat,
        ) {
            Some(i) => i,
            None => start as int,
        },
{
    let ghost all = views(messages@);
    let ghost want = fitting_start(
        all,
        start as int,
        end as int,
        reasoning_cap as nat,
        tool_result_cap as nat,
        char_budget as nat,
    );
    let mut i: usize = start;
    while i < end && end - i >= 4
        invariant
            start <= i,
            i < end ==> end <= messages@.len() || first_turn_late(all, i as int, end as int),
            all == views(messages@),
            want == fitting_start(
                all,
                start as int,
                end as int,
                reasoning_cap as nat,
                tool_result_cap as nat,
                char_budget as nat,
            ),
            want == fitting_start(
                all,
                i as int,
                end as int,
                reasoning_cap as nat,
                tool_result_cap as nat,
                char_budget as nat,
            ),
        decreases end - i,
    {
        proof {
            lemma_views(messages@);
        }
        if messages[i].member_is("role", "assistant") && fits(
            messages,
            i,
            end,
            reasoning_cap,
            tool_result_cap,
            char_budget,
        ) {
            return i;
        }
        i = i + 1;
    }
    start
}

/// Whether a summary from `start` on could end at a message: at a turn of the assistant, four
/// messages or more behind the start, not behind `max_end`.
pub open spec fn can_end(messages: Seq<JsonView>, start: int, max_end: int, e: int) -> bool {
    start + 4 <= e <= max_end && e < messages.len() && has_role(messages[e], "assistant"@)
}

/// Whether `e` is where the summary from `start` on is to end: the last place at which it could
/// and what the summarizer is shown takes no more than the budget; the first place where none of
/// them does; `start` where there is no place.
pub open spec fn is_end_cap(
    messages: Seq<JsonView>,
    start: int,
    max_end: int,
    reasoning_cap: nat,
    tool_result_cap: nat,
    char_budget: nat,
    e: int,
) -> bool {
    let small = |x: int|
        shown_len(messages, start, x, reasoning_cap, tool_result_cap) <= char_budget;
    if forall|x: int| !#[trigger] can_end(messages, start, max_end, x) {
        e == start
    } else if exists|x: int| #[trigger] can_end(messages, start, max_end, x) && small(x) {
        &&& can_end(messages, start, max_end, e)
        &&& small(e)
        &&& forall|x: int| #[trigger] can_end(messages, start, max_end, x) && small(x) ==> x <= e
    } else {
        &&& can_end(messages, start, max_end, e)
        &&& forall|x: int| #[trigger] can_end(messages, start, max_end, x) ==> e <= x
    }
}

/// Moves the end of `start..max_end` back until what the summarizer is shown takes no more than the
/// budget.
pub fn cap_slice_end(
    messages: &[Json],
    start: usize,
    max_end: usize,
    reasoning_cap: usize,
    tool_result_cap: usize,
    char_budget: usize,
) -> (r: usize)
    ensures
        is_end_cap(
            views(messages@),
            start as int,
            max_end as int,
            reasoning_cap as nat,
            tool_result_cap as nat,
            char_budget as nat,
            r as int,
        ),
{
    let ghost all = views(messages@);
    let ghost rc = reasoning_cap as nat;
    let ghost tc = tool_result_cap as nat;
    let ghost small = |x: int| shown_len(all, start as int, x, rc, tc) <= char_budget;
    let n: usize = messages.len();
    proof {
        lemma_views(messages@);
    }
    if n < 4 || start > n - 4 {
        return start;
    }
    let mut ends: Vec<usize> = Vec::new();
    let mut e: usize = start + 4;
    while e < n && e <= max_end
        invariant
            start + 4 <= e <= n,
            n == messages@.len(),
            all == views(messages@),
            all.len() == n,
            forall|k: int| 0 <= k < all.len() ==> #[trigger] all[k] == messages@[k]@,
            forall|i: int|
                0 <= i < ends@.len() ==> can_end(
                    all,
                    start as int,
                    max_end as int,
                    #[trigger] ends@[i] as int,
                ) && ends@[i] < e,
            forall|i: int, j: int| 0 <= i < j < ends@.len() ==> ends@[i] < ends@[j],
            forall|x: int| #[trigger] can_end(all, start as int, max_end as int, x) && x < e
                ==> exists|i: int| 0 <= i < ends@.len() && #[trigger] ends@[i] == x,
        decreases n - e,
    {
        let ghost before = ends@;
        if messages[e].member_is("role", "assistant") {
            ends.push(e);
            assert forall|x: int| #[trigger] can_end(all, start as int, max_end as int, x) && x < e + 1 implies exists|i: int| 0 <= i < ends@.len() && #[trigger] ends@[i] == x by {
                if x == e {
                    assert(ends@[before.len() as int] == x);
                } else {
                    let i = choose|i: int| 0 <= i < before.len() && #[trigger] before[i] == x;
                    assert(ends@[i] == x);
                }
            }
        }
        e = e + 1;
    }
    if ends.len() == 0 {
        return start;
    }
    let mut lo: usize = 0;
    let mut hi: usize = ends.len();
    while lo < hi
        invariant
            lo <= hi <= ends@.len(),
            n == messages@.len(),
            all == views(messages@),
            all.len() == n,
            rc == reasoning_cap,
            tc == tool_result_cap,
            small == (|x: int| shown_len(all, start as int, x, rc, tc) <= char_budget),
            forall|i: int|
                0 <= i < ends@.len() ==> can_end(
                    all,
                    start as int,
                    max_end as int,
                    #[trigger] ends@[i] as int,
                ),
            forall|i: int, j: int| 0 <= i < j < ends@.len() ==> ends@[i] < ends@[j],
            forall|i: int| 0 <= i < lo ==> small(#[trigger] ends@[i] as int),
            forall|i: int| hi <= i < ends@.len() ==> !small(#[trigger] ends@[i] as int),
        decreases hi - lo,
    {
        let mid: usize = lo + (hi - lo) / 2;
        let at: usize = ends[mid];
        assert(can_end(all, start as int, max_end as int, ends@[mid as int] as int));
        if fits(messages, start, at, reasoning_cap, tool_result_cap, char_budget) {
            proof {
                assert forall|i: int| 0 <= i < mid + 1 implies small(#[trigger] ends@[i] as int) by {
                    if i < mid {
                        assert(can_end(all, start as int, max_end as int, ends@[i] as int));
                        law_shown_len_grows(all, start as int, ends@[i] as int, at as int, rc, tc);
                    }
                }
            }
            lo = mid + 1;
        } else {
            proof {
                assert forall|i: int| mid <= i < ends@.len() implies !small(#[trigger] ends@[i] as int) by {
                    if i > mid {
                        assert(can_end(all, start as int, max_end as int, ends@[i] as int));
                        law_shown_len_grows(all, start as int, at as int, ends@[i] as int, rc, tc);
                    }
                }
            }
            hi = mid;
        }
    }
    assert(can_end(all, start as int, max_end as int, ends@[0] as int));
    if lo > 0 {
        let r: usize = ends[lo - 1];
        proof {
            assert(small(ends@[lo - 1] as int));
            assert forall|x: int| #[trigger] can_end(all, start as int, max_end as int, x) && small(x) implies x <= r by {
                let i = choose|i: int| 0 <= i < ends@.len() && #[trigger] ends@[i] == x;
                if i >= lo {
                    assert(!small(ends@[i] as int));
                }
            }
            assert(can_end(all, start as int, max_end as int, r as int) && small(r as int));
        }
        r
    } else {
        let r: usize = ends[0];
        proof {
            assert forall|x: int| #[trigger] can_end(all, start as int, max_end as int, x) implies r <= x && !small(x) by {
                let i = choose|i: int| 0 <= i < ends@.len() && #[trigger] ends@[i] == x;
                assert(!small(ends@[i] as int));
            }
        }
        r
    }
}

/// The first place behind `widest` at which the summary up to `end` could begin and tool results
/// take no more than `num` parts in `den`, from the `i`th on.
pub open spec fn dense_start(
    messages: Seq<JsonView>,
    widest: int,
    end: int,
    num: int,
    den: int,
    i: int,
) -> Option<int>
    decreases all_starts(messages, end).len() - i,
{
    let all = all_starts(messages, end);
    if i < 0 || i >= all.len() {
        None
    } else if all[i] > widest && !tool_heavy(messages.subrange(all[i], end), num, den) {
        Some(all[i])
    } else {
        dense_start(messages, widest, end, num, den, i + 1)
    }
}

pub proof fn lemma_starts(messages: Seq<JsonView>, end: int, n: int)
    requires
        0 <= n <= messages.len(),
    ensures
        forall|i: int|
            0 <= i < starts(messages, end, n).len() ==> can_start(
                messages,
                #[trigger] starts(messages, end, n)[i],
                end,
            ) && starts(messages, end, n)[i] < n,
        forall|i: int, j: int|
            0 <= i < j < starts(messages, end, n).len() ==> #[trigger] starts(messages, end, n)[i]
                < #[trigger] starts(messages, end, n)[j],
        forall|x: int|
            0 <= x < n && #[trigger] can_start(messages, x, end) ==> starts(
                messages,
                end,
                n,
            ).contains(x),
    decreases n,
{
    if n > 0 {
        let s0 = starts(messages, end, n - 1);
        let s = starts(messages, end, n);
        lemma_starts(messages, end, n - 1);
        assert forall|i: int| 0 <= i < s.len() implies can_start(messages, #[trigger] s[i], end) && s[i] < n by {
            if i < s0.len() {
                assert(s[i] == s0[i]);
            }
        }
        assert forall|i: int, j: int| 0 <= i < j < s.len() implies #[trigger] s[i] < #[trigger] s[j] by {
            assert(s[i] == s0[i]);
            if j < s0.len() {
                assert(s[j] == s0[j]);
            }
        }
        assert forall|x: int| 0 <= x < n && #[trigger] can_start(messages, x, end) implies s.contains(x) by {
            if x < n - 1 {
                let k = choose|k: int| 0 <= k < s0.len() && s0[k] == x;
                assert(s[k] == x);
            } else {
                assert(s[s.len() - 1] == x);
            }
        }
    }
}

/// Finds a later beginning for the summary up to `end`, from which on tool results take no more
/// than `num` parts in `den`: the first there is, so that as much as possible is summarized. The end
/// may lie behind the transcript only where there is no later place to begin.
pub fn densify_start(
    messages: &[Json],
    widest_start: usize,
    end: usize,
    num: u32,
    den: u32,
) -> (r: Option<usize>)
    requires
        end <= messages@.len() || forall|s: int|
            widest_start < s ==> !#[trigger] can_start(views(messages@), s, end as int),
    ensures
        match r {
            Some(s) => dense_start(
                views(messages@),
                widest_start as int,
                end as int,
                num as int,
                den as int,
                0,
            ) == Some(s as int),
            None => dense_start(
                views(messages@),
                widest_start as int,
                end as int,
                num as int,
                den as int,
                0,
            ) is None,
        },
{
    let ghost all = views(messages@);
    let found = eligible_starts_to(messages, end);
    let ghost s = all_starts(all, end as int);
    let ghost want = dense_start(
        all,
        widest_start as int,
        end as int,
        num as int,
        den as int,
        0,
    );
    proof {
        lemma_views(messages@);
        lemma_starts(all, end as int, all.len() as int);
    }
    let mut i: usize = 0;
    while i < found.len()
        invariant
            i <= found@.len(),
            end <= messages@.len() || forall|x: int|
                widest_start < x ==> !#[trigger] can_start(all, x, end as int),
            all == views(messages@),
            s == all_starts(all, end as int),
            as_ints(found@) == s,
            forall|k: int| 0 <= k < s.len() ==> can_start(all, #[trigger] s[k], end as int),
            want == dense_start(
                all,
                widest_start as int,
                end as int,
                num as int,
                den as int,
                0,
            ),
            want == dense_start(
                all,
                widest_start as int,
                end as int,
                num as int,
                den as int,
                i as int,
            ),
        decreases found@.len() - i,
    {
        let at: usize = found[i];
        assert(s[i as int] == at as int);
        assert(can_start(all, s[i as int], end as int));
        if at > widest_start {
            let part = slice_subrange(messages, at, end);
            proof {
                lemma_views(messages@);
                lemma_views(part@);
                assert(views(part@) =~= all.subrange(at as int, end as int));
            }
            if !tool_result_share(part).exceeds(num, den) {
                return Some(at);
            }
        }
        i = i + 1;
    }
    None
}

proof fn lemma_dense_start(messages: Seq<JsonView>, widest: int, end: int, num: int, den: int, i: int)
    requires
        0 <= i,
    ensures
        dense_start(messages, widest, end, num, den, i) matches Some(s) ==> {
            &&& s > widest
            &&& all_starts(messages, end).contains(s)
            &&& !tool_heavy(messages.subrange(s, end), num, den)
            &&& forall|k: int|
                i <= k < all_starts(messages, end).len() && widest < #[trigger] all_starts(
                    messages,
                    end,
                )[k] < s ==> tool_heavy(
                    messages.subrange(all_starts(messages, end)[k], end),
                    num,
                    den,
                )
        },
    decreases all_starts(messages, end).len() - i,
{
    let all = all_starts(messages, end);
    lemma_starts(messages, end, messages.len() as int);
    if i < all.len() {
        if all[i] > widest && !tool_heavy(messages.subrange(all[i], end), num, den) {
        } else {
            lemma_dense_start(messages, widest, end, num, den, i + 1);
        }
    }
}

/// The beginning that is found lies behind the widest one, is a place to begin, is not heavy with
/// tool results, and every such place before it is.
pub proof fn law_dense_start(messages: Seq<JsonView>, widest: int, end: int, num: int, den: int)
    ensures
        dense_start(messages, widest, end, num, den, 0) matches Some(s) ==> {
            &&& s > widest
            &&& can_start(messages, s, end)
            &&& !tool_heavy(messages.subrange(s, end), num, den)
            &&& forall|x: int|
                widest < x < s && #[trigger] can_start(messages, x, end) ==> tool_heavy(
                    messages.subrange(x, end),
                    num,
                    den,
                )
        },
{
    let all = all_starts(messages, end);
    lemma_starts(messages, end, messages.len() as int);
    lemma_dense_start(messages, widest, end, num, den, 0);
    if let Some(s) = dense_start(messages, widest, end, num, den, 0) {
        let k = choose|k: int| 0 <= k < all.len() && all[k] == s;
        assert(can_start(messages, all[k], end));
        assert forall|x: int| widest < x < s && #[trigger] can_start(messages, x, end) implies tool_heavy(
            messages.subrange(x, end),
            num,
            den,
        ) by {
            let j = choose|j: int| 0 <= j < all.len() && all[j] == x;
            assert(all[j] == x);
        }
    }
}

} // verus!
