//! The collapse of near-duplicates: an old result goes only where a later one is nearly the same,
//! by the whole text of both.

use super::{
    cleared, held, law_marker, law_old, law_terms, left_of, opens_with, said_by, turns_from,
};
use crate::config::{covered, SimHashDedupConfig};
use crate::json::JsonView;
use crate::pairing::{block_at, use_positions};
use crate::pairing_laws::{call_at, law_stands_for};
use crate::rewrite::{lemma_block_at, rewrite};
use crate::sites::{before, lemma_sites};
use crate::size::size;
use crate::strategies::simhash_dedup::{
    alphanumeric, balance, bit, candidates, compared, distance, fnv, hash_at, near_later, near_rule,
    ones, simhash_of, token_runs, tokens, tool_of,
};
use crate::text_laws::law_begins;
use vstd::prelude::*;
use vstd::utf8::encode_utf8;

verus! {

/// The id that a result names; empty where it names none.
pub open spec fn answers_to(b: JsonView) -> Seq<char> {
    match b.get("tool_use_id"@) {
        Some(JsonView::String(id)) => id,
        _ => Seq::empty(),
    }
}

/// Whether a result comes from a tool that is exempt.
pub open spec fn from_exempt(messages: Seq<JsonView>, cfg: &SimHashDedupConfig, b: JsonView) -> bool {
    exists|mi: int, ci: int| #[trigger]
        call_at(messages, answers_to(b), mi, ci) && (block_at(messages, mi, ci)->0.get(
            "name"@,
        ) matches Some(JsonView::String(name)) && covered(cfg.exempt_tools@, name))
}

/// Whether the block at a position is a result with a text that is compared with others: in a
/// message of the user, of a tool that is not exempt, no error, no marker, and not too small.
pub open spec fn comparable(
    messages: Seq<JsonView>,
    cfg: &SimHashDedupConfig,
    p: (int, int),
    text: Seq<char>,
) -> bool {
    &&& said_by(messages, p.0, "user"@)
    &&& block_at(messages, p.0, p.1) matches Some(b) && b.get("type"@) == Some(
        JsonView::String("tool_result"@),
    ) && b.get("is_error"@) != Some(JsonView::Bool(true)) && b.get("content"@) == Some(
        JsonView::String(text),
    ) && !from_exempt(messages, cfg, b)
    &&& !opens_with(text, "[trimwire: "@)
    &&& text != "[Old tool result content cleared]"@
    &&& size(JsonView::String(text)) >= cfg.min_bytes
}

proof fn lemma_exempt(messages: Seq<JsonView>, cfg: &SimHashDedupConfig, b: JsonView)
    ensures
        from_exempt(messages, cfg, b) <==> (tool_of(messages, b) matches Some(name) && covered(
            cfg.exempt_tools@,
            name,
        )),
{
    let id = answers_to(b);
    crate::pairing::lemma_positions(messages, false, id);
    if use_positions(messages).contains_key(id) {
        let (mi, ci) = use_positions(messages)[id];
        law_stands_for(messages, id, mi, ci);
        assert(call_at(messages, id, mi, ci));
    }
    if from_exempt(messages, cfg, b) {
        let (mi, ci) = choose|mi: int, ci: int| #[trigger]
            call_at(messages, id, mi, ci) && (block_at(messages, mi, ci)->0.get(
                "name"@,
            ) matches Some(JsonView::String(name)) && covered(cfg.exempt_tools@, name));
        law_stands_for(messages, id, mi, ci);
    }
}

proof fn lemma_comparable(messages: Seq<JsonView>, cfg: &SimHashDedupConfig, p: (int, int))
    requires
        block_at(messages, p.0, p.1) is Some,
    ensures
        ({
            let b = block_at(messages, p.0, p.1)->0;
            compared(messages, cfg, p.0, p.1, b) <==> exists|text: Seq<char>| #[trigger]
                comparable(messages, cfg, p, text)
        }),
        forall|text: Seq<char>| #[trigger]
            comparable(messages, cfg, p, text) ==> hash_at(messages, p) == simhash_of(text),
{
    let b = block_at(messages, p.0, p.1)->0;
    lemma_exempt(messages, cfg, b);
    let content = held(b, "content"@);
    law_terms(b, "content"@, content, Seq::empty());
    if let JsonView::String(s) = content {
        law_begins(s, "[trimwire: "@);
        if compared(messages, cfg, p.0, p.1, b) {
            assert(comparable(messages, cfg, p, s));
        }
    }
}

/// Whether a later result that is compared is nearly the same as a text: the hashes of the two whole
/// texts differ in no more bits than are allowed.
pub open spec fn nearly_repeated(
    messages: Seq<JsonView>,
    cfg: &SimHashDedupConfig,
    p: (int, int),
    text: Seq<char>,
) -> bool {
    exists|q: (int, int), other: Seq<char>| #[trigger]
        comparable(messages, cfg, q, other) && before(p, q) && distance(
            simhash_of(text),
            simhash_of(other),
        ) <= cfg.hamming_threshold
}

/// An old result that is compared gives way to the stub and its size exactly where a later one is
/// nearly the same, by the whole texts of both, and the note is smaller. No other block changes.
pub proof fn law_near_goes(messages: Seq<JsonView>, cfg: &SimHashDedupConfig, mi: int, ci: int)
    requires
        block_at(messages, mi, ci) is Some,
    ensures
        ({
            let b = block_at(messages, mi, ci)->0;
            let content = held(b, "content"@);
            block_at(rewrite(messages, near_rule(messages, cfg)), mi, ci) == Some(
                if turns_from(messages, mi) > cfg.keep_recent_turns && (content matches JsonView::String(
                    text,
                ) && comparable(messages, cfg, (mi, ci), text) && nearly_repeated(
                    messages,
                    cfg,
                    (mi, ci),
                    text,
                )) && size(left_of(cfg.stub@, content)) < size(content) {
                    b.with("content"@, left_of(cfg.stub@, content))
                } else {
                    b
                },
            )
        }),
{
    let b = block_at(messages, mi, ci)->0;
    let p = (mi, ci);
    let content = held(b, "content"@);
    let s = candidates(messages, cfg);
    let f = |a: int, c: int, x: JsonView| compared(messages, cfg, a, c, x);
    lemma_block_at(messages, near_rule(messages, cfg), mi, ci);
    law_old(messages, cfg.keep_recent_turns as nat, mi);
    law_terms(b, "content"@, content, cfg.stub@);
    law_marker(cfg.stub@, content);
    lemma_comparable(messages, cfg, p);
    lemma_sites(messages, f);
    if compared(messages, cfg, mi, ci, b) {
        let text = choose|text: Seq<char>| #[trigger] comparable(messages, cfg, p, text);
        assert(content == JsonView::String(text));
        assert(f(mi, ci, b));
        assert(s.contains((mi, ci)));
        if near_later(messages, cfg, p) {
            let (i, j) = choose|i: int, j: int|
                0 <= i < j < s.len() && #[trigger] s[i] == p && distance(
                    hash_at(messages, p),
                    hash_at(messages, #[trigger] s[j]),
                ) <= cfg.hamming_threshold;
            let q = s[j];
            assert(before(s[i], s[j]));
            assert(f(q.0, q.1, block_at(messages, q.0, q.1)->0));
            lemma_comparable(messages, cfg, q);
            let other = choose|other: Seq<char>| #[trigger] comparable(messages, cfg, q, other);
            assert(comparable(messages, cfg, q, other));
            assert(nearly_repeated(messages, cfg, p, text));
        }
        if nearly_repeated(messages, cfg, p, text) {
            let (q, other) = choose|q: (int, int), other: Seq<char>| #[trigger]
                comparable(messages, cfg, q, other) && before(p, q) && distance(
                    simhash_of(text),
                    simhash_of(other),
                ) <= cfg.hamming_threshold;
            lemma_comparable(messages, cfg, q);
            assert(f(q.0, q.1, block_at(messages, q.0, q.1)->0));
            assert(s.contains((q.0, q.1)));
            let i = choose|i: int| 0 <= i < s.len() && s[i] == p;
            let j = choose|j: int| 0 <= j < s.len() && s[j] == q;
            if j < i {
                assert(before(s[j], s[i]));
            }
            assert(s[i] == p && hash_at(messages, s[j]) == simhash_of(other));
            assert(near_later(messages, cfg, p));
        }
    } else {
        if let JsonView::String(text) = content {
            assert(!comparable(messages, cfg, p, text));
        }
    }
}

/// The bits, counted from the lowest, that are set in one of two numbers and not in the other.
pub open spec fn unlike_bits(a: u64, b: u64, n: nat) -> Set<int> {
    Set::new(
        |k: int| 0 <= k < n && ((a >> (k as u64)) & 1 == 1) != ((b >> (k as u64)) & 1 == 1),
    )
}

proof fn lemma_unlike(a: u64, b: u64, n: nat)
    requires
        n <= 64,
    ensures
        unlike_bits(a, b, n).finite(),
        unlike_bits(a, b, n).len() == ones(a ^ b, n),
    decreases n,
{
    if n == 0 {
        assert(unlike_bits(a, b, 0) =~= Set::empty());
    } else {
        lemma_unlike(a, b, (n - 1) as nat);
        let k = (n - 1) as u64;
        assert(((a ^ b) >> k) & 1 == 1 <==> ((a >> k) & 1 == 1) != ((b >> k) & 1 == 1)) by (bit_vector)
            requires
                k < 64,
        ;
        let less = unlike_bits(a, b, (n - 1) as nat);
        if bit(a ^ b, k) {
            assert(unlike_bits(a, b, n) =~= less.insert(n - 1));
            assert(!less.contains(n - 1));
        } else {
            assert(unlike_bits(a, b, n) =~= less);
        }
    }
}

/// The distance of two numbers is how many of their 64 bits are not the same.
pub proof fn law_distance(a: u64, b: u64)
    ensures
        distance(a, b) == unlike_bits(a, b, 64).len(),
{
    lemma_unlike(a, b, 64);
}

/// The hash of bytes starts from a fixed number; each byte is mixed in, and the whole multiplied.
pub proof fn law_fnv(bytes: Seq<u8>, next: u8)
    ensures
        fnv(Seq::empty()) == 0xcbf29ce484222325,
        fnv(bytes.push(next)) == (fnv(bytes) ^ (next as u64)).wrapping_mul(0x100000001b3),
{
    assert(bytes.push(next).drop_last() =~= bytes);
}

/// Each token counts once for or against a bit, by its own hash over all its bytes.
pub proof fn law_balance(all: Seq<Seq<char>>, token: Seq<char>, b: u64)
    ensures
        balance(Seq::empty(), b) == 0,
        balance(all.push(token), b) == balance(all, b) + if (fnv(encode_utf8(token)) >> b) & 1 == 1 {
            1int
        } else {
            -1int
        },
{
    assert(all.push(token).drop_last() =~= all);
}

proof fn lemma_one_run(s: Seq<char>)
    requires
        forall|k: int| 0 <= k < s.len() ==> alphanumeric(#[trigger] s[k]),
    ensures
        token_runs(s) == (Seq::<Seq<char>>::empty(), s),
    decreases s.len(),
{
    if s.len() > 0 {
        let init = s.drop_last();
        assert forall|k: int| 0 <= k < init.len() implies alphanumeric(#[trigger] init[k]) by {
            assert(init[k] == s[k]);
        }
        lemma_one_run(init);
        assert(alphanumeric(s[s.len() - 1]));
        assert(init.push(s.last()) =~= s);
    } else {
        assert(s =~= Seq::<char>::empty());
    }
}

/// A text of nothing but letters and numbers is one token, and an empty text none. Of ASCII, the
/// letters in both cases and the digits are letters and numbers, and nothing else.
pub proof fn law_token(s: Seq<char>, c: char)
    ensures
        s.len() > 0 && (forall|k: int| 0 <= k < s.len() ==> alphanumeric(#[trigger] s[k]))
            ==> tokens(s) == seq![s],
        tokens(Seq::empty()) == Seq::<Seq<char>>::empty(),
        c <= '\x7f' ==> (alphanumeric(c) <==> 'a' <= c <= 'z' || 'A' <= c <= 'Z' || '0' <= c <= '9'),
{
    if s.len() > 0 && forall|k: int| 0 <= k < s.len() ==> alphanumeric(#[trigger] s[k]) {
        lemma_one_run(s);
        assert(tokens(s) =~= seq![s]);
    }
}

} // verus!
