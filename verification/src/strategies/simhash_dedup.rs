//! Collapses old results that are nearly the same as a later one.

use super::{
    already_cleared, assistant_cutoff, block_with, cutoff, elision_marker, has_role,
    is_already_cleared, is_old, marker, member_or_null, old_at, opt_int, serialized_len, text_len,
    transcript_len, value_len, Stats,
};
use crate::config::{covered, matches_any, SimHashDedupConfig};
use crate::json::{lemma_views, views, Json, JsonView};
use crate::pairing::{
    block_at, get_block, has_type, lemma_describes_paired, paired, refused, use_positions,
    PairingError, PairingIndex,
};
use crate::rewrite::{
    count_changes, law_no_larger, law_pairing_kept, lemma_only_sets_keeps_ids, machine, only_sets,
    plan, rewrite, BlockRule, Rule,
};
use crate::sites::{find_position, find_sites, ints, lemma_sites, sites, BlockTest};
use crate::size::{lemma_with_no_larger, size};
use crate::text::{begins, is_ascii, lemma_texts_push, starts_with, texts};
use vstd::prelude::*;
use vstd::utf8::encode_utf8;

verus! {

/// What `char::is_alphanumeric` says of a character that is not of ASCII.
pub uninterp spec fn wide_alphanumeric(c: char) -> bool;

/// Whether a character is a letter or a number.
pub open spec fn alphanumeric(c: char) -> bool {
    if is_ascii(c) {
        'a' <= c <= 'z' || 'A' <= c <= 'Z' || '0' <= c <= '9'
    } else {
        wide_alphanumeric(c)
    }
}

/// `char::is_alphanumeric`: whether a character is a letter or a number, by the Unicode tables of
/// std. Of ASCII, those are the letters and the digits. Which others are is not stated; it depends
/// on the character alone.
pub assume_specification[ char::is_alphanumeric ](c: char) -> (r: bool)
    ensures
        is_ascii(c) ==> r == ('a' <= c <= 'z' || 'A' <= c <= 'Z' || '0' <= c <= '9'),
        !is_ascii(c) ==> r == wide_alphanumeric(c),
;

/// The starting value of the token hash.
pub const FNV_OFFSET: u64 = 14695981039346656037;

/// The multiplier of the token hash.
pub const FNV_PRIME: u64 = 1099511628211;

/// The FNV-1a hash of some bytes.
pub open spec fn fnv(bytes: Seq<u8>) -> u64
    decreases bytes.len(),
{
    if bytes.len() == 0 {
        FNV_OFFSET
    } else {
        (fnv(bytes.drop_last()) ^ (bytes.last() as u64)).wrapping_mul(FNV_PRIME)
    }
}

/// The FNV-1a hash of some bytes.
pub fn fnv1a_64(bytes: &[u8]) -> (r: u64)
    ensures
        r == fnv(bytes@),
{
    let mut h: u64 = FNV_OFFSET;
    let mut i: usize = 0;
    assert(bytes@.take(0) =~= Seq::empty());
    while i < bytes.len()
        invariant
            i <= bytes@.len(),
            h == fnv(bytes@.take(i as int)),
        decreases bytes@.len() - i,
    {
        assert(bytes@.take(i + 1).drop_last() =~= bytes@.take(i as int));
        assert(bytes@.take(i + 1).last() == bytes@[i as int]);
        h = (h ^ (bytes[i] as u64)).wrapping_mul(FNV_PRIME);
        i = i + 1;
    }
    assert(bytes@.take(i as int) =~= bytes@);
    h
}

/// The tokens of a text, and the run of letters and numbers that it ends with: a token is such a
/// run with something else behind it.
pub open spec fn token_runs(s: Seq<char>) -> (Seq<Seq<char>>, Seq<char>)
    decreases s.len(),
{
    if s.len() == 0 {
        (Seq::empty(), Seq::empty())
    } else {
        let (done, run) = token_runs(s.drop_last());
        if alphanumeric(s.last()) {
            (done, run.push(s.last()))
        } else if run.len() > 0 {
            (done.push(run), Seq::empty())
        } else {
            (done, run)
        }
    }
}

/// The tokens of a text: its longest runs of letters and numbers.
pub open spec fn tokens(s: Seq<char>) -> Seq<Seq<char>> {
    let (done, run) = token_runs(s);
    if run.len() > 0 {
        done.push(run)
    } else {
        done
    }
}

/// The tokens of a text, each as often as it occurs.
pub fn tokenize(text: &str) -> (r: Vec<String>)
    ensures
        texts(r@) == tokens(text@),
{
    let mut done: Vec<String> = Vec::new();
    let mut run = String::new();
    assert(texts(done@) =~= Seq::empty());
    assert(text@.take(0) =~= Seq::empty());
    for c in it: text.chars()
        invariant
            it.seq() == text@,
            (texts(done@), run@) == token_runs(text@.take(it.index() as int)),
    {
        let ghost n = it.index() as int;
        assert(text@.take(n + 1).drop_last() =~= text@.take(n));
        assert(text@.take(n + 1).last() == c);
        if c.is_alphanumeric() {
            run.push(c);
        } else if !run.as_str().is_empty() {
            proof {
                lemma_texts_push(done@, run);
            }
            done.push(run);
            run = String::new();
        }
        assert((texts(done@), run@) == token_runs(text@.take(n + 1)));
    }
    assert(text@.take(text@.len() as int) =~= text@);
    if !run.as_str().is_empty() {
        proof {
            lemma_texts_push(done@, run);
        }
        done.push(run);
    }
    done
}

/// Whether bit `b` of a number is set.
pub open spec fn bit(x: u64, b: u64) -> bool {
    (x >> b) & 1 == 1
}

/// How far the tokens whose hash has bit `b` outnumber the others.
pub open spec fn balance(all: Seq<Seq<char>>, b: u64) -> int
    decreases all.len(),
{
    if all.len() == 0 {
        0
    } else {
        balance(all.drop_last(), b) + if bit(fnv(encode_utf8(all.last())), b) {
            1int
        } else {
            -1int
        }
    }
}

/// The number with those of the lowest `n` bits set of which most tokens have the bit.
pub open spec fn majority(all: Seq<Seq<char>>, n: nat) -> u64
    decreases n,
{
    if n == 0 {
        0
    } else {
        let b = (n - 1) as u64;
        majority(all, (n - 1) as nat) | if balance(all, b) > 0 {
            1u64 << b
        } else {
            0
        }
    }
}

/// The similarity hash of a text.
pub open spec fn simhash_of(s: Seq<char>) -> u64 {
    majority(tokens(s), 64)
}

fn balance_of(hashes: &Vec<u64>, b: u64, Ghost(all): Ghost<Seq<Seq<char>>>) -> (r: bool)
    requires
        b < 64,
        hashes@.len() == all.len(),
        forall|i: int| 0 <= i < all.len() ==> #[trigger] hashes@[i] == fnv(encode_utf8(all[i])),
    ensures
        r == (balance(all, b) > 0),
{
    let mut sum: i128 = 0;
    let mut i: usize = 0;
    assert(all.take(0) =~= Seq::empty());
    while i < hashes.len()
        invariant
            i <= hashes@.len(),
            b < 64,
            hashes@.len() == all.len(),
            forall|i: int| 0 <= i < all.len() ==> #[trigger] hashes@[i] == fnv(encode_utf8(all[i])),
            sum == balance(all.take(i as int), b),
            -(i as int) <= sum <= i,
        decreases hashes@.len() - i,
    {
        assert(all.take(i + 1).drop_last() =~= all.take(i as int));
        assert(all.take(i + 1).last() == all[i as int]);
        if (hashes[i] >> b) & 1 == 1 {
            sum = sum + 1;
        } else {
            sum = sum - 1;
        }
        i = i + 1;
    }
    assert(all.take(i as int) =~= all);
    sum > 0
}

/// The similarity hash of a text: bit `b` is set where more tokens have it in their hash than not.
pub fn simhash(text: &str) -> (r: u64)
    ensures
        r == simhash_of(text@),
{
    let words = tokenize(text);
    let ghost all = tokens(text@);
    let mut hashes: Vec<u64> = Vec::new();
    let mut i: usize = 0;
    while i < words.len()
        invariant
            i <= words@.len(),
            texts(words@) == all,
            hashes@.len() == i,
            forall|k: int| 0 <= k < i ==> #[trigger] hashes@[k] == fnv(encode_utf8(all[k])),
        decreases words@.len() - i,
    {
        assert(all[i as int] == words@[i as int]@);
        hashes.push(fnv1a_64(words[i].as_str().as_bytes()));
        i = i + 1;
    }
    let mut r: u64 = 0;
    let mut b: u64 = 0;
    while b < 64
        invariant
            b <= 64,
            hashes@.len() == all.len(),
            forall|k: int| 0 <= k < all.len() ==> #[trigger] hashes@[k] == fnv(encode_utf8(all[k])),
            r == majority(all, b as nat),
        decreases 64 - b,
    {
        if balance_of(&hashes, b, Ghost(all)) {
            r = r | (1u64 << b);
        } else {
            r = r | 0;
        }
        b = b + 1;
    }
    r
}

proof fn lemma_majority(all: Seq<Seq<char>>, n: nat, b: u64)
    requires
        n <= 64,
        b < 64,
    ensures
        bit(majority(all, n), b) <==> b < n && balance(all, b) > 0,
    decreases n,
{
    if n == 0 {
        assert((0u64 >> b) & 1 != 1) by (bit_vector)
            requires
                b < 64,
        ;
    } else {
        let k = (n - 1) as u64;
        lemma_majority(all, (n - 1) as nat, b);
        let x = majority(all, (n - 1) as nat);
        assert(((x | (1u64 << k)) >> b) & 1 == 1 <==> ((x >> b) & 1 == 1 || b == k)) by (bit_vector)
            requires
                b < 64,
                k < 64,
        ;
        assert(x | 0 == x) by (bit_vector);
    }
}

/// Each bit of the similarity hash is set exactly where more tokens have it in their hash than
/// not.
pub proof fn law_simhash_bit(s: Seq<char>, b: u64)
    requires
        b < 64,
    ensures
        bit(simhash_of(s), b) <==> balance(tokens(s), b) > 0,
{
    lemma_majority(tokens(s), 64, b);
}

/// What a token adds to the balance of a bit.
spec fn vote(token: Seq<char>, b: u64) -> int {
    if bit(fnv(encode_utf8(token)), b) {
        1
    } else {
        -1
    }
}

proof fn lemma_balance_concat(x: Seq<Seq<char>>, y: Seq<Seq<char>>, b: u64)
    ensures
        balance(x + y, b) == balance(x, b) + balance(y, b),
    decreases y.len(),
{
    if y.len() == 0 {
        assert(x + y =~= x);
    } else {
        lemma_balance_concat(x, y.drop_last(), b);
        assert((x + y).drop_last() =~= x + y.drop_last());
    }
}

proof fn lemma_balance_remove(x: Seq<Seq<char>>, i: int, b: u64)
    requires
        0 <= i < x.len(),
    ensures
        balance(x, b) == balance(x.remove(i), b) + vote(x[i], b),
    decreases x.len(),
{
    let init = x.drop_last();
    if i == x.len() - 1 {
        assert(x.remove(i) =~= init);
    } else {
        lemma_balance_remove(init, i, b);
        assert(x.remove(i).drop_last() =~= init.remove(i));
        assert(x.remove(i).last() == x.last());
    }
}

proof fn lemma_balance_counts(x: Seq<Seq<char>>, y: Seq<Seq<char>>, b: u64)
    requires
        x.to_multiset() == y.to_multiset(),
    ensures
        balance(x, b) == balance(y, b),
    decreases x.len(),
{
    x.to_multiset_ensures();
    y.to_multiset_ensures();
    assert(x.len() == y.len());
    if x.len() > 0 {
        let n = x.len() - 1;
        let t = x[n];
        assert(x.contains(t));
        assert(y.to_multiset().count(t) > 0);
        let j = choose|j: int| 0 <= j < y.len() && y[j] == t;
        assert(x.remove(n).to_multiset() == y.remove(j).to_multiset());
        lemma_balance_counts(x.remove(n), y.remove(j), b);
        lemma_balance_remove(x, n, b);
        lemma_balance_remove(y, j, b);
    }
}

proof fn lemma_majority_same(x: Seq<Seq<char>>, y: Seq<Seq<char>>, n: nat)
    requires
        n <= 64,
        forall|b: u64| b < 64 ==> (#[trigger] balance(x, b) > 0 <==> balance(y, b) > 0),
    ensures
        majority(x, n) == majority(y, n),
    decreases n,
{
    if n > 0 {
        lemma_majority_same(x, y, (n - 1) as nat);
        assert(balance(x, (n - 1) as u64) > 0 <==> balance(y, (n - 1) as u64) > 0);
    }
}

/// The similarity hash depends only on which tokens a text has and how often it has each: neither
/// their order nor what stands between them counts.
pub proof fn law_simhash_of_counts(a: Seq<char>, b: Seq<char>)
    requires
        tokens(a).to_multiset() == tokens(b).to_multiset(),
    ensures
        simhash_of(a) == simhash_of(b),
{
    assert forall|k: u64| k < 64 implies (#[trigger] balance(tokens(a), k) > 0 <==> balance(
        tokens(b),
        k,
    ) > 0) by {
        lemma_balance_counts(tokens(a), tokens(b), k);
    }
    lemma_majority_same(tokens(a), tokens(b), 64);
}

proof fn lemma_runs_join(a: Seq<char>, c: char, b: Seq<char>)
    requires
        !alphanumeric(c),
    ensures
        token_runs(a.push(c) + b) == (tokens(a) + token_runs(b).0, token_runs(b).1),
    decreases b.len(),
{
    let all = a.push(c) + b;
    if b.len() == 0 {
        assert(all =~= a.push(c));
        assert(all.drop_last() =~= a);
        assert(tokens(a) + token_runs(b).0 =~= tokens(a));
        assert(token_runs(all).1 =~= Seq::empty());
    } else {
        lemma_runs_join(a, c, b.drop_last());
        assert(all.drop_last() =~= a.push(c) + b.drop_last());
        let (done, run) = token_runs(b.drop_last());
        assert(tokens(a) + done.push(run) =~= (tokens(a) + done).push(run));
    }
}

/// The tokens of two texts with something else than a letter or a number between them are the
/// tokens of both.
pub proof fn law_tokens_add_up(a: Seq<char>, c: char, b: Seq<char>)
    requires
        !alphanumeric(c),
    ensures
        tokens(a.push(c) + b) == tokens(a) + tokens(b),
{
    lemma_runs_join(a, c, b);
    let (done, run) = token_runs(b);
    assert(tokens(a) + done.push(run) =~= (tokens(a) + done).push(run));
}

/// A text that comes twice, with something else than a letter or a number between, has the hash of
/// the text.
pub proof fn law_simhash_of_double(a: Seq<char>, c: char)
    requires
        !alphanumeric(c),
    ensures
        simhash_of(a.push(c) + a) == simhash_of(a),
{
    law_tokens_add_up(a, c, a);
    let twice = tokens(a) + tokens(a);
    assert forall|k: u64| k < 64 implies (#[trigger] balance(twice, k) > 0 <==> balance(
        tokens(a),
        k,
    ) > 0) by {
        lemma_balance_concat(tokens(a), tokens(a), k);
    }
    lemma_majority_same(twice, tokens(a), 64);
}

/// How many of the lowest `n` bits of a number are set.
pub open spec fn ones(x: u64, n: nat) -> nat
    decreases n,
{
    if n == 0 {
        0
    } else {
        ones(x, (n - 1) as nat) + if bit(x, (n - 1) as u64) {
            1nat
        } else {
            0nat
        }
    }
}

/// In how many bits two numbers differ.
pub open spec fn distance(a: u64, b: u64) -> nat {
    ones(a ^ b, 64)
}

/// In how many bits two numbers differ.
pub fn hamming(a: u64, b: u64) -> (r: u32)
    ensures
        r == distance(a, b),
        r <= 64,
{
    let x: u64 = a ^ b;
    let mut n: u32 = 0;
    let mut i: u64 = 0;
    while i < 64
        invariant
            i <= 64,
            n <= i,
            x == a ^ b,
            n == ones(x, i as nat),
        decreases 64 - i,
    {
        if (x >> i) & 1 == 1 {
            n = n + 1;
        }
        i = i + 1;
    }
    n
}

/// The tool whose call a result answers.
pub open spec fn tool_of(messages: Seq<JsonView>, block: JsonView) -> Option<Seq<char>> {
    let id = match block.get_str("tool_use_id"@) {
        Some(id) => id,
        None => Seq::empty(),
    };
    if use_positions(messages).contains_key(id) {
        let p = use_positions(messages)[id];
        match block_at(messages, p.0, p.1) {
            Some(call) => call.get_str("name"@),
            None => None,
        }
    } else {
        None
    }
}

/// Whether a result is flagged as an error.
pub open spec fn flagged(block: JsonView) -> bool {
    block.get("is_error"@) == Some(JsonView::Bool(true))
}

/// Whether a block is a result that is compared: given by the user, by a tool that is not exempt,
/// without an error, and a text of some size that bears no marker.
pub open spec fn compared(
    messages: Seq<JsonView>,
    cfg: &SimHashDedupConfig,
    mi: int,
    ci: int,
    block: JsonView,
) -> bool {
    let content = member_or_null(block, "content"@);
    &&& 0 <= mi < messages.len()
    &&& has_role(messages[mi], "user"@)
    &&& has_type(block, "tool_result"@)
    &&& !(tool_of(messages, block) matches Some(name) && covered(cfg.exempt_tools@, name))
    &&& !flagged(block)
    &&& content.as_str() matches Some(s) && !begins(s, "[trimwire: "@)
    &&& !already_cleared(content)
    &&& text_len(content) >= cfg.min_bytes
}

/// The results that are compared, in order.
pub open spec fn candidates(messages: Seq<JsonView>, cfg: &SimHashDedupConfig) -> Seq<(int, int)> {
    sites(messages, |mi: int, ci: int, b: JsonView| compared(messages, cfg, mi, ci, b))
}

/// The similarity hash of the result at a position.
pub open spec fn hash_at(messages: Seq<JsonView>, p: (int, int)) -> u64 {
    match block_at(messages, p.0, p.1) {
        Some(b) => match b.get_str("content"@) {
            Some(s) => simhash_of(s),
            None => 0,
        },
        None => 0,
    }
}

/// Whether a later result is nearly the same.
pub open spec fn near_later(
    messages: Seq<JsonView>,
    cfg: &SimHashDedupConfig,
    p: (int, int),
) -> bool {
    let s = candidates(messages, cfg);
    exists|i: int, j: int|
        0 <= i < j < s.len() && #[trigger] s[i] == p && distance(
            hash_at(messages, p),
            hash_at(messages, #[trigger] s[j]),
        ) <= cfg.hamming_threshold
}

/// What becomes of a block: a marker takes the place of an old result that a later one is nearly
/// the same as, if it is smaller.
pub open spec fn near_edit(
    messages: Seq<JsonView>,
    cfg: &SimHashDedupConfig,
    mi: int,
    ci: int,
    block: JsonView,
) -> Option<JsonView> {
    let content = member_or_null(block, "content"@);
    let new = marker(cfg.stub@, content);
    if is_old(cutoff(messages, cfg.keep_recent_turns as nat), mi) && compared(
        messages,
        cfg,
        mi,
        ci,
        block,
    ) && near_later(messages, cfg, (mi, ci)) && text_len(new) < text_len(content) {
        Some(block.with("content"@, new))
    } else {
        None
    }
}

/// The collapse as a rule on blocks.
pub open spec fn near_rule(messages: Seq<JsonView>, cfg: &SimHashDedupConfig) -> Rule {
    |mi: int, ci: int, b: JsonView| near_edit(messages, cfg, mi, ci, b)
}

struct ComparedTest<'a> {
    messages: &'a Vec<Json>,
    index: &'a PairingIndex,
    cfg: &'a SimHashDedupConfig,
}

/// The tool whose call a result answers.
fn tool_name<'a>(messages: &'a Vec<Json>, index: &PairingIndex, block: &Json) -> (r: Option<&'a str>)
    requires
        index.describes(views(messages@)),
    ensures
        crate::json::opt_text(r) == tool_of(views(messages@), block@),
{
    let id = match block.get_str("tool_use_id") {
        Some(id) => id,
        None => "",
    };
    proof {
        reveal_strlit("");
        assert(""@ =~= Seq::empty());
    }
    match index.use_at(id) {
        Some(p) => match get_block(messages, p.0, p.1) {
            Some(call) => call.get_str("name"),
            None => None,
        },
        None => None,
    }
}

/// Whether a result is flagged as an error.
pub fn is_flagged(block: &Json) -> (r: bool)
    ensures
        r == flagged(block@),
{
    match block.get("is_error") {
        Some(Json::Bool(b)) => *b,
        _ => false,
    }
}

impl<'a> BlockTest for ComparedTest<'a> {
    closed spec fn ready(&self) -> bool {
        self.index.describes(views(self.messages@))
    }

    closed spec fn holds(&self, mi: int, ci: int, block: JsonView) -> bool {
        compared(views(self.messages@), self.cfg, mi, ci, block)
    }

    fn test(&self, mi: usize, ci: usize, block: &Json) -> (r: bool) {
        proof {
            lemma_views(self.messages@);
        }
        if mi >= self.messages.len() || !self.messages[mi].member_is("role", "user")
            || !block.member_is("type", "tool_result") {
            return false;
        }
        if let Some(name) = tool_name(self.messages, self.index, block) {
            if matches_any(&self.cfg.exempt_tools, name) {
                return false;
            }
        }
        if is_flagged(block) {
            return false;
        }
        match block.get("content") {
            Some(content) => match content.as_str() {
                Some(s) => !starts_with(s, "[trimwire: ") && !is_already_cleared(content)
                    && value_len(content) >= self.cfg.min_bytes,
                None => false,
            },
            None => false,
        }
    }
}

struct Collapse<'a> {
    messages: &'a Vec<Json>,
    index: &'a PairingIndex,
    cfg: &'a SimHashDedupConfig,
    cut: Option<usize>,
    sites: Vec<(usize, usize)>,
    hashes: Vec<u64>,
}

impl<'a> BlockRule for Collapse<'a> {
    closed spec fn ready(&self) -> bool {
        let all = views(self.messages@);
        let s = candidates(all, self.cfg);
        &&& self.index.describes(all)
        &&& opt_int(self.cut) == cutoff(all, self.cfg.keep_recent_turns as nat)
        &&& ints(self.sites@) == s
        &&& self.hashes@.len() == s.len()
        &&& forall|i: int| 0 <= i < s.len() ==> #[trigger] self.hashes@[i] == hash_at(all, s[i])
    }

    closed spec fn rule(&self, mi: int, ci: int, block: JsonView) -> Option<JsonView> {
        near_edit(views(self.messages@), self.cfg, mi, ci, block)
    }

    fn decide(&self, mi: usize, ci: usize, block: &Json) -> (r: Option<Json>) {
        let ghost all = views(self.messages@);
        let ghost s = candidates(all, self.cfg);
        let ghost p = (mi as int, ci as int);
        proof {
            lemma_sites(all, |mi: int, ci: int, b: JsonView| compared(all, self.cfg, mi, ci, b));
            assert forall|k: int| 0 <= k < s.len() implies s[k] == (
                self.sites@[k].0 as int,
                self.sites@[k].1 as int,
            ) by {
                assert(ints(self.sites@)[k] == s[k]);
            }
        }
        let test = ComparedTest { messages: self.messages, index: self.index, cfg: self.cfg };
        if !old_at(self.cut, mi) || !test.test(mi, ci, block) {
            return None;
        }
        let i: usize = match find_position(&self.sites, (mi, ci)) {
            Some(i) => i,
            None => return None,
        };
        let n: usize = self.sites.len();
        let mut near: bool = false;
        let mut j: usize = i + 1;
        while j < n && !near
            invariant
                i < j <= n,
                n == s.len(),
                n == self.hashes@.len(),
                s[i as int] == p,
                s == candidates(all, self.cfg),
                forall|k: int| 0 <= k < s.len() ==> #[trigger] self.hashes@[k] == hash_at(all, s[k]),
                near ==> near_later(all, self.cfg, p),
                !near ==> forall|k: int|
                    i < k < j ==> distance(hash_at(all, p), hash_at(all, #[trigger] s[k]))
                        > self.cfg.hamming_threshold,
            decreases n - j,
        {
            assert(self.hashes@[i as int] == hash_at(all, s[i as int]));
            assert(self.hashes@[j as int] == hash_at(all, s[j as int]));
            if hamming(self.hashes[i], self.hashes[j]) <= self.cfg.hamming_threshold {
                near = true;
            }
            j = j + 1;
        }
        if !near {
            proof {
                assert forall|a: int, b: int| 0 <= a < b < s.len() && #[trigger] s[a] == p implies distance(
                    hash_at(all, p),
                    hash_at(all, #[trigger] s[b]),
                ) > self.cfg.hamming_threshold by {
                    if a < i {
                        assert(crate::sites::before(s[a], s[i as int]));
                    } else if a > i {
                        assert(crate::sites::before(s[i as int], s[a]));
                    }
                }
            }
            return None;
        }
        let content = super::copy_member(block, "content");
        let new = elision_marker(&self.cfg.stub, &content);
        if value_len(&new) < value_len(&content) {
            Some(block_with(block, "content", new))
        } else {
            None
        }
    }
}

/// Collapses the near-duplicates of a transcript and says how many were collapsed.
pub fn apply_counted(messages: &mut Vec<Json>, cfg: &SimHashDedupConfig) -> (r: Result<
    usize,
    PairingError,
>)
    ensures
        ({
            let before = views(old(messages)@);
            let after = views(final(messages)@);
            match r {
                Ok(n) => paired(before) && after == rewrite(before, near_rule(before, cfg)) && n
                    == machine(count_changes(before, near_rule(before, cfg))),
                Err(e) => refused(before, e) && after == before,
            }
        }),
{
    let ghost all = views(messages@);
    let index = PairingIndex::build(messages);
    proof {
        lemma_describes_paired(index, all);
    }
    index.validate()?;
    let ghost rule = near_rule(all, cfg);
    let plan = {
        let test = ComparedTest { messages, index: &index, cfg };
        let sites = find_sites(messages, &test);
        proof {
            assert((|mi: int, ci: int, b: JsonView| test.holds(mi, ci, b)) =~= (|
                mi: int,
                ci: int,
                b: JsonView,
            | compared(all, cfg, mi, ci, b)));
        }
        let ghost s = candidates(all, cfg);
        let mut hashes: Vec<u64> = Vec::new();
        let mut i: usize = 0;
        while i < sites.len()
            invariant
                i <= sites@.len(),
                all == views(messages@),
                ints(sites@) == s,
                hashes@.len() == i,
                forall|k: int| 0 <= k < i ==> #[trigger] hashes@[k] == hash_at(all, s[k]),
            decreases sites@.len() - i,
        {
            let p = sites[i];
            assert(s[i as int] == (p.0 as int, p.1 as int));
            let h: u64 = match get_block(messages, p.0, p.1) {
                Some(b) => match b.get_str("content") {
                    Some(text) => simhash(text),
                    None => 0,
                },
                None => 0,
            };
            hashes.push(h);
            i = i + 1;
        }
        let collapse = Collapse {
            messages,
            index: &index,
            cfg,
            cut: assistant_cutoff(messages, cfg.keep_recent_turns),
            sites,
            hashes,
        };
        assert(rule =~= |mi: int, ci: int, b: JsonView| collapse.rule(mi, ci, b));
        plan(messages, &collapse)
    };
    Ok(plan.carry_out(messages, Ghost(rule)))
}

/// Collapses the near-duplicates of a transcript.
pub fn apply(messages: &mut Vec<Json>, cfg: &SimHashDedupConfig) -> (r: Result<Stats, PairingError>)
    ensures
        ({
            let before = views(old(messages)@);
            let after = views(final(messages)@);
            match r {
                Ok(stats) => paired(before) && after == rewrite(before, near_rule(before, cfg))
                    && stats.stubbed == machine(count_changes(before, near_rule(before, cfg)))
                    && stats.original_bytes == transcript_len(before) && stats.final_bytes
                    == transcript_len(after) && stats.final_bytes <= stats.original_bytes,
                Err(e) => refused(before, e) && after == before,
            }
        }),
{
    let original_bytes: usize = serialized_len(messages);
    let ghost before = views(messages@);
    let stubbed: usize = apply_counted(messages, cfg)?;
    let final_bytes: usize = serialized_len(messages);
    proof {
        law_near_never_grows(before, cfg);
    }
    Ok(Stats { stubbed, original_bytes, final_bytes })
}

/// The collapse sets nothing but the content of tool results, and cannot part a result from its
/// call.
pub proof fn law_simhash_dedup_scope(messages: Seq<JsonView>, cfg: &SimHashDedupConfig)
    ensures
        only_sets(near_rule(messages, cfg), "tool_result"@, "content"@),
        paired(rewrite(messages, near_rule(messages, cfg))) <==> paired(messages),
{
    let rule = near_rule(messages, cfg);
    lemma_only_sets_keeps_ids(rule, "tool_result"@, "content"@);
    law_pairing_kept(messages, rule);
}

/// The collapse never makes a transcript larger.
pub proof fn law_near_never_grows(messages: Seq<JsonView>, cfg: &SimHashDedupConfig)
    ensures
        transcript_len(rewrite(messages, near_rule(messages, cfg))) <= transcript_len(messages),
{
    let rule = near_rule(messages, cfg);
    assert forall|mi: int, ci: int, b: JsonView| (#[trigger] rule(mi, ci, b)) is Some implies size(
        rule(mi, ci, b)->0,
    ) <= size(b) by {
        let new = near_edit(messages, cfg, mi, ci, b)->0;
        lemma_with_no_larger(b, "content"@, new.get("content"@)->0);
    }
    law_no_larger(messages, rule);
}

} // verus!
