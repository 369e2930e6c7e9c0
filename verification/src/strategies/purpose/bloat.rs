//! The cap on oversized results: what stays of one, and above all the lines that speak of failure.

use super::{cleared, law_marker, law_old, law_terms, left_of, opens_with, turns_from};
use crate::config::{covered, BloatCapConfig};
use crate::json::JsonView;
use crate::pairing::{block_at, paired_use};
use crate::pairing_laws::{call_at, law_paired_use};
use crate::rewrite::{lemma_block_at, rewrite};
use crate::size::size;
use crate::strategies::bloat_cap::{
    any_text, any_trimmed, bloat_rule, cap_array, cap_item, cap_items, cap_text, exempt, is_signal,
    item_trim, salvage, shortened, trim_middle, trimmed,
};
use crate::text::{decimal, lemma_fit_prefix, lemma_fit_suffix, lines, utf8_len};
use crate::text_laws::{
    holds_word, holds_word_in_any_case, law_begins, law_occurs_in_any_case, word_from,
};
use vstd::prelude::*;

verus! {

/// Whether a line holds one of the words that speak of failure, in any case of letters.
pub open spec fn speaks_of_failure(line: Seq<char>) -> bool {
    ||| holds_word_in_any_case(line, "error"@)
    ||| holds_word_in_any_case(line, "warning"@)
    ||| holds_word_in_any_case(line, "fail"@)
    ||| holds_word_in_any_case(line, "panic"@)
    ||| holds_word_in_any_case(line, "exception"@)
}

/// A line is a signal exactly where `error`, `warning`, `fail`, `panic` or `exception` stands in it,
/// in any case of letters.
pub proof fn law_is_signal(line: Seq<char>)
    ensures
        is_signal(line) <==> speaks_of_failure(line),
{
    reveal_strlit("error");
    reveal_strlit("warning");
    reveal_strlit("fail");
    reveal_strlit("panic");
    reveal_strlit("exception");
    law_occurs_in_any_case(line, "error"@);
    law_occurs_in_any_case(line, "warning"@);
    law_occurs_in_any_case(line, "fail"@);
    law_occurs_in_any_case(line, "panic"@);
    law_occurs_in_any_case(line, "exception"@);
}

/// Those of some lines that speak of failure, in order.
pub open spec fn failures(all: Seq<Seq<char>>) -> Seq<Seq<char>> {
    all.filter(|line: Seq<char>| speaks_of_failure(line))
}

/// Some lines, each with a line feed behind it.
pub open spec fn with_feeds(all: Seq<Seq<char>>) -> Seq<char>
    decreases all.len(),
{
    if all.len() == 0 {
        Seq::empty()
    } else {
        (with_feeds(all.drop_last()) + all.last()).push('\n')
    }
}

/// Whether the first `n` of some lines are as many as are kept: all, or twelve, or as many as it
/// takes to come to 2048 bytes.
pub open spec fn enough(all: Seq<Seq<char>>, n: int) -> bool {
    &&& 0 <= n <= all.len()
    &&& n <= 12
    &&& forall|k: int| 0 <= k < n ==> utf8_len(with_feeds(#[trigger] all.take(k))) < 2048
    &&& n == all.len() || n == 12 || utf8_len(with_feeds(all.take(n))) >= 2048
}

proof fn lemma_enough_once(all: Seq<Seq<char>>, n: int, m: int)
    requires
        enough(all, n),
        enough(all, m),
    ensures
        n == m,
{
    if n < m {
        assert(utf8_len(with_feeds(all.take(n))) < 2048);
    }
    if m < n {
        assert(utf8_len(with_feeds(all.take(m))) < 2048);
    }
}

/// What is salvaged from some lines is the first of those that speak of failure, as many as are
/// kept, each with a line feed, and nothing else.
pub proof fn law_salvage(all: Seq<Seq<char>>)
    ensures
        enough(failures(all), salvage(all).1 as int),
        salvage(all).0 == with_feeds(failures(all).take(salvage(all).1 as int)),
    decreases all.len(),
{
    reveal(Seq::filter);
    let f = failures(all);
    if all.len() == 0 {
        assert(f =~= Seq::empty());
        assert(f.take(0) =~= Seq::empty());
    } else {
        let init = all.drop_last();
        let g = failures(init);
        let (kept, n) = salvage(init);
        law_salvage(init);
        law_is_signal(all.last());
        if speaks_of_failure(all.last()) {
            assert(f == g.push(all.last()));
        } else {
            assert(f == g);
        }
        assert forall|k: int| 0 <= k <= g.len() implies #[trigger] f.take(k) == g.take(k) by {
            assert(f.take(k) =~= g.take(k));
        }
        if salvage(all).1 == n + 1 {
            assert(n == g.len());
            assert(g.take(n as int) =~= g);
            assert(f.take(n as int + 1) =~= f);
            assert(f.drop_last() =~= g);
            assert forall|k: int| 0 <= k < n + 1 implies utf8_len(
                with_feeds(#[trigger] f.take(k)),
            ) < 2048 by {
                assert(f.take(k) == g.take(k));
            }
        } else {
            assert(f.take(n as int) == g.take(n as int));
            assert forall|k: int| 0 <= k < n implies utf8_len(with_feeds(#[trigger] f.take(k)))
                < 2048 by {
                assert(f.take(k) == g.take(k));
            }
        }
    }
}

/// Whether `h` characters are the longest beginning of a text that takes at most `limit` bytes.
pub open spec fn longest_head(s: Seq<char>, limit: int, h: int) -> bool {
    0 <= h <= s.len() && utf8_len(s.take(h)) <= limit && (h < s.len() ==> utf8_len(s.take(h + 1))
        > limit)
}

/// Whether the longest end of a text that takes at most `limit` bytes begins at `t`.
pub open spec fn longest_tail(s: Seq<char>, limit: int, t: int) -> bool {
    0 <= t <= s.len() && utf8_len(s.skip(t)) <= limit && (t > 0 ==> utf8_len(s.skip(t - 1)) > limit)
}

/// What stands in place of a middle of which `n` lines that speak of failure are kept.
pub open spec fn note_for(middle: Seq<char>, label: Seq<char>, n: int) -> Seq<char> {
    "\n[trimwire: "@ + label + " "@ + decimal(utf8_len(middle)) + " bytes"@ + if n > 0 {
        ", kept "@ + decimal(n as nat) + " signal line(s)]\n"@ + with_feeds(
            failures(lines(middle)).take(n),
        )
    } else {
        "]\n"@
    }
}

/// A trimmed text is its longest head and its longest tail that fit, whole, with a note between
/// that says how much is gone and holds the first lines of it that speak of failure. There is none
/// where nothing lies between head and tail or it would not be smaller.
pub proof fn law_trimmed(
    s: Seq<char>,
    head: nat,
    tail: nat,
    label: Seq<char>,
    h: int,
    t: int,
    n: int,
)
    requires
        longest_head(s, head as int, h),
        longest_tail(s, tail as int, t),
        h < t ==> enough(failures(lines(s.subrange(h, t))), n),
    ensures
        trimmed(s, head, tail, label) == if h < t {
            let out = s.take(h) + note_for(s.subrange(h, t), label, n) + s.skip(t);
            if utf8_len(out) < utf8_len(s) {
                Some(out)
            } else {
                None
            }
        } else {
            None
        },
{
    lemma_fit_prefix(s, head as int, h);
    lemma_fit_suffix(s, tail as int, s.len() - t);
    if h < t {
        let middle = s.subrange(h, t);
        law_salvage(lines(middle));
        lemma_enough_once(failures(lines(middle)), n, salvage(lines(middle)).1 as int);
        let kept = with_feeds(failures(lines(middle)).take(n));
        let start = "\n[trimwire: "@ + label + " "@ + decimal(utf8_len(middle)) + " bytes"@;
        if n > 0 {
            assert(trim_middle(middle, label) =~= start + (", kept "@ + decimal(n as nat)
                + " signal line(s)]\n"@ + kept));
        } else {
            assert(trim_middle(middle, label) =~= start + "]\n"@);
        }
        assert(trim_middle(middle, label) == note_for(middle, label, n));
    }
}

proof fn lemma_filter_prefix(all: Seq<Seq<char>>, i: int)
    requires
        0 <= i < all.len(),
        speaks_of_failure(all[i]),
    ensures
        failures(all.take(i)).len() < failures(all).len(),
        failures(all)[failures(all.take(i)).len() as int] == all[i],
        failures(all).take(failures(all.take(i)).len() as int) == failures(all.take(i)),
    decreases all.len(),
{
    reveal(Seq::filter);
    let init = all.drop_last();
    let r = failures(all.take(i)).len() as int;
    if i == all.len() - 1 {
        assert(all.take(i) =~= init);
        assert(failures(all).take(r) =~= failures(init));
    } else {
        assert(init.take(i) =~= all.take(i));
        lemma_filter_prefix(init, i);
        assert(failures(all).take(r) =~= failures(init).take(r));
    }
}

proof fn lemma_feeds_hold(all: Seq<Seq<char>>, r: int)
    requires
        0 <= r < all.len(),
    ensures
        holds_word(with_feeds(all), all[r].push('\n')),
    decreases all.len(),
{
    let init = all.drop_last();
    let word = all[r].push('\n');
    if r == all.len() - 1 {
        let at = with_feeds(init).len() as int;
        assert forall|k: int| 0 <= k < word.len() implies with_feeds(all)[at + k] == #[trigger] word[k] by {}
        assert(word_from(with_feeds(all), word, at));
    } else {
        lemma_feeds_hold(init, r);
        let at = choose|at: int| #[trigger] word_from(with_feeds(init), word, at);
        assert forall|k: int| 0 <= k < word.len() implies with_feeds(all)[at + k] == #[trigger] word[k] by {
            assert(with_feeds(init)[at + k] == word[k]);
        }
        assert(word_from(with_feeds(all), word, at));
    }
}

proof fn lemma_holds_inside(a: Seq<char>, b: Seq<char>, c: Seq<char>, word: Seq<char>)
    requires
        holds_word(b, word),
    ensures
        holds_word(a + b + c, word),
{
    let at = choose|at: int| #[trigger] word_from(b, word, at);
    assert forall|k: int| 0 <= k < word.len() implies (a + b + c)[a.len() + at + k]
        == #[trigger] word[k] by {
        assert(b[at + k] == word[k]);
    }
    assert(word_from(a + b + c, word, a.len() + at));
}

/// No failure is lost in the middle: a line of what is cut out that holds `error`, `warning`,
/// `fail`, `panic` or `exception` in any case of letters stands in the trimmed text, unless twelve
/// such lines, or 2048 bytes of them, come before it.
pub proof fn law_failure_kept(
    s: Seq<char>,
    head: nat,
    tail: nat,
    label: Seq<char>,
    h: int,
    t: int,
    i: int,
)
    requires
        longest_head(s, head as int, h),
        longest_tail(s, tail as int, t),
        h < t,
        0 <= i < lines(s.subrange(h, t)).len(),
        speaks_of_failure(lines(s.subrange(h, t))[i]),
        failures(lines(s.subrange(h, t)).take(i)).len() < 12,
        utf8_len(with_feeds(failures(lines(s.subrange(h, t)).take(i)))) < 2048,
    ensures
        trimmed(s, head, tail, label) matches Some(out) ==> holds_word(
            out,
            lines(s.subrange(h, t))[i].push('\n'),
        ),
{
    let middle = s.subrange(h, t);
    let all = lines(middle);
    let f = failures(all);
    law_salvage(all);
    let n = salvage(all).1 as int;
    law_trimmed(s, head, tail, label, h, t, n);
    lemma_filter_prefix(all, i);
    let r = failures(all.take(i)).len() as int;
    assert(f.take(r) == failures(all.take(i)));
    assert(r < n) by {
        if n <= r {
            if n < r {
                lemma_feeds_grow(f, n, r);
            }
        }
    }
    let kept = f.take(n);
    assert(kept[r] == f[r]);
    lemma_feeds_hold(kept, r);
    let word = all[i].push('\n');
    let start = "\n[trimwire: "@ + label + " "@ + decimal(utf8_len(middle)) + " bytes"@;
    let front = ", kept "@ + decimal(n as nat) + " signal line(s)]\n"@;
    let none = Seq::<char>::empty();
    lemma_holds_inside(front, with_feeds(kept), none, word);
    assert(front + with_feeds(kept) + none =~= front + with_feeds(kept));
    lemma_holds_inside(start, front + with_feeds(kept), none, word);
    assert(start + (front + with_feeds(kept)) + none =~= note_for(middle, label, n));
    lemma_holds_inside(s.take(h), note_for(middle, label, n), s.skip(t), word);
}

proof fn lemma_feeds_grow(all: Seq<Seq<char>>, a: int, b: int)
    requires
        0 <= a <= b <= all.len(),
    ensures
        utf8_len(with_feeds(all.take(a))) <= utf8_len(with_feeds(all.take(b))),
    decreases b,
{
    if a < b {
        lemma_feeds_grow(all, a, b - 1);
        let x = all.take(b - 1);
        let y = all.take(b);
        assert(y.drop_last() =~= x);
        let more = y.last().push('\n');
        assert(with_feeds(y) =~= with_feeds(x) + more);
        crate::text::lemma_utf8_concat(with_feeds(x), more);
    }
}

/// How large a result may be: the threshold, or the one for recent results.
pub open spec fn most(cfg: &BloatCapConfig, recent: bool) -> nat {
    if recent {
        cfg.catastrophic_bytes as nat
    } else {
        cfg.threshold_bytes as nat
    }
}

/// How much of one end is kept: of a recent result 16384 bytes at least.
pub open spec fn ends(bytes: usize, recent: bool) -> nat {
    if recent && bytes < 16384 {
        16384
    } else {
        bytes as nat
    }
}

/// A text with its middle cut out, as an old or a recent result has it.
pub open spec fn cut_down(s: Seq<char>, cfg: &BloatCapConfig, recent: bool) -> Option<Seq<char>> {
    trimmed(
        s,
        ends(cfg.head_bytes, recent),
        ends(cfg.tail_bytes, recent),
        if recent {
            "catastrophic-cap trimmed"@
        } else {
            "trimmed"@
        },
    )
}

/// An item of an array with its text cut down where that alone is too large.
pub open spec fn item_left(item: JsonView, cfg: &BloatCapConfig, recent: bool) -> JsonView {
    match item.get("text"@) {
        Some(JsonView::String(t)) => if utf8_len(t) > most(cfg, recent) && cut_down(
            t,
            cfg,
            recent,
        ) is Some {
            item.with("text"@, JsonView::String(cut_down(t, cfg, recent)->0))
        } else {
            item
        },
        _ => item,
    }
}

/// Whether the text of an item is cut down.
pub open spec fn item_cut(item: JsonView, cfg: &BloatCapConfig, recent: bool) -> bool {
    item.get("text"@) matches Some(JsonView::String(t)) && utf8_len(t) > most(cfg, recent)
        && cut_down(t, cfg, recent) is Some
}

/// What is left of content that is too large; the content where it stays.
pub open spec fn content_left(
    content: JsonView,
    cfg: &BloatCapConfig,
    recent: bool,
    very_old: bool,
) -> JsonView {
    match content {
        JsonView::String(s) => {
            let aged = left_of(
                "[trimwire: aged-out result — re-run the tool to restore full content"@,
                content,
            );
            if opens_with(s, "[trimwire: "@) || cleared(content) || utf8_len(s) <= most(
                cfg,
                recent,
            ) {
                content
            } else if very_old {
                if size(aged) < utf8_len(s) {
                    aged
                } else {
                    content
                }
            } else {
                match cut_down(s, cfg, recent) {
                    Some(t) => if size(JsonView::String(t)) < size(content) {
                        JsonView::String(t)
                    } else {
                        content
                    },
                    None => content,
                }
            }
        },
        JsonView::Array(items) => {
            let word = "[trimwire: array content elided"@;
            let stub = left_of(word, content);
            let new = JsonView::Array(Seq::new(items.len(), |i: int| item_left(items[i], cfg, recent)));
            if (items.len() == 1 && (items[0] matches JsonView::String(s) && opens_with(s, word)))
                || cleared(content) || size(content) <= most(cfg, recent) {
                content
            } else if exists|i: int| 0 <= i < items.len() && item_cut(#[trigger] items[i], cfg, recent) {
                if size(new) < size(content) {
                    new
                } else {
                    content
                }
            } else if (exists|i: int|
                0 <= i < items.len() && ((#[trigger] items[i]).get("text"@) matches Some(
                    JsonView::String(_),
                ))) || size(stub) >= size(content) {
                content
            } else {
                stub
            }
        },
        _ => content,
    }
}

/// Whether a call is to a tool, or about a file, that is spared.
pub open spec fn spared(call: JsonView, cfg: &BloatCapConfig, recent: bool) -> bool {
    ||| call.get("name"@) matches Some(JsonView::String(name)) && (covered(cfg.exempt_tools@, name) || (
    recent && covered(cfg.exempt_recent_only_tools@, name)))
    ||| call.get("input"@) matches Some(input) && (if input.get("file_path"@) is Some {
        input.get("file_path"@)
    } else {
        input.get("path"@)
    }) matches Some(JsonView::String(path)) && covered(cfg.protected_file_patterns@, path)
}

/// Whether the last call under the id that a result names is to a tool, or about a file, that is
/// spared.
pub open spec fn call_spared(
    messages: Seq<JsonView>,
    cfg: &BloatCapConfig,
    b: JsonView,
    recent: bool,
) -> bool {
    exists|id: Seq<char>, mi: int, ci: int| #[trigger]
        call_at(messages, id, mi, ci) && b.get("tool_use_id"@) == Some(JsonView::String(id)) && spared(
            block_at(messages, mi, ci)->0,
            cfg,
            recent,
        )
}

proof fn lemma_call_spared(
    messages: Seq<JsonView>,
    cfg: &BloatCapConfig,
    b: JsonView,
    recent: bool,
)
    ensures
        exempt(paired_use(messages, b), cfg, recent) <==> call_spared(messages, cfg, b, recent),
{
    if let Some(call) = paired_use(messages, b) {
        let id = b.get_str("tool_use_id"@)->0;
        law_paired_use(messages, b, id, call);
        let (mi, ci) = choose|mi: int, ci: int| #[trigger]
            call_at(messages, id, mi, ci) && block_at(messages, mi, ci) == Some(call);
        assert(call_at(messages, id, mi, ci));
        if exempt(paired_use(messages, b), cfg, recent) {
            assert(spared(block_at(messages, mi, ci)->0, cfg, recent));
        }
    }
    if call_spared(messages, cfg, b, recent) {
        let (id, mi, ci) = choose|id: Seq<char>, mi: int, ci: int| #[trigger]
            call_at(messages, id, mi, ci) && b.get("tool_use_id"@) == Some(JsonView::String(id))
                && spared(block_at(messages, mi, ci)->0, cfg, recent);
        let call = block_at(messages, mi, ci)->0;
        law_paired_use(messages, b, id, call);
        assert(call_at(messages, id, mi, ci) && block_at(messages, mi, ci) == Some(call));
        assert(paired_use(messages, b) == Some(call));
    }
}

proof fn lemma_text_left(s: Seq<char>, cfg: &BloatCapConfig, recent: bool, very_old: bool)
    ensures
        ({
            let content = JsonView::String(s);
            let left = content_left(content, cfg, recent, very_old);
            match cap_text(s, cfg, recent, very_old) {
                Some(v) => v == left,
                None => left == content,
            }
        }),
{
    let content = JsonView::String(s);
    law_begins(s, "[trimwire: "@);
    law_terms(content, Seq::empty(), content, Seq::empty());
    law_marker(
        "[trimwire: aged-out result — re-run the tool to restore full content"@,
        content,
    );
    assert(shortened(s, cfg, recent) == cut_down(s, cfg, recent));
}

proof fn lemma_array_left(items: Seq<JsonView>, cfg: &BloatCapConfig, recent: bool, very_old: bool)
    ensures
        ({
            let content = JsonView::Array(items);
            let left = content_left(content, cfg, recent, very_old);
            match cap_array(items, cfg, recent) {
                Some(v) => v == left,
                None => left == content,
            }
        }),
{
    let content = JsonView::Array(items);
    let word = "[trimwire: array content elided"@;
    law_terms(content, Seq::empty(), content, Seq::empty());
    law_marker(word, content);
    if items.len() == 1 {
        if let JsonView::String(s) = items[0] {
            law_begins(s, word);
        }
    }
    assert forall|i: int| 0 <= i < items.len() implies item_trim(
        #[trigger] items[i],
        cfg,
        recent,
    ) is Some == item_cut(items[i], cfg, recent) && cap_item(items[i], cfg, recent) == item_left(
        items[i],
        cfg,
        recent,
    ) by {
        if let Some(JsonView::String(t)) = items[i].get("text"@) {
            assert(shortened(t, cfg, recent) == cut_down(t, cfg, recent));
        }
    }
    let new = Seq::new(items.len(), |i: int| item_left(items[i], cfg, recent));
    assert(cap_items(items, cfg, recent) =~= new);
    if any_trimmed(items, cfg, recent) {
        let i = choose|i: int|
            0 <= i < items.len() && item_trim(#[trigger] items[i], cfg, recent) is Some;
        assert(item_cut(items[i], cfg, recent));
    }
    if exists|i: int| 0 <= i < items.len() && item_cut(#[trigger] items[i], cfg, recent) {
        let i = choose|i: int| 0 <= i < items.len() && item_cut(#[trigger] items[i], cfg, recent);
        assert(item_trim(items[i], cfg, recent) is Some);
        assert(any_trimmed(items, cfg, recent));
    }
    if any_text(items) {
        let i = choose|i: int| 0 <= i < items.len() && (#[trigger] items[i]).get_str("text"@) is Some;
        assert(items[i].get("text"@) matches Some(JsonView::String(_)));
    }
    if exists|i: int|
        0 <= i < items.len() && ((#[trigger] items[i]).get("text"@) matches Some(
            JsonView::String(_),
        )) {
        let i = choose|i: int|
            0 <= i < items.len() && ((#[trigger] items[i]).get("text"@) matches Some(
                JsonView::String(_),
            ));
        assert(items[i].get_str("text"@) is Some);
        assert(any_text(items));
    }
}

/// What the cap does to a block: only the content of a result changes, one that no spared call is
/// for; a recent one only where there is a cap on recent ones. What is left of it is what is left of
/// content that is too large.
pub proof fn law_capped(messages: Seq<JsonView>, cfg: &BloatCapConfig, mi: int, ci: int)
    requires
        block_at(messages, mi, ci) is Some,
    ensures
        ({
            let b = block_at(messages, mi, ci)->0;
            let turns = turns_from(messages, mi);
            let recent = turns <= cfg.keep_recent_turns;
            let very_old = !recent && cfg.stub_age_turns > cfg.keep_recent_turns && turns
                > cfg.stub_age_turns;
            let after = block_at(rewrite(messages, bloat_rule(messages, cfg)), mi, ci);
            if b.get("type"@) == Some(JsonView::String("tool_result"@)) && !(recent
                && cfg.catastrophic_bytes == 0) && !call_spared(messages, cfg, b, recent) && b.get(
                "content"@,
            ) is Some {
                after == Some(
                    b.with(
                        "content"@,
                        content_left(b.get("content"@)->0, cfg, recent, very_old),
                    ),
                )
            } else {
                after == Some(b)
            }
        }),
{
    let b = block_at(messages, mi, ci)->0;
    let turns = turns_from(messages, mi);
    let recent = turns <= cfg.keep_recent_turns;
    let very_old = !recent && cfg.stub_age_turns > cfg.keep_recent_turns && turns
        > cfg.stub_age_turns;
    lemma_block_at(messages, bloat_rule(messages, cfg), mi, ci);
    law_old(messages, cfg.keep_recent_turns as nat, mi);
    law_old(messages, cfg.stub_age_turns as nat, mi);
    lemma_call_spared(messages, cfg, b, recent);
    if let Some(content) = b.get("content"@) {
        crate::json::lemma_set_same(b, "content"@);
        match content {
            JsonView::String(s) => {
                lemma_text_left(s, cfg, recent, very_old);
            },
            JsonView::Array(items) => {
                lemma_array_left(items, cfg, recent, very_old);
            },
            _ => {},
        }
    }
}

} // verus!
