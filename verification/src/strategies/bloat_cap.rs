//! Trims each oversized old tool result to its head and tail.

use super::{
    already_cleared, assistant_cutoff, cutoff, elision_marker, is_already_cleared, is_old, marker,
    old_at, opt_int, serialized_len, text_len, transcript_len, value_len, Stats,
};
use crate::config::{covered, matches_any, BloatCapConfig};
use crate::json::{lemma_views, lemma_views_push, views, Json, JsonView};
use crate::pairing::{
    has_type, lemma_describes_paired, paired, paired_use, refused, PairingError, PairingIndex,
};
use crate::rewrite::{
    count_changes, law_no_larger, law_pairing_kept, lemma_only_sets_keeps_ids, machine, only_sets,
    opt_json, plan, rewrite, BlockRule, Rule,
};
use crate::size::{lemma_with_no_larger, size};
use crate::text::{
    begins, byte_len, ceil_boundary, chars_of, decimal, decimal_of, fit_prefix, fit_suffix,
    floor_boundary, has_part, lines, lines_of, lower, lower_of, occurs, opt_string, starts_with,
    string_of, texts, utf8_len,
};
use vstd::prelude::*;
use vstd::string::StringExecFns;

verus! {

/// How many signal lines are kept at most.
pub const MAX_SIGNAL_LINES: usize = 12;

/// After how many bytes of signal lines no more are kept.
pub const MAX_SIGNAL_BYTES: usize = 2048;

/// How much of a recent result's head and tail is kept at least.
pub const CATASTROPHIC_KEEP: usize = 16384;

/// Whether a line speaks of a failure.
pub open spec fn is_signal(line: Seq<char>) -> bool {
    let l = lower(line);
    occurs(l, "error"@) || occurs(l, "warning"@) || occurs(l, "fail"@) || occurs(l, "panic"@)
        || occurs(l, "exception"@)
}

/// The signal lines among some lines, each with a line feed, and their number: from the first on,
/// until the caps are reached.
pub open spec fn salvage(all: Seq<Seq<char>>) -> (Seq<char>, nat)
    decreases all.len(),
{
    if all.len() == 0 {
        (Seq::empty(), 0)
    } else {
        let (kept, n) = salvage(all.drop_last());
        if n >= MAX_SIGNAL_LINES || utf8_len(kept) >= MAX_SIGNAL_BYTES || !is_signal(all.last()) {
            (kept, n)
        } else {
            ((kept + all.last()).push('\n'), n + 1)
        }
    }
}

/// What stands between head and tail: what was done, how many bytes are gone, and the lines that
/// were salvaged from them.
pub open spec fn trim_middle(middle: Seq<char>, label: Seq<char>) -> Seq<char> {
    let (kept, n) = salvage(lines(middle));
    let start = "\n[trimwire: "@ + label + " "@ + decimal(utf8_len(middle)) + " bytes"@;
    if n > 0 {
        start + ", kept "@ + decimal(n) + " signal line(s)]\n"@ + kept
    } else {
        start + "]\n"@
    }
}

/// A text with its middle replaced: the longest beginning of at most `head` bytes and the longest
/// end of at most `tail` bytes stay. None where nothing lies between them, or where the result
/// would not be smaller.
pub open spec fn trimmed(s: Seq<char>, head: nat, tail: nat, label: Seq<char>) -> Option<Seq<char>> {
    let h = fit_prefix(s, head as int);
    let t = s.len() - fit_suffix(s, tail as int);
    if t <= h {
        None
    } else {
        let out = s.take(h) + trim_middle(s.subrange(h, t), label) + s.skip(t);
        if utf8_len(out) < utf8_len(s) {
            Some(out)
        } else {
            None
        }
    }
}

fn signals(line: &str) -> (r: bool)
    ensures
        r == is_signal(line@),
{
    let l = lower_of(line);
    has_part(&l, "error") || has_part(&l, "warning") || has_part(&l, "fail") || has_part(&l, "panic")
        || has_part(&l, "exception")
}

fn salvage_lines(all: &Vec<String>) -> (r: (String, usize))
    ensures
        (r.0@, r.1 as nat) == salvage(texts(all@)),
{
    let ghost want = texts(all@);
    let mut kept = String::new();
    let mut n: usize = 0;
    let mut i: usize = 0;
    assert(want.take(0) =~= Seq::empty());
    while i < all.len()
        invariant
            i <= all@.len(),
            n <= MAX_SIGNAL_LINES,
            want == texts(all@),
            (kept@, n as nat) == salvage(want.take(i as int)),
        decreases all@.len() - i,
    {
        assert(want.take(i + 1).drop_last() =~= want.take(i as int));
        assert(want.take(i + 1).last() == all@[i as int]@);
        if n < MAX_SIGNAL_LINES && byte_len(&kept) < MAX_SIGNAL_BYTES && signals(&all[i]) {
            kept.append(&all[i]);
            kept.push('\n');
            n = n + 1;
        }
        i = i + 1;
    }
    assert(want.take(i as int) =~= want);
    (kept, n)
}

/// Replaces the middle of a text by a marker and the salvaged signal lines, keeping at most `head`
/// bytes of its beginning and `tail` bytes of its end.
pub fn trim(s: &str, head: usize, tail: usize, label: &str) -> (r: Option<String>)
    ensures
        opt_string(r) == trimmed(s@, head as nat, tail as nat, label@),
{
    let chars = chars_of(s);
    let h: usize = floor_boundary(&chars, head);
    let t: usize = ceil_boundary(&chars, tail);
    if t <= h {
        return None;
    }
    let middle = string_of(&chars, h, t);
    let (kept, n) = salvage_lines(&lines_of(&middle));
    let mut out = string_of(&chars, 0, h);
    assert(s@.subrange(0, h as int) =~= s@.take(h as int));
    let ghost front = s@.take(h as int);
    let mut note = "\n[trimwire: ".to_owned();
    note.append(label);
    note.append(" ");
    note.append(&decimal_of(byte_len(&middle)));
    note.append(" bytes");
    if n > 0 {
        note.append(", kept ");
        note.append(&decimal_of(n));
        note.append(" signal line(s)]\n");
        note.append(&kept);
    } else {
        note.append("]\n");
    }
    assert(note@ == trim_middle(middle@, label@));
    out.append(&note);
    let end = string_of(&chars, t, chars.len());
    assert(s@.subrange(t as int, s@.len() as int) =~= s@.skip(t as int));
    out.append(&end);
    if byte_len(&out) < byte_len(s) {
        Some(out)
    } else {
        None
    }
}

/// From which size on a result is capped.
pub open spec fn limit(cfg: &BloatCapConfig, recent: bool) -> nat {
    if recent {
        cfg.catastrophic_bytes as nat
    } else {
        cfg.threshold_bytes as nat
    }
}

/// How much is kept at one end: of a recent result more than of an old one.
pub open spec fn keep_bytes(bytes: usize, recent: bool) -> nat {
    if recent && bytes < CATASTROPHIC_KEEP {
        CATASTROPHIC_KEEP as nat
    } else {
        bytes as nat
    }
}

/// What the marker calls the cap.
pub open spec fn label(recent: bool) -> Seq<char> {
    if recent {
        "catastrophic-cap trimmed"@
    } else {
        "trimmed"@
    }
}

/// The trim that a text gets, by how recent it is.
pub open spec fn shortened(s: Seq<char>, cfg: &BloatCapConfig, recent: bool) -> Option<Seq<char>> {
    trimmed(
        s,
        keep_bytes(cfg.head_bytes, recent),
        keep_bytes(cfg.tail_bytes, recent),
        label(recent),
    )
}

/// The trim that a result of one text gets; none where it would not be smaller when it is written.
pub open spec fn capped(s: Seq<char>, cfg: &BloatCapConfig, recent: bool) -> Option<Seq<char>> {
    match shortened(s, cfg, recent) {
        Some(t) => if text_len(JsonView::String(t)) < text_len(JsonView::String(s)) {
            Some(t)
        } else {
            None
        },
        None => None,
    }
}

/// What becomes of a result that is one text: a marker where it is very old, else a trim. None
/// where it stays: it bears a marker already, is not too large, or would not shrink.
pub open spec fn cap_text(
    s: Seq<char>,
    cfg: &BloatCapConfig,
    recent: bool,
    very_old: bool,
) -> Option<JsonView> {
    if begins(s, "[trimwire: "@) || already_cleared(JsonView::String(s)) || utf8_len(s) <= limit(
        cfg,
        recent,
    ) {
        None
    } else if very_old {
        let m = marker(
            "[trimwire: aged-out result — re-run the tool to restore full content"@,
            JsonView::String(s),
        );
        if text_len(m) < utf8_len(s) {
            Some(m)
        } else {
            None
        }
    } else {
        match capped(s, cfg, recent) {
            Some(t) => Some(JsonView::String(t)),
            None => None,
        }
    }
}

/// The trim that the text of one item of an array result gets.
pub open spec fn item_trim(item: JsonView, cfg: &BloatCapConfig, recent: bool) -> Option<Seq<char>> {
    match item.get_str("text"@) {
        Some(t) => if utf8_len(t) <= limit(cfg, recent) {
            None
        } else {
            shortened(t, cfg, recent)
        },
        None => None,
    }
}

/// An item of an array result with its text trimmed.
pub open spec fn cap_item(item: JsonView, cfg: &BloatCapConfig, recent: bool) -> JsonView {
    match item_trim(item, cfg, recent) {
        Some(t) => item.with("text"@, JsonView::String(t)),
        None => item,
    }
}

/// The items of an array result with their texts trimmed.
pub open spec fn cap_items(
    items: Seq<JsonView>,
    cfg: &BloatCapConfig,
    recent: bool,
) -> Seq<JsonView> {
    Seq::new(items.len(), |i: int| cap_item(items[i], cfg, recent))
}

/// Whether some item of an array result is trimmed.
pub open spec fn any_trimmed(items: Seq<JsonView>, cfg: &BloatCapConfig, recent: bool) -> bool {
    exists|i: int| 0 <= i < items.len() && item_trim(#[trigger] items[i], cfg, recent) is Some
}

/// Whether some item of an array result has a text.
pub open spec fn any_text(items: Seq<JsonView>) -> bool {
    exists|i: int| 0 <= i < items.len() && (#[trigger] items[i]).get_str("text"@) is Some
}

/// Whether an array result is no more than the marker of an earlier elision.
pub open spec fn array_stub(items: Seq<JsonView>) -> bool {
    items.len() == 1 && (items[0].as_str() matches Some(s) && begins(
        s,
        "[trimwire: array content elided"@,
    ))
}

/// What becomes of a result that is an array: its texts are trimmed, or, where it holds none, a
/// marker takes its place. None where it stays.
pub open spec fn cap_array(
    items: Seq<JsonView>,
    cfg: &BloatCapConfig,
    recent: bool,
) -> Option<JsonView> {
    let whole = JsonView::Array(items);
    if array_stub(items) || already_cleared(whole) || text_len(whole) <= limit(cfg, recent) {
        None
    } else {
        let new = JsonView::Array(cap_items(items, cfg, recent));
        let stub = marker("[trimwire: array content elided"@, whole);
        if any_trimmed(items, cfg, recent) {
            if text_len(new) < text_len(whole) {
                Some(new)
            } else {
                None
            }
        } else if any_text(items) || text_len(stub) >= text_len(whole) {
            None
        } else {
            Some(stub)
        }
    }
}

/// The path that the input of a call names.
pub open spec fn input_path(input: JsonView) -> Option<Seq<char>> {
    match input.get("file_path"@) {
        Some(v) => v.as_str(),
        None => input.get_str("path"@),
    }
}

/// Whether a result is exempt from the cap, by the tool it comes from or by the file it is about.
pub open spec fn exempt(call: Option<JsonView>, cfg: &BloatCapConfig, recent: bool) -> bool {
    match call {
        Some(u) => {
            ||| (u.get_str("name"@) matches Some(name) && (covered(cfg.exempt_tools@, name) || (
            recent && covered(cfg.exempt_recent_only_tools@, name))))
            ||| (u.get("input"@) matches Some(input) && input_path(input) matches Some(path)
                && covered(cfg.protected_file_patterns@, path))
        },
        None => false,
    }
}

/// What becomes of a block. A result is recent behind the cutoff, and very old up to the cutoff of
/// the older window where that one is in use.
pub open spec fn bloat_edit(
    messages: Seq<JsonView>,
    cfg: &BloatCapConfig,
    mi: int,
    block: JsonView,
) -> Option<JsonView> {
    let recent = !is_old(cutoff(messages, cfg.keep_recent_turns as nat), mi);
    let very_old = !recent && cfg.stub_age_turns > cfg.keep_recent_turns && is_old(
        cutoff(messages, cfg.stub_age_turns as nat),
        mi,
    );
    if !has_type(block, "tool_result"@) || (recent && cfg.catastrophic_bytes == 0) || exempt(
        paired_use(messages, block),
        cfg,
        recent,
    ) {
        None
    } else {
        let new = match block.get("content"@) {
            Some(JsonView::String(s)) => cap_text(s, cfg, recent, very_old),
            Some(JsonView::Array(items)) => cap_array(items, cfg, recent),
            _ => None,
        };
        match new {
            Some(v) => Some(block.with("content"@, v)),
            None => None,
        }
    }
}

/// The cap as a rule on blocks.
pub open spec fn bloat_rule(messages: Seq<JsonView>, cfg: &BloatCapConfig) -> Rule {
    |mi: int, ci: int, block: JsonView| bloat_edit(messages, cfg, mi, block)
}

struct Cap<'a> {
    messages: &'a Vec<Json>,
    cfg: &'a BloatCapConfig,
    index: &'a PairingIndex,
    cut: Option<usize>,
    stub_cut: Option<usize>,
}

fn kept_bytes(bytes: usize, recent: bool) -> (r: usize)
    ensures
        r == keep_bytes(bytes, recent),
{
    if recent && bytes < CATASTROPHIC_KEEP {
        CATASTROPHIC_KEEP
    } else {
        bytes
    }
}

fn shorten(s: &str, cfg: &BloatCapConfig, recent: bool) -> (r: Option<String>)
    ensures
        opt_string(r) == shortened(s@, cfg, recent),
{
    let word = if recent {
        "catastrophic-cap trimmed"
    } else {
        "trimmed"
    };
    trim(s, kept_bytes(cfg.head_bytes, recent), kept_bytes(cfg.tail_bytes, recent), word)
}

fn cap_of(s: &str, cfg: &BloatCapConfig, recent: bool) -> (r: Option<String>)
    ensures
        opt_string(r) == capped(s@, cfg, recent),
{
    match shorten(s, cfg, recent) {
        Some(t) => if value_len(&Json::text(&t)) < value_len(&Json::text(s)) {
            Some(t)
        } else {
            None
        },
        None => None,
    }
}

fn limit_of(cfg: &BloatCapConfig, recent: bool) -> (r: usize)
    ensures
        r == limit(cfg, recent),
{
    if recent {
        cfg.catastrophic_bytes
    } else {
        cfg.threshold_bytes
    }
}

/// Caps a result that is one text.
fn decide_text(content: &Json, cfg: &BloatCapConfig, recent: bool, very_old: bool) -> (r: Option<
    Json,
>)
    requires
        content@ is String,
    ensures
        opt_json(r) == cap_text(content@->String_0, cfg, recent, very_old),
{
    let s = match content.as_str() {
        Some(s) => s,
        None => return None,
    };
    if starts_with(s, "[trimwire: ") || is_already_cleared(content) || byte_len(s) <= limit_of(
        cfg,
        recent,
    ) {
        return None;
    }
    if very_old {
        let m = elision_marker(
            "[trimwire: aged-out result — re-run the tool to restore full content",
            content,
        );
        if value_len(&m) < byte_len(s) {
            Some(m)
        } else {
            None
        }
    } else {
        match cap_of(s, cfg, recent) {
            Some(t) => Some(Json::String(t)),
            None => None,
        }
    }
}

/// Caps a result that is an array.
fn decide_array(content: &Json, cfg: &BloatCapConfig, recent: bool) -> (r: Option<Json>)
    requires
        content@ is Array,
    ensures
        opt_json(r) == cap_array(content@->Array_0, cfg, recent),
{
    let items = match content.as_array() {
        Some(items) => items,
        None => return None,
    };
    let ghost all = views(items@);
    proof {
        lemma_views(items@);
    }
    if items.len() == 1 {
        if let Some(s) = items[0].as_str() {
            if starts_with(s, "[trimwire: array content elided") {
                return None;
            }
        }
    }
    if is_already_cleared(content) {
        return None;
    }
    let size: usize = value_len(content);
    if size <= limit_of(cfg, recent) {
        return None;
    }
    let mut new: Vec<Json> = Vec::new();
    let mut some_trimmed: bool = false;
    let mut some_text: bool = false;
    let mut i: usize = 0;
    while i < items.len()
        invariant
            i <= items@.len(),
            all == views(items@),
            views(new@) == cap_items(all, cfg, recent).take(i as int),
            some_trimmed == exists|j: int|
                0 <= j < i && item_trim(#[trigger] all[j], cfg, recent) is Some,
            some_text == exists|j: int| 0 <= j < i && (#[trigger] all[j]).get_str("text"@) is Some,
        decreases items@.len() - i,
    {
        proof {
            lemma_views(items@);
        }
        let mut item = items[i].copy();
        if let Some(t) = items[i].get_str("text") {
            some_text = true;
            if byte_len(t) > limit_of(cfg, recent) {
                if let Some(short) = shorten(t, cfg, recent) {
                    item.set("text", Json::String(short));
                    some_trimmed = true;
                }
            }
        }
        proof {
            lemma_views_push(new@, item);
        }
        new.push(item);
        assert(item@ == cap_item(all[i as int], cfg, recent));
        i = i + 1;
        assert(views(new@) =~= cap_items(all, cfg, recent).take(i as int));
    }
    assert(cap_items(all, cfg, recent).take(i as int) =~= cap_items(all, cfg, recent));
    if some_trimmed {
        let whole = Json::Array(new);
        if value_len(&whole) < size {
            return Some(whole);
        }
        return None;
    }
    if some_text {
        return None;
    }
    let stub = elision_marker("[trimwire: array content elided", content);
    if value_len(&stub) < size {
        Some(stub)
    } else {
        None
    }
}

/// Whether a call exempts its result.
fn is_exempt(call: Option<&Json>, cfg: &BloatCapConfig, recent: bool) -> (r: bool)
    ensures
        r == exempt(crate::json::opt_view(call), cfg, recent),
{
    match call {
        Some(u) => {
            if let Some(name) = u.get_str("name") {
                if matches_any(&cfg.exempt_tools, name) {
                    return true;
                }
                if recent && matches_any(&cfg.exempt_recent_only_tools, name) {
                    return true;
                }
            }
            if let Some(input) = u.get("input") {
                let path = match input.get("file_path") {
                    Some(v) => v.as_str(),
                    None => input.get_str("path"),
                };
                if let Some(p) = path {
                    return matches_any(&cfg.protected_file_patterns, p);
                }
            }
            false
        },
        None => false,
    }
}

impl<'a> BlockRule for Cap<'a> {
    closed spec fn ready(&self) -> bool {
        let all = views(self.messages@);
        &&& self.index.describes(all)
        &&& opt_int(self.cut) == cutoff(all, self.cfg.keep_recent_turns as nat)
        &&& opt_int(self.stub_cut) == if self.cfg.stub_age_turns > self.cfg.keep_recent_turns {
            cutoff(all, self.cfg.stub_age_turns as nat)
        } else {
            None
        }
    }

    closed spec fn rule(&self, mi: int, ci: int, block: JsonView) -> Option<JsonView> {
        bloat_edit(views(self.messages@), self.cfg, mi, block)
    }

    fn decide(&self, mi: usize, ci: usize, block: &Json) -> (r: Option<Json>) {
        let recent = !old_at(self.cut, mi);
        let very_old = !recent && old_at(self.stub_cut, mi);
        if recent && self.cfg.catastrophic_bytes == 0 {
            return None;
        }
        if !block.member_is("type", "tool_result") {
            return None;
        }
        if is_exempt(self.index.use_of(self.messages, block), self.cfg, recent) {
            return None;
        }
        let new = match block.get("content") {
            Some(content) => match content {
                Json::String(_) => decide_text(content, self.cfg, recent, very_old),
                Json::Array(_) => decide_array(content, self.cfg, recent),
                _ => None,
            },
            None => None,
        };
        match new {
            Some(v) => {
                let mut b = block.copy();
                b.set("content", v);
                Some(b)
            },
            None => None,
        }
    }
}

/// Caps the oversized results of a transcript and says how many were capped.
pub fn apply_counted(messages: &mut Vec<Json>, cfg: &BloatCapConfig) -> (r: Result<
    usize,
    PairingError,
>)
    ensures
        ({
            let before = views(old(messages)@);
            let after = views(final(messages)@);
            match r {
                Ok(n) => paired(before) && after == rewrite(before, bloat_rule(before, cfg)) && n
                    == machine(count_changes(before, bloat_rule(before, cfg))),
                Err(e) => refused(before, e) && after == before,
            }
        }),
{
    let index = PairingIndex::build(messages);
    proof {
        lemma_describes_paired(index, views(messages@));
    }
    index.validate()?;
    let stub_cut = if cfg.stub_age_turns > cfg.keep_recent_turns {
        assistant_cutoff(messages, cfg.stub_age_turns)
    } else {
        None
    };
    let ghost rule = bloat_rule(views(messages@), cfg);
    let plan = {
        let cap = Cap {
            messages,
            cfg,
            index: &index,
            cut: assistant_cutoff(messages, cfg.keep_recent_turns),
            stub_cut,
        };
        assert(rule =~= |mi: int, ci: int, b: JsonView| cap.rule(mi, ci, b));
        plan(messages, &cap)
    };
    Ok(plan.carry_out(messages, Ghost(rule)))
}

/// Caps the oversized results of a transcript.
pub fn apply(messages: &mut Vec<Json>, cfg: &BloatCapConfig) -> (r: Result<Stats, PairingError>)
    ensures
        ({
            let before = views(old(messages)@);
            let after = views(final(messages)@);
            match r {
                Ok(stats) => paired(before) && after == rewrite(before, bloat_rule(before, cfg))
                    && stats.stubbed == machine(count_changes(before, bloat_rule(before, cfg)))
                    && stats.original_bytes == transcript_len(before) && stats.final_bytes
                    == transcript_len(after) && stats.final_bytes <= stats.original_bytes,
                Err(e) => refused(before, e) && after == before,
            }
        }),
{
    let original_bytes: usize = serialized_len(messages);
    let ghost before = views(messages@);
    let stubbed: usize = apply_counted(messages, cfg)?;
    let final_bytes: usize = serialized_len(messages);
    proof {
        law_bloat_never_grows(before, cfg);
    }
    Ok(Stats { stubbed, original_bytes, final_bytes })
}

/// The cap sets nothing but the content of tool results, and cannot part a result from its call.
pub proof fn law_bloat_cap_scope(messages: Seq<JsonView>, cfg: &BloatCapConfig)
    ensures
        only_sets(bloat_rule(messages, cfg), "tool_result"@, "content"@),
        paired(rewrite(messages, bloat_rule(messages, cfg))) <==> paired(messages),
{
    let rule = bloat_rule(messages, cfg);
    lemma_only_sets_keeps_ids(rule, "tool_result"@, "content"@);
    law_pairing_kept(messages, rule);
}

/// What takes the place of an oversized result is written in fewer bytes than what it held, and
/// nothing else of the block changes.
pub proof fn law_bloat_shrinks(
    messages: Seq<JsonView>,
    cfg: &BloatCapConfig,
    mi: int,
    block: JsonView,
)
    ensures
        bloat_edit(messages, cfg, mi, block) matches Some(new) ==> (block.get(
            "content"@,
        ) matches Some(old) && (new.get("content"@) matches Some(left) && new == block.with(
            "content"@,
            left,
        ) && text_len(left) < text_len(old))),
{
}

/// The cap never makes a transcript larger.
pub proof fn law_bloat_never_grows(messages: Seq<JsonView>, cfg: &BloatCapConfig)
    ensures
        transcript_len(rewrite(messages, bloat_rule(messages, cfg))) <= transcript_len(messages),
{
    let rule = bloat_rule(messages, cfg);
    assert forall|mi: int, ci: int, b: JsonView| (#[trigger] rule(mi, ci, b)) is Some implies size(
        rule(mi, ci, b)->0,
    ) <= size(b) by {
        law_bloat_shrinks(messages, cfg, mi, b);
        lemma_with_no_larger(b, "content"@, rule(mi, ci, b)->0.get("content"@)->0);
    }
    law_no_larger(messages, rule);
}

} // verus!
