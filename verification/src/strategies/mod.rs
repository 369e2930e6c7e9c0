//! The pruning strategies and what they share.

use self::depth::law_pruned_nests;
use crate::config::{Config, StrategiesConfig};
use crate::json::{
    array_text, json_text, lemma_set_same, lemma_views, parsed_json, read_alike, views, Json,
    JsonView, MAX_DEPTH,
};
use crate::pairing::{lemma_describes_paired, paired, refused, PairingError, PairingIndex};
use crate::rewrite::{count_changes, law_no_change, lemma_role_kept, machine, rewrite, Rule};
use crate::size::size;
use crate::text::{begins, byte_len, decimal, decimal_of, same_text, starts_with};
use vstd::prelude::*;
use vstd::string::{StrSliceExecFns, StringExecFns};
use vstd::utf8::encode_utf8;

pub mod bloat_cap;
pub mod cross_turn_dedup;
pub mod dedup_laws;
pub mod depth;
pub mod failed_input_purge;
pub mod image_strip;
pub mod laws;
pub mod simhash_dedup;
pub mod purpose;
pub mod sliding_window;
pub mod stale_input_cap;
pub mod stale_reads;
pub mod system_shape_normalize;
pub mod thinking_strip;

verus! {

/// What a strategy did: how many blocks it changed, and the size of the transcript before and
/// after.
#[derive(Debug, Clone, Copy, PartialEq, Eq, Structural)]
pub struct Stats {
    pub stubbed: usize,
    pub original_bytes: usize,
    pub final_bytes: usize,
}

impl Stats {
    /// How many bytes went away; negative where the transcript grew.
    pub fn elided_bytes(&self) -> (r: i64)
        requires
            i64::MIN <= self.original_bytes - self.final_bytes <= i64::MAX,
        ensures
            r == self.original_bytes - self.final_bytes,
    {
        (self.original_bytes as i128 - self.final_bytes as i128) as i64
    }
}

/// The size of the compact text of a value, in bytes.
pub open spec fn text_len(v: JsonView) -> nat {
    size(v)
}

/// The size of the compact text of a transcript, in bytes.
pub open spec fn transcript_len(messages: Seq<JsonView>) -> nat {
    text_len(JsonView::Array(messages))
}

/// The size of the compact text of a value, in bytes.
pub fn value_len(v: &Json) -> (r: usize)
    ensures
        r == text_len(v@),
{
    byte_len(&v.to_text())
}

/// The size of the compact text of a transcript, in bytes.
pub fn serialized_len(messages: &[Json]) -> (r: usize)
    ensures
        r == transcript_len(views(messages@)),
{
    byte_len(&array_text(messages))
}

/// Whether a message has a role.
pub open spec fn has_role(msg: JsonView, role: Seq<char>) -> bool {
    msg.get_str("role"@) == Some(role)
}

/// The role of a message.
pub fn role(msg: &Json) -> (r: Option<&str>)
    ensures
        crate::json::opt_text(r) == msg@.get_str("role"@),
{
    msg.get_str("role")
}

/// The position of the assistant message that has `keep` assistant messages behind it: everything
/// up to it is old.
pub open spec fn cutoff(messages: Seq<JsonView>, keep: nat) -> Option<int>
    decreases messages.len(),
{
    if messages.len() == 0 {
        None
    } else if !has_role(messages.last(), "assistant"@) {
        cutoff(messages.drop_last(), keep)
    } else if keep == 0 {
        Some(messages.len() - 1)
    } else {
        cutoff(messages.drop_last(), (keep - 1) as nat)
    }
}

/// A change of blocks leaves the cutoff where it is.
pub proof fn lemma_cutoff_kept(messages: Seq<JsonView>, rule: Rule, keep: nat)
    ensures
        cutoff(rewrite(messages, rule), keep) == cutoff(messages, keep),
    decreases messages.len(),
{
    let new = rewrite(messages, rule);
    if messages.len() > 0 {
        let init = messages.drop_last();
        assert(new.drop_last() =~= rewrite(init, rule));
        lemma_role_kept(messages, rule, messages.len() - 1);
        lemma_cutoff_kept(init, rule, keep);
        if keep > 0 {
            lemma_cutoff_kept(init, rule, (keep - 1) as nat);
        }
    }
}

/// What a marker says of elided content begins with the stub.
pub proof fn lemma_marker_bears(stub: Seq<char>, content: JsonView)
    ensures
        begins(marker_text(stub, content), stub),
        stub.len() > 0 ==> bears_stub(marker(stub, content), stub),
{
    let text = marker_text(stub, content);
    assert(text.take(stub.len() as int) =~= stub);
}

/// Whether message `mi` is at or before the cutoff.
pub open spec fn is_old(cut: Option<int>, mi: int) -> bool {
    match cut {
        Some(c) => mi <= c,
        None => false,
    }
}

/// A position as the machine holds it.
pub open spec fn opt_int(v: Option<usize>) -> Option<int> {
    match v {
        Some(x) => Some(x as int),
        None => None,
    }
}

/// The position of the assistant message that has `keep_recent_turns` assistant messages behind
/// it.
pub fn assistant_cutoff(messages: &Vec<Json>, keep_recent_turns: usize) -> (r: Option<usize>)
    ensures
        opt_int(r) == cutoff(views(messages@), keep_recent_turns as nat),
{
    let ghost all = views(messages@);
    let mut left: usize = keep_recent_turns;
    let mut i: usize = messages.len();
    proof {
        lemma_views(messages@);
        assert(all.take(i as int) =~= all);
    }
    while i > 0
        invariant
            i <= messages@.len(),
            all == views(messages@),
            cutoff(all, keep_recent_turns as nat) == cutoff(all.take(i as int), left as nat),
        decreases i,
    {
        proof {
            lemma_views(messages@);
            assert(all.take(i as int).last() == all[i - 1]);
            assert(all.take(i as int).drop_last() =~= all.take(i - 1));
        }
        i = i - 1;
        if messages[i].member_is("role", "assistant") {
            if left == 0 {
                return Some(i);
            }
            left = left - 1;
        }
    }
    None
}

/// Whether message `mi` is at or before the cutoff.
pub fn old_at(cut: Option<usize>, mi: usize) -> (r: bool)
    ensures
        r == is_old(opt_int(cut), mi as int),
{
    match cut {
        Some(c) => mi <= c,
        None => false,
    }
}

/// Whether content is what a client leaves where it has cleared a result itself: the marker, bare
/// or as the only text block.
pub open spec fn already_cleared(content: JsonView) -> bool {
    match content {
        JsonView::String(s) => s == "[Old tool result content cleared]"@,
        JsonView::Array(blocks) => blocks.len() == 1 && blocks[0].get_str("type"@) == Some("text"@)
            && blocks[0].get_str("text"@) == Some("[Old tool result content cleared]"@),
        _ => false,
    }
}

/// Whether content is what a client leaves where it has cleared a result itself.
pub fn is_already_cleared(content: &Json) -> (r: bool)
    ensures
        r == already_cleared(content@),
{
    match content {
        Json::String(s) => same_text(s, "[Old tool result content cleared]"),
        Json::Array(blocks) => {
            proof {
                lemma_views(blocks@);
            }
            blocks.len() == 1 && blocks[0].member_is("type", "text") && blocks[0].member_is(
                "text",
                "[Old tool result content cleared]",
            )
        },
        _ => false,
    }
}

/// What stands in place of elided content: a stub and the size of what is gone.
pub open spec fn marker_text(stub: Seq<char>, content: JsonView) -> Seq<char> {
    stub + " ("@ + decimal(text_len(content)) + "B elided)"@
}

/// What stands in place of elided content.
pub open spec fn marker(stub: Seq<char>, content: JsonView) -> JsonView {
    JsonView::String(marker_text(stub, content))
}

/// What stands in place of elided content.
pub fn elision_marker(stub: &str, content: &Json) -> (r: Json)
    ensures
        r@ == marker(stub@, content@),
{
    let n: usize = value_len(content);
    let mut s = stub.to_owned();
    s.append(" (");
    s.append(&decimal_of(n));
    s.append("B elided)");
    Json::String(s)
}

/// Whether content bears a stub already. An empty stub marks nothing.
pub open spec fn bears_stub(content: JsonView, stub: Seq<char>) -> bool {
    stub.len() > 0 && (content.as_str() matches Some(s) && begins(s, stub))
}

/// Whether content bears a stub already.
pub fn has_stub(content: &Json, stub: &str) -> (r: bool)
    ensures
        r == bears_stub(content@, stub@),
{
    match content.as_str() {
        Some(s) => !stub.is_empty() && starts_with(s, stub),
        None => false,
    }
}

/// A member of a block; null where the block has none.
pub open spec fn member_or_null(block: JsonView, key: Seq<char>) -> JsonView {
    match block.get(key) {
        Some(v) => v,
        None => JsonView::Null,
    }
}

/// A member of a block; null where the block has none.
pub fn copy_member(block: &Json, key: &str) -> (r: Json)
    ensures
        r@ == member_or_null(block@, key@),
{
    match block.get(key) {
        Some(v) => v.copy(),
        None => Json::Null,
    }
}

/// A block with one member set.
pub fn block_with(block: &Json, key: &str, value: Json) -> (r: Json)
    ensures
        r@ == block@.with(key@, value@),
{
    let mut b = block.copy();
    b.set(key, value);
    b
}

/// Whether a tool writes files: what its calls carry is never elided.
pub open spec fn authoring(name: Seq<char>) -> bool {
    name == "Write"@ || name == "Edit"@ || name == "MultiEdit"@ || name == "NotebookEdit"@
}

/// Whether a tool writes files.
pub fn is_authoring(name: &str) -> (r: bool)
    ensures
        r == authoring(name@),
{
    same_text(name, "Write") || same_text(name, "Edit") || same_text(name, "MultiEdit")
        || same_text(name, "NotebookEdit")
}

/// What a strategy that ran says of itself: its name and what it did.
pub type Fired = (&'static str, Stats);

/// What the strategies that ran say of themselves.
pub open spec fn fired_view(fired: Seq<Fired>) -> Seq<(Seq<char>, Stats)> {
    Seq::new(fired.len(), |i: int| (fired[i].0@, fired[i].1))
}

/// What a strategy did to a transcript.
pub open spec fn stats_of(before: Seq<JsonView>, after: Seq<JsonView>, n: nat) -> Stats {
    Stats {
        stubbed: machine(n),
        original_bytes: machine(transcript_len(before)),
        final_bytes: machine(transcript_len(after)),
    }
}

/// A transcript on its way through the strategies, with what those that ran say of themselves.
pub struct Passage {
    pub messages: Seq<JsonView>,
    pub fired: Seq<(Seq<char>, Stats)>,
}

impl Passage {
    /// The passage after one strategy more, if that one is enabled.
    pub open spec fn through(
        self,
        enabled: bool,
        name: Seq<char>,
        after: Seq<JsonView>,
        n: nat,
    ) -> Passage {
        if enabled {
            Passage {
                messages: after,
                fired: self.fired.push((name, stats_of(self.messages, after, n))),
            }
        } else {
            self
        }
    }
}

/// The passage after the failed-input purge.
#[verifier::opaque]
pub open spec fn after_failed_input_purge(p: Passage, cfg: &StrategiesConfig) -> Passage {
    let c = &cfg.failed_input_purge;
    let rule = failed_input_purge::purge_rule(p.messages, c);
    p.through(
        c.enabled,
        "failed_input_purge"@,
        rewrite(p.messages, rule),
        count_changes(p.messages, rule),
    )
}

/// The passage after the stale-input cap.
#[verifier::opaque]
pub open spec fn after_stale_input_cap(p: Passage, cfg: &StrategiesConfig) -> Passage {
    let c = &cfg.stale_input_cap;
    let rule = stale_input_cap::cap_rule(p.messages, c);
    p.through(
        c.enabled,
        "stale_input_cap"@,
        rewrite(p.messages, rule),
        count_changes(p.messages, rule),
    )
}

/// The passage after the cross-turn deduplication.
#[verifier::opaque]
pub open spec fn after_cross_turn_dedup(p: Passage, cfg: &StrategiesConfig) -> Passage {
    let c = &cfg.cross_turn_dedup;
    let (after, n) = cross_turn_dedup::deduped(p.messages, c);
    p.through(c.enabled, "cross_turn_dedup"@, after, n)
}

/// The passage after the elision of stale reads.
#[verifier::opaque]
pub open spec fn after_stale_reads(p: Passage, cfg: &StrategiesConfig) -> Passage {
    let c = &cfg.stale_reads;
    let rule = stale_reads::read_rule(p.messages, c);
    p.through(
        c.enabled,
        "stale_reads"@,
        rewrite(p.messages, rule),
        count_changes(p.messages, rule),
    )
}

/// The passage after the near-duplicate collapse.
#[verifier::opaque]
pub open spec fn after_simhash_dedup(p: Passage, cfg: &StrategiesConfig) -> Passage {
    let c = &cfg.simhash_dedup;
    let rule = simhash_dedup::near_rule(p.messages, c);
    p.through(
        c.enabled,
        "simhash_dedup"@,
        rewrite(p.messages, rule),
        count_changes(p.messages, rule),
    )
}

/// The passage after the cap on oversized results.
#[verifier::opaque]
pub open spec fn after_bloat_cap(p: Passage, cfg: &StrategiesConfig) -> Passage {
    let c = &cfg.bloat_cap;
    let rule = bloat_cap::bloat_rule(p.messages, c);
    p.through(
        c.enabled,
        "bloat_cap"@,
        rewrite(p.messages, rule),
        count_changes(p.messages, rule),
    )
}

/// The passage after the sliding window.
#[verifier::opaque]
pub open spec fn after_sliding_window(p: Passage, cfg: &StrategiesConfig) -> Passage {
    let c = &cfg.sliding_window;
    p.through(
        c.enabled,
        "sliding_window"@,
        rewrite(p.messages, sliding_window::window_rule(p.messages, c)),
        count_changes(p.messages, sliding_window::pair_rule(p.messages, c)),
    )
}

/// The passage after the image strip.
#[verifier::opaque]
pub open spec fn after_image_strip(p: Passage, cfg: &StrategiesConfig) -> Passage {
    let c = &cfg.image_strip;
    let rule = image_strip::image_rule(p.messages, c);
    p.through(
        c.enabled,
        "image_strip"@,
        rewrite(p.messages, rule),
        count_changes(p.messages, rule),
    )
}

/// The passage after the thinking strip.
#[verifier::opaque]
pub open spec fn after_thinking_strip(p: Passage, cfg: &StrategiesConfig) -> Passage {
    let c = &cfg.thinking_strip;
    let upto = thinking_strip::old_messages(p.messages, c);
    let what = thinking_strip::Removal::Thinking;
    p.through(
        c.enabled,
        "thinking_strip"@,
        thinking_strip::strip_until(p.messages, what, upto),
        thinking_strip::total_lost(p.messages.take(upto), what),
    )
}

/// The passage of a transcript through all enabled strategies, in their order.
pub open spec fn passage(messages: Seq<JsonView>, cfg: &StrategiesConfig) -> Passage {
    let p0 = Passage { messages, fired: Seq::empty() };
    let p1 = after_failed_input_purge(p0, cfg);
    let p2 = after_stale_input_cap(p1, cfg);
    let p3 = after_cross_turn_dedup(p2, cfg);
    let p4 = after_stale_reads(p3, cfg);
    let p5 = after_simhash_dedup(p4, cfg);
    let p6 = after_bloat_cap(p5, cfg);
    let p7 = after_sliding_window(p6, cfg);
    let p8 = after_image_strip(p7, cfg);
    after_thinking_strip(p8, cfg)
}

/// Notes what a strategy did. The size is taken anew only where something changed.
fn push_stats(
    fired: &mut Vec<Fired>,
    name: &'static str,
    stubbed: usize,
    messages: &Vec<Json>,
    prev_len: &mut usize,
    Ghost(before): Ghost<Seq<JsonView>>,
    Ghost(n): Ghost<nat>,
)
    requires
        *old(prev_len) == transcript_len(before),
        stubbed == machine(n),
        n == 0 ==> views(messages@) == before,
    ensures
        fired_view(final(fired)@) == fired_view(old(fired)@).push(
            (name@, stats_of(before, views(messages@), n)),
        ),
        *final(prev_len) == transcript_len(views(messages@)),
{
    let final_bytes: usize = if stubbed > 0 {
        serialized_len(messages)
    } else {
        *prev_len
    };
    let ghost old_fired = fired@;
    fired.push((name, Stats { stubbed, original_bytes: *prev_len, final_bytes }));
    assert(fired_view(fired@) =~= fired_view(old_fired).push(
        (name@, stats_of(before, views(messages@), n)),
    ));
    *prev_len = final_bytes;
}

/// Whether a transcript, what is noted so far and its size are those of a passage.
spec fn at(p: Passage, messages: Seq<Json>, fired: Seq<Fired>, len: usize) -> bool {
    p.messages == views(messages) && p.fired == fired_view(fired) && len == transcript_len(p.messages)
}

fn step_failed_input_purge(
    messages: &mut Vec<Json>,
    cfg: &StrategiesConfig,
    fired: &mut Vec<Fired>,
    prev_len: &mut usize,
    Ghost(p): Ghost<Passage>,
) -> (r: Result<(), PairingError>)
    requires
        at(p, old(messages)@, old(fired)@, *old(prev_len)),
    ensures
        match r {
            Ok(()) => at(after_failed_input_purge(p, cfg), final(messages)@, final(fired)@, *final(prev_len)) && (
            paired(p.messages) || after_failed_input_purge(p, cfg).messages == p.messages),
            Err(e) => refused(p.messages, e) && views(final(messages)@) == p.messages,
        },
        paired(after_failed_input_purge(p, cfg).messages) <==> paired(p.messages),
{
    let ghost m = p.messages;
    let ghost c = &cfg.failed_input_purge;
    let ghost rule = failed_input_purge::purge_rule(m, c);
    let ghost k = count_changes(m, rule);
    proof {
        reveal(after_failed_input_purge);
        failed_input_purge::law_failed_input_purge_scope(m, c);
        if k == 0 {
            law_no_change(m, rule);
        }
    }
    if cfg.failed_input_purge.enabled {
        let n: usize = failed_input_purge::apply_counted(messages, &cfg.failed_input_purge)?;
        push_stats(fired, "failed_input_purge", n, messages, prev_len, Ghost(m), Ghost(k));
    }
    Ok(())
}

fn step_stale_input_cap(
    messages: &mut Vec<Json>,
    cfg: &StrategiesConfig,
    fired: &mut Vec<Fired>,
    prev_len: &mut usize,
    Ghost(p): Ghost<Passage>,
) -> (r: Result<(), PairingError>)
    requires
        at(p, old(messages)@, old(fired)@, *old(prev_len)),
    ensures
        match r {
            Ok(()) => at(after_stale_input_cap(p, cfg), final(messages)@, final(fired)@, *final(prev_len)) && (
            paired(p.messages) || after_stale_input_cap(p, cfg).messages == p.messages),
            Err(e) => refused(p.messages, e) && views(final(messages)@) == p.messages,
        },
        paired(after_stale_input_cap(p, cfg).messages) <==> paired(p.messages),
{
    let ghost m = p.messages;
    let ghost c = &cfg.stale_input_cap;
    let ghost rule = stale_input_cap::cap_rule(m, c);
    let ghost k = count_changes(m, rule);
    proof {
        reveal(after_stale_input_cap);
        stale_input_cap::law_stale_input_cap_scope(m, c);
        if k == 0 {
            law_no_change(m, rule);
        }
    }
    if cfg.stale_input_cap.enabled {
        let n: usize = stale_input_cap::apply_counted(messages, &cfg.stale_input_cap)?;
        push_stats(fired, "stale_input_cap", n, messages, prev_len, Ghost(m), Ghost(k));
    }
    Ok(())
}

fn step_cross_turn_dedup(
    messages: &mut Vec<Json>,
    cfg: &StrategiesConfig,
    fired: &mut Vec<Fired>,
    prev_len: &mut usize,
    Ghost(p): Ghost<Passage>,
) -> (r: Result<(), PairingError>)
    requires
        at(p, old(messages)@, old(fired)@, *old(prev_len)),
    ensures
        match r {
            Ok(()) => at(after_cross_turn_dedup(p, cfg), final(messages)@, final(fired)@, *final(prev_len)) && (
            paired(p.messages) || after_cross_turn_dedup(p, cfg).messages == p.messages),
            Err(e) => refused(p.messages, e) && views(final(messages)@) == p.messages,
        },
        paired(after_cross_turn_dedup(p, cfg).messages) <==> paired(p.messages),
{
    let ghost m = p.messages;
    let ghost c = &cfg.cross_turn_dedup;
    let ghost k = cross_turn_dedup::deduped(m, c).1;
    proof {
        reveal(after_cross_turn_dedup);
        cross_turn_dedup::law_cross_turn_dedup_scope(m, c);
        if k == 0 {
            cross_turn_dedup::law_cross_turn_dedup_no_change(m, c);
        }
    }
    if cfg.cross_turn_dedup.enabled {
        let n: usize = cross_turn_dedup::apply_counted(messages, &cfg.cross_turn_dedup)?;
        push_stats(fired, "cross_turn_dedup", n, messages, prev_len, Ghost(m), Ghost(k));
    }
    Ok(())
}

fn step_stale_reads(
    messages: &mut Vec<Json>,
    cfg: &StrategiesConfig,
    fired: &mut Vec<Fired>,
    prev_len: &mut usize,
    Ghost(p): Ghost<Passage>,
) -> (r: Result<(), PairingError>)
    requires
        at(p, old(messages)@, old(fired)@, *old(prev_len)),
    ensures
        match r {
            Ok(()) => at(after_stale_reads(p, cfg), final(messages)@, final(fired)@, *final(prev_len)) && (
            paired(p.messages) || after_stale_reads(p, cfg).messages == p.messages),
            Err(e) => refused(p.messages, e) && views(final(messages)@) == p.messages,
        },
        paired(after_stale_reads(p, cfg).messages) <==> paired(p.messages),
{
    let ghost m = p.messages;
    let ghost c = &cfg.stale_reads;
    let ghost rule = stale_reads::read_rule(m, c);
    let ghost k = count_changes(m, rule);
    proof {
        reveal(after_stale_reads);
        stale_reads::law_stale_reads_scope(m, c);
        if k == 0 {
            law_no_change(m, rule);
        }
    }
    if cfg.stale_reads.enabled {
        let n: usize = stale_reads::apply_counted(messages, &cfg.stale_reads)?;
        push_stats(fired, "stale_reads", n, messages, prev_len, Ghost(m), Ghost(k));
    }
    Ok(())
}

fn step_simhash_dedup(
    messages: &mut Vec<Json>,
    cfg: &StrategiesConfig,
    fired: &mut Vec<Fired>,
    prev_len: &mut usize,
    Ghost(p): Ghost<Passage>,
) -> (r: Result<(), PairingError>)
    requires
        at(p, old(messages)@, old(fired)@, *old(prev_len)),
    ensures
        match r {
            Ok(()) => at(after_simhash_dedup(p, cfg), final(messages)@, final(fired)@, *final(prev_len)) && (
            paired(p.messages) || after_simhash_dedup(p, cfg).messages == p.messages),
            Err(e) => refused(p.messages, e) && views(final(messages)@) == p.messages,
        },
        paired(after_simhash_dedup(p, cfg).messages) <==> paired(p.messages),
{
    let ghost m = p.messages;
    let ghost c = &cfg.simhash_dedup;
    let ghost rule = simhash_dedup::near_rule(m, c);
    let ghost k = count_changes(m, rule);
    proof {
        reveal(after_simhash_dedup);
        simhash_dedup::law_simhash_dedup_scope(m, c);
        if k == 0 {
            law_no_change(m, rule);
        }
    }
    if cfg.simhash_dedup.enabled {
        let n: usize = simhash_dedup::apply_counted(messages, &cfg.simhash_dedup)?;
        push_stats(fired, "simhash_dedup", n, messages, prev_len, Ghost(m), Ghost(k));
    }
    Ok(())
}

fn step_bloat_cap(
    messages: &mut Vec<Json>,
    cfg: &StrategiesConfig,
    fired: &mut Vec<Fired>,
    prev_len: &mut usize,
    Ghost(p): Ghost<Passage>,
) -> (r: Result<(), PairingError>)
    requires
        at(p, old(messages)@, old(fired)@, *old(prev_len)),
    ensures
        match r {
            Ok(()) => at(after_bloat_cap(p, cfg), final(messages)@, final(fired)@, *final(prev_len)) && (
            paired(p.messages) || after_bloat_cap(p, cfg).messages == p.messages),
            Err(e) => refused(p.messages, e) && views(final(messages)@) == p.messages,
        },
        paired(after_bloat_cap(p, cfg).messages) <==> paired(p.messages),
{
    let ghost m = p.messages;
    let ghost c = &cfg.bloat_cap;
    let ghost rule = bloat_cap::bloat_rule(m, c);
    let ghost k = count_changes(m, rule);
    proof {
        reveal(after_bloat_cap);
        bloat_cap::law_bloat_cap_scope(m, c);
        if k == 0 {
            law_no_change(m, rule);
        }
    }
    if cfg.bloat_cap.enabled {
        let n: usize = bloat_cap::apply_counted(messages, &cfg.bloat_cap)?;
        push_stats(fired, "bloat_cap", n, messages, prev_len, Ghost(m), Ghost(k));
    }
    Ok(())
}

fn step_sliding_window(
    messages: &mut Vec<Json>,
    cfg: &StrategiesConfig,
    fired: &mut Vec<Fired>,
    prev_len: &mut usize,
    Ghost(p): Ghost<Passage>,
) -> (r: Result<(), PairingError>)
    requires
        at(p, old(messages)@, old(fired)@, *old(prev_len)),
    ensures
        match r {
            Ok(()) => at(after_sliding_window(p, cfg), final(messages)@, final(fired)@, *final(prev_len)) && (
            paired(p.messages) || after_sliding_window(p, cfg).messages == p.messages),
            Err(e) => refused(p.messages, e) && views(final(messages)@) == p.messages,
        },
        paired(after_sliding_window(p, cfg).messages) <==> paired(p.messages),
{
    let ghost m = p.messages;
    let ghost c = &cfg.sliding_window;
    let ghost k = count_changes(m, sliding_window::pair_rule(m, c));
    proof {
        reveal(after_sliding_window);
        sliding_window::law_sliding_window_scope(m, c);
        if k == 0 {
            sliding_window::law_sliding_window_no_change(m, c);
        }
    }
    if cfg.sliding_window.enabled {
        let n: usize = sliding_window::apply_counted(messages, &cfg.sliding_window)?;
        push_stats(fired, "sliding_window", n, messages, prev_len, Ghost(m), Ghost(k));
    }
    Ok(())
}

fn step_image_strip(
    messages: &mut Vec<Json>,
    cfg: &StrategiesConfig,
    fired: &mut Vec<Fired>,
    prev_len: &mut usize,
    Ghost(p): Ghost<Passage>,
) -> (r: Result<(), PairingError>)
    requires
        at(p, old(messages)@, old(fired)@, *old(prev_len)),
    ensures
        match r {
            Ok(()) => at(after_image_strip(p, cfg), final(messages)@, final(fired)@, *final(prev_len)) && (
            paired(p.messages) || after_image_strip(p, cfg).messages == p.messages),
            Err(e) => refused(p.messages, e) && views(final(messages)@) == p.messages,
        },
        paired(after_image_strip(p, cfg).messages) <==> paired(p.messages),
{
    let ghost m = p.messages;
    let ghost c = &cfg.image_strip;
    let ghost rule = image_strip::image_rule(m, c);
    let ghost k = count_changes(m, rule);
    proof {
        reveal(after_image_strip);
        image_strip::law_image_strip_scope(m, c);
        if k == 0 {
            law_no_change(m, rule);
        }
    }
    if cfg.image_strip.enabled {
        let n: usize = image_strip::apply_counted(messages, &cfg.image_strip)?;
        push_stats(fired, "image_strip", n, messages, prev_len, Ghost(m), Ghost(k));
    }
    Ok(())
}

fn step_thinking_strip(
    messages: &mut Vec<Json>,
    cfg: &StrategiesConfig,
    fired: &mut Vec<Fired>,
    prev_len: &mut usize,
    Ghost(p): Ghost<Passage>,
) -> (r: Result<(), PairingError>)
    requires
        at(p, old(messages)@, old(fired)@, *old(prev_len)),
    ensures
        match r {
            Ok(()) => at(after_thinking_strip(p, cfg), final(messages)@, final(fired)@, *final(prev_len)) && (
            paired(p.messages) || after_thinking_strip(p, cfg).messages == p.messages),
            Err(e) => refused(p.messages, e) && views(final(messages)@) == p.messages,
        },
        paired(after_thinking_strip(p, cfg).messages) <==> paired(p.messages),
{
    let ghost m = p.messages;
    let ghost c = &cfg.thinking_strip;
    let ghost what = thinking_strip::Removal::Thinking;
    let ghost upto = thinking_strip::old_messages(m, c);
    let ghost k = thinking_strip::total_lost(m.take(upto), what);
    proof {
        reveal(after_thinking_strip);
        thinking_strip::lemma_old_messages(m, c);
        thinking_strip::law_strip_pairing(m, what, upto);
        if k == 0 {
            thinking_strip::law_strip_no_change(m, what, upto);
        }
    }
    if cfg.thinking_strip.enabled {
        let n: usize = thinking_strip::apply_counted(messages, &cfg.thinking_strip)?;
        push_stats(fired, "thinking_strip", n, messages, prev_len, Ghost(m), Ghost(k));
    }
    Ok(())
}

/// Runs every enabled strategy in order and says what each did.
pub fn run(messages: &mut Vec<Json>, cfg: &Config) -> (r: Result<Vec<Fired>, PairingError>)
    ensures
        ({
            let before = views(old(messages)@);
            let after = views(final(messages)@);
            match r {
                Ok(fired) => paired(before) && after == passage(before, &cfg.strategies).messages
                    && fired_view(fired@) == passage(before, &cfg.strategies).fired,
                Err(e) => refused(before, e) && after == before,
            }
        }),
{
    let s = &cfg.strategies;
    let mut fired: Vec<Fired> = Vec::new();
    let mut len: usize = serialized_len(messages);
    let ghost p0 = Passage { messages: views(messages@), fired: Seq::empty() };
    assert(fired_view(fired@) =~= p0.fired);
    step_failed_input_purge(messages, s, &mut fired, &mut len, Ghost(p0))?;
    let ghost p1 = after_failed_input_purge(p0, s);
    step_stale_input_cap(messages, s, &mut fired, &mut len, Ghost(p1))?;
    let ghost p2 = after_stale_input_cap(p1, s);
    step_cross_turn_dedup(messages, s, &mut fired, &mut len, Ghost(p2))?;
    let ghost p3 = after_cross_turn_dedup(p2, s);
    step_stale_reads(messages, s, &mut fired, &mut len, Ghost(p3))?;
    let ghost p4 = after_stale_reads(p3, s);
    step_simhash_dedup(messages, s, &mut fired, &mut len, Ghost(p4))?;
    let ghost p5 = after_simhash_dedup(p4, s);
    step_bloat_cap(messages, s, &mut fired, &mut len, Ghost(p5))?;
    let ghost p6 = after_bloat_cap(p5, s);
    step_sliding_window(messages, s, &mut fired, &mut len, Ghost(p6))?;
    let ghost p7 = after_sliding_window(p6, s);
    step_image_strip(messages, s, &mut fired, &mut len, Ghost(p7))?;
    let ghost p8 = after_image_strip(p7, s);
    step_thinking_strip(messages, s, &mut fired, &mut len, Ghost(p8))?;
    let ghost p9 = after_thinking_strip(p8, s);
    let index = PairingIndex::build(messages);
    proof {
        lemma_describes_paired(index, views(messages@));
    }
    index.validate()?;
    Ok(fired)
}

/// What becomes of a request body.
pub enum BodyOutcome {
    /// The body stays as it came.
    Unchanged,
    /// The body changed: its new bytes, and what each strategy did.
    Mutated { bytes: Vec<u8>, fired: Vec<Fired> },
}

/// Whether a strategy changed something.
pub open spec fn some_stubbed(fired: Seq<(Seq<char>, Stats)>) -> bool {
    exists|i: int| 0 <= i < fired.len() && (#[trigger] fired[i]).1.stubbed > 0
}

/// A parsed body after the repair of a stray system message, if that is enabled.
pub open spec fn repaired(root: JsonView, cfg: &StrategiesConfig) -> JsonView {
    if cfg.system_shape_normalize.enabled {
        system_shape_normalize::normalized(root)
    } else {
        root
    }
}

/// A transcript after all strategies and without empty blocks.
pub open spec fn pruned(messages: Seq<JsonView>, cfg: &StrategiesConfig) -> Seq<JsonView> {
    let p = passage(messages, cfg).messages;
    thinking_strip::strip_until(p, thinking_strip::Removal::Empty, p.len() as int)
}

/// Whether the pruning of a repaired body changes anything.
pub open spec fn prunes(messages: Seq<JsonView>, cfg: &StrategiesConfig) -> bool {
    let p = passage(messages, cfg);
    some_stubbed(p.fired) || thinking_strip::total_lost(
        p.messages,
        thinking_strip::Removal::Empty,
    ) > 0
}

/// A pruned body that has been read, and what each strategy did; none where the body stays as it
/// came: it has no messages, has a result without its call, or nothing in it changes.
pub open spec fn pruned_root(root: JsonView, cfg: &StrategiesConfig) -> Option<
    (JsonView, Seq<(Seq<char>, Stats)>),
> {
    let root1 = repaired(root, cfg);
    let lifted = cfg.system_shape_normalize.enabled && system_shape_normalize::stray(root);
    match root1.get_array("messages"@) {
        Some(messages) => if paired(messages) && (lifted || prunes(messages, cfg)) {
            Some(
                (
                    root1.with("messages"@, JsonView::Array(pruned(messages, cfg))),
                    passage(messages, cfg).fired,
                ),
            )
        } else {
            None
        },
        None => None,
    }
}

/// The pruned body, and what each strategy did; none where the body stays as it came: it is not
/// JSON, or stays once it has been read.
pub open spec fn pruned_body(body: Seq<u8>, cfg: &StrategiesConfig) -> Option<
    (JsonView, Seq<(Seq<char>, Stats)>),
> {
    match parsed_json(body) {
        Some(root) => pruned_root(root, cfg),
        None => None,
    }
}

fn any_stubbed(fired: &Vec<Fired>) -> (r: bool)
    ensures
        r == some_stubbed(fired_view(fired@)),
{
    let ghost all = fired_view(fired@);
    let mut i: usize = 0;
    while i < fired.len()
        invariant
            i <= fired@.len(),
            all == fired_view(fired@),
            forall|j: int| 0 <= j < i ==> (#[trigger] all[j]).1.stubbed == 0,
        decreases fired@.len() - i,
    {
        if fired[i].1.stubbed > 0 {
            assert(all[i as int].1.stubbed > 0);
            return true;
        }
        i = i + 1;
    }
    false
}

/// Prunes the messages of a body and says what each strategy did and how many empty blocks went.
fn prune_root(root: &mut Json, cfg: &Config) -> (r: Option<(Vec<Fired>, usize)>)
    ensures
        match r {
            Some((fired, removed)) => old(root)@.get_array("messages"@) matches Some(messages)
                && paired(messages) && final(root)@ == old(root)@.with(
                "messages"@,
                JsonView::Array(pruned(messages, &cfg.strategies)),
            ) && fired_view(fired@) == passage(messages, &cfg.strategies).fired && removed == machine(
                thinking_strip::total_lost(
                    passage(messages, &cfg.strategies).messages,
                    thinking_strip::Removal::Empty,
                ),
            ),
            None => !(old(root)@.get_array("messages"@) matches Some(messages) && paired(messages))
                && final(root)@ == old(root)@,
        },
{
    proof {
        if root@.get("messages"@) is Some {
            lemma_set_same(root@, "messages"@);
        }
    }
    match root {
        Json::Object(m) => match m.get_mut("messages") {
            Some(v) => match v {
                Json::Array(messages) => match run(messages, cfg) {
                    Ok(fired) => {
                        proof {
                            lemma_views(messages@);
                        }
                        let removed: usize = thinking_strip::strip_empty(messages);
                        Some((fired, removed))
                    },
                    Err(_) => None,
                },
                _ => None,
            },
            None => None,
        },
        _ => None,
    }
}

/// Prunes a body that has been read, and says what each strategy did; none where the body is to be
/// forwarded as it came, and nothing is done to it but the repair.
pub fn apply_to_root(root: &mut Json, cfg: &Config) -> (r: Option<Vec<Fired>>)
    ensures
        match r {
            Some(fired) => pruned_root(old(root)@, &cfg.strategies) == Some(
                (final(root)@, fired_view(fired@)),
            ),
            None => pruned_root(old(root)@, &cfg.strategies) is None && final(root)@ == repaired(
                old(root)@,
                &cfg.strategies,
            ),
        },
{
    let lifted = cfg.strategies.system_shape_normalize.enabled && system_shape_normalize::normalize(
        root,
    );
    let ghost root1 = root@;
    let (fired, removed) = match prune_root(root, cfg) {
        Some(done) => done,
        None => return None,
    };
    if !any_stubbed(&fired) && removed == 0 && !lifted {
        proof {
            law_unchanged(root1.get_array("messages"@)->0, &cfg.strategies);
            lemma_set_same(root1, "messages"@);
        }
        return None;
    }
    Some(fired)
}

/// Prunes a request body. Where nothing changes, or something about the body is not in order, it
/// is to be forwarded as it came. A body that is written anew reads back as it was written, but for
/// its numbers.
pub fn apply_to_body(body: &[u8], cfg: &Config) -> (r: BodyOutcome)
    ensures
        match r {
            BodyOutcome::Mutated { bytes, fired } => pruned_body(body@, &cfg.strategies) matches Some(
                (root, all),
            ) && bytes@ == encode_utf8(json_text(root)) && fired_view(fired@) == all && read_alike(
                root,
                parsed_json(bytes@),
            ),
            BodyOutcome::Unchanged => pruned_body(body@, &cfg.strategies) is None,
        },
{
    let mut root = match Json::parse(body) {
        Some(root) => root,
        None => return BodyOutcome::Unchanged,
    };
    proof {
        law_pruned_nests(root@, &cfg.strategies, MAX_DEPTH as nat);
    }
    match apply_to_root(&mut root, cfg) {
        Some(fired) => {
            let text = root.to_text();
            BodyOutcome::Mutated { bytes: text.as_str().as_bytes_vec(), fired }
        },
        None => BodyOutcome::Unchanged,
    }
}

/// What no strategy counts as changed has not changed: a body for which nothing is counted holds
/// the transcript that it came with.
pub proof fn law_unchanged(messages: Seq<JsonView>, cfg: &StrategiesConfig)
    requires
        !prunes(messages, cfg),
    ensures
        pruned(messages, cfg) == messages,
{
    let p0 = Passage { messages, fired: Seq::empty() };
    let p1 = after_failed_input_purge(p0, cfg);
    let p2 = after_stale_input_cap(p1, cfg);
    let p3 = after_cross_turn_dedup(p2, cfg);
    let p4 = after_stale_reads(p3, cfg);
    let p5 = after_simhash_dedup(p4, cfg);
    let p6 = after_bloat_cap(p5, cfg);
    let p7 = after_sliding_window(p6, cfg);
    let p8 = after_image_strip(p7, cfg);
    let p9 = after_thinking_strip(p8, cfg);
    lemma_quiet_thinking_strip(p8, cfg);
    lemma_quiet_image_strip(p7, cfg);
    lemma_quiet_sliding_window(p6, cfg);
    lemma_quiet_bloat_cap(p5, cfg);
    lemma_quiet_simhash_dedup(p4, cfg);
    lemma_quiet_stale_reads(p3, cfg);
    lemma_quiet_cross_turn_dedup(p2, cfg);
    lemma_quiet_stale_input_cap(p1, cfg);
    lemma_quiet_failed_input_purge(p0, cfg);
    assert(p9.messages == messages);
    assert(messages.take(messages.len() as int) =~= messages);
    thinking_strip::law_strip_no_change(
        messages,
        thinking_strip::Removal::Empty,
        messages.len() as int,
    );
}

proof fn lemma_quiet_failed_input_purge(p: Passage, cfg: &StrategiesConfig)
    requires
        !some_stubbed(after_failed_input_purge(p, cfg).fired),
    ensures
        after_failed_input_purge(p, cfg).messages == p.messages,
        !some_stubbed(p.fired),
{
    reveal(after_failed_input_purge);
    let m = p.messages;
    let c = &cfg.failed_input_purge;
    let after = after_failed_input_purge(p, cfg);
    assert forall|i: int| 0 <= i < p.fired.len() implies (#[trigger] p.fired[i]).1.stubbed == 0 by {
        assert(after.fired[i] == p.fired[i]);
    }
    if c.enabled {
        assert(after.fired[p.fired.len() as int].1.stubbed == 0);
        law_no_change(m, failed_input_purge::purge_rule(m, c));
    }
}

proof fn lemma_quiet_stale_input_cap(p: Passage, cfg: &StrategiesConfig)
    requires
        !some_stubbed(after_stale_input_cap(p, cfg).fired),
    ensures
        after_stale_input_cap(p, cfg).messages == p.messages,
        !some_stubbed(p.fired),
{
    reveal(after_stale_input_cap);
    let m = p.messages;
    let c = &cfg.stale_input_cap;
    let after = after_stale_input_cap(p, cfg);
    assert forall|i: int| 0 <= i < p.fired.len() implies (#[trigger] p.fired[i]).1.stubbed == 0 by {
        assert(after.fired[i] == p.fired[i]);
    }
    if c.enabled {
        assert(after.fired[p.fired.len() as int].1.stubbed == 0);
        law_no_change(m, stale_input_cap::cap_rule(m, c));
    }
}

proof fn lemma_quiet_cross_turn_dedup(p: Passage, cfg: &StrategiesConfig)
    requires
        !some_stubbed(after_cross_turn_dedup(p, cfg).fired),
    ensures
        after_cross_turn_dedup(p, cfg).messages == p.messages,
        !some_stubbed(p.fired),
{
    reveal(after_cross_turn_dedup);
    let m = p.messages;
    let c = &cfg.cross_turn_dedup;
    let after = after_cross_turn_dedup(p, cfg);
    assert forall|i: int| 0 <= i < p.fired.len() implies (#[trigger] p.fired[i]).1.stubbed == 0 by {
        assert(after.fired[i] == p.fired[i]);
    }
    if c.enabled {
        assert(after.fired[p.fired.len() as int].1.stubbed == 0);
        cross_turn_dedup::law_cross_turn_dedup_no_change(m, c);
    }
}

proof fn lemma_quiet_stale_reads(p: Passage, cfg: &StrategiesConfig)
    requires
        !some_stubbed(after_stale_reads(p, cfg).fired),
    ensures
        after_stale_reads(p, cfg).messages == p.messages,
        !some_stubbed(p.fired),
{
    reveal(after_stale_reads);
    let m = p.messages;
    let c = &cfg.stale_reads;
    let after = after_stale_reads(p, cfg);
    assert forall|i: int| 0 <= i < p.fired.len() implies (#[trigger] p.fired[i]).1.stubbed == 0 by {
        assert(after.fired[i] == p.fired[i]);
    }
    if c.enabled {
        assert(after.fired[p.fired.len() as int].1.stubbed == 0);
        law_no_change(m, stale_reads::read_rule(m, c));
    }
}

proof fn lemma_quiet_simhash_dedup(p: Passage, cfg: &StrategiesConfig)
    requires
        !some_stubbed(after_simhash_dedup(p, cfg).fired),
    ensures
        after_simhash_dedup(p, cfg).messages == p.messages,
        !some_stubbed(p.fired),
{
    reveal(after_simhash_dedup);
    let m = p.messages;
    let c = &cfg.simhash_dedup;
    let after = after_simhash_dedup(p, cfg);
    assert forall|i: int| 0 <= i < p.fired.len() implies (#[trigger] p.fired[i]).1.stubbed == 0 by {
        assert(after.fired[i] == p.fired[i]);
    }
    if c.enabled {
        assert(after.fired[p.fired.len() as int].1.stubbed == 0);
        law_no_change(m, simhash_dedup::near_rule(m, c));
    }
}

proof fn lemma_quiet_bloat_cap(p: Passage, cfg: &StrategiesConfig)
    requires
        !some_stubbed(after_bloat_cap(p, cfg).fired),
    ensures
        after_bloat_cap(p, cfg).messages == p.messages,
        !some_stubbed(p.fired),
{
    reveal(after_bloat_cap);
    let m = p.messages;
    let c = &cfg.bloat_cap;
    let after = after_bloat_cap(p, cfg);
    assert forall|i: int| 0 <= i < p.fired.len() implies (#[trigger] p.fired[i]).1.stubbed == 0 by {
        assert(after.fired[i] == p.fired[i]);
    }
    if c.enabled {
        assert(after.fired[p.fired.len() as int].1.stubbed == 0);
        law_no_change(m, bloat_cap::bloat_rule(m, c));
    }
}

proof fn lemma_quiet_sliding_window(p: Passage, cfg: &StrategiesConfig)
    requires
        !some_stubbed(after_sliding_window(p, cfg).fired),
    ensures
        after_sliding_window(p, cfg).messages == p.messages,
        !some_stubbed(p.fired),
{
    reveal(after_sliding_window);
    let m = p.messages;
    let c = &cfg.sliding_window;
    let after = after_sliding_window(p, cfg);
    assert forall|i: int| 0 <= i < p.fired.len() implies (#[trigger] p.fired[i]).1.stubbed == 0 by {
        assert(after.fired[i] == p.fired[i]);
    }
    if c.enabled {
        assert(after.fired[p.fired.len() as int].1.stubbed == 0);
        sliding_window::law_sliding_window_no_change(m, c);
    }
}

proof fn lemma_quiet_image_strip(p: Passage, cfg: &StrategiesConfig)
    requires
        !some_stubbed(after_image_strip(p, cfg).fired),
    ensures
        after_image_strip(p, cfg).messages == p.messages,
        !some_stubbed(p.fired),
{
    reveal(after_image_strip);
    let m = p.messages;
    let c = &cfg.image_strip;
    let after = after_image_strip(p, cfg);
    assert forall|i: int| 0 <= i < p.fired.len() implies (#[trigger] p.fired[i]).1.stubbed == 0 by {
        assert(after.fired[i] == p.fired[i]);
    }
    if c.enabled {
        assert(after.fired[p.fired.len() as int].1.stubbed == 0);
        law_no_change(m, image_strip::image_rule(m, c));
    }
}

proof fn lemma_quiet_thinking_strip(p: Passage, cfg: &StrategiesConfig)
    requires
        !some_stubbed(after_thinking_strip(p, cfg).fired),
    ensures
        after_thinking_strip(p, cfg).messages == p.messages,
        !some_stubbed(p.fired),
{
    reveal(after_thinking_strip);
    let m = p.messages;
    let c = &cfg.thinking_strip;
    let after = after_thinking_strip(p, cfg);
    assert forall|i: int| 0 <= i < p.fired.len() implies (#[trigger] p.fired[i]).1.stubbed == 0 by {
        assert(after.fired[i] == p.fired[i]);
    }
    if c.enabled {
        assert(after.fired[p.fired.len() as int].1.stubbed == 0);
        thinking_strip::lemma_old_messages(m, c);
        thinking_strip::law_strip_no_change(m, thinking_strip::Removal::Thinking, thinking_strip::old_messages(m, c));
    }
}

/// The strategies neither add nor remove messages, and leave calls and results paired as they are.
pub proof fn law_passage_keeps(messages: Seq<JsonView>, cfg: &StrategiesConfig)
    ensures
        passage(messages, cfg).messages.len() == messages.len(),
        paired(passage(messages, cfg).messages) <==> paired(messages),
{
    let p0 = Passage { messages, fired: Seq::empty() };
    let p1 = after_failed_input_purge(p0, cfg);
    let p2 = after_stale_input_cap(p1, cfg);
    let p3 = after_cross_turn_dedup(p2, cfg);
    let p4 = after_stale_reads(p3, cfg);
    let p5 = after_simhash_dedup(p4, cfg);
    let p6 = after_bloat_cap(p5, cfg);
    let p7 = after_sliding_window(p6, cfg);
    let p8 = after_image_strip(p7, cfg);
    lemma_keeps_failed_input_purge(p0, cfg);
    lemma_keeps_stale_input_cap(p1, cfg);
    lemma_keeps_cross_turn_dedup(p2, cfg);
    lemma_keeps_stale_reads(p3, cfg);
    lemma_keeps_simhash_dedup(p4, cfg);
    lemma_keeps_bloat_cap(p5, cfg);
    lemma_keeps_sliding_window(p6, cfg);
    lemma_keeps_image_strip(p7, cfg);
    lemma_keeps_thinking_strip(p8, cfg);
}

proof fn lemma_keeps_failed_input_purge(p: Passage, cfg: &StrategiesConfig)
    ensures
        after_failed_input_purge(p, cfg).messages.len() == p.messages.len(),
        paired(after_failed_input_purge(p, cfg).messages) <==> paired(p.messages),
{
    reveal(after_failed_input_purge);
    failed_input_purge::law_failed_input_purge_scope(p.messages, &cfg.failed_input_purge);
}

proof fn lemma_keeps_stale_input_cap(p: Passage, cfg: &StrategiesConfig)
    ensures
        after_stale_input_cap(p, cfg).messages.len() == p.messages.len(),
        paired(after_stale_input_cap(p, cfg).messages) <==> paired(p.messages),
{
    reveal(after_stale_input_cap);
    stale_input_cap::law_stale_input_cap_scope(p.messages, &cfg.stale_input_cap);
}

proof fn lemma_keeps_cross_turn_dedup(p: Passage, cfg: &StrategiesConfig)
    ensures
        after_cross_turn_dedup(p, cfg).messages.len() == p.messages.len(),
        paired(after_cross_turn_dedup(p, cfg).messages) <==> paired(p.messages),
{
    reveal(after_cross_turn_dedup);
    cross_turn_dedup::law_cross_turn_dedup_scope(p.messages, &cfg.cross_turn_dedup);
}

proof fn lemma_keeps_stale_reads(p: Passage, cfg: &StrategiesConfig)
    ensures
        after_stale_reads(p, cfg).messages.len() == p.messages.len(),
        paired(after_stale_reads(p, cfg).messages) <==> paired(p.messages),
{
    reveal(after_stale_reads);
    stale_reads::law_stale_reads_scope(p.messages, &cfg.stale_reads);
}

proof fn lemma_keeps_simhash_dedup(p: Passage, cfg: &StrategiesConfig)
    ensures
        after_simhash_dedup(p, cfg).messages.len() == p.messages.len(),
        paired(after_simhash_dedup(p, cfg).messages) <==> paired(p.messages),
{
    reveal(after_simhash_dedup);
    simhash_dedup::law_simhash_dedup_scope(p.messages, &cfg.simhash_dedup);
}

proof fn lemma_keeps_bloat_cap(p: Passage, cfg: &StrategiesConfig)
    ensures
        after_bloat_cap(p, cfg).messages.len() == p.messages.len(),
        paired(after_bloat_cap(p, cfg).messages) <==> paired(p.messages),
{
    reveal(after_bloat_cap);
    bloat_cap::law_bloat_cap_scope(p.messages, &cfg.bloat_cap);
}

proof fn lemma_keeps_sliding_window(p: Passage, cfg: &StrategiesConfig)
    ensures
        after_sliding_window(p, cfg).messages.len() == p.messages.len(),
        paired(after_sliding_window(p, cfg).messages) <==> paired(p.messages),
{
    reveal(after_sliding_window);
    sliding_window::law_sliding_window_scope(p.messages, &cfg.sliding_window);
}

proof fn lemma_keeps_image_strip(p: Passage, cfg: &StrategiesConfig)
    ensures
        after_image_strip(p, cfg).messages.len() == p.messages.len(),
        paired(after_image_strip(p, cfg).messages) <==> paired(p.messages),
{
    reveal(after_image_strip);
    image_strip::law_image_strip_scope(p.messages, &cfg.image_strip);
}

proof fn lemma_keeps_thinking_strip(p: Passage, cfg: &StrategiesConfig)
    ensures
        after_thinking_strip(p, cfg).messages.len() == p.messages.len(),
        paired(after_thinking_strip(p, cfg).messages) <==> paired(p.messages),
{
    reveal(after_thinking_strip);
    thinking_strip::law_strip_pairing(
        p.messages,
        thinking_strip::Removal::Thinking,
        thinking_strip::old_messages(p.messages, &cfg.thinking_strip),
    );
}

} // verus!
