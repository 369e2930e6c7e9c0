//! What a cleanup leaves as it was.

use super::{
    all_dropped, all_purged, changes, cleaned, ends_line, failed_ids, joined, line_mentions,
    line_record, mentioned, mentioned_ids, no_empty_thinking, of_assistant, purgeable, purged_block,
    purged_blocks, purged_count, purged_message, purged_of, purged_record, record_blocks,
    record_lines, some_mention, sound, sound_line, sound_record, split_bytes, swept_bytes,
    swept_line, swept_lines, thinned, thinned_message, thinned_of, Mention,
};
use crate::json::{
    alike, lemma_alike_get, lemma_nests_get, lemma_nests_with, lemma_set_same, nests, read_alike,
    JsonView,
};
use crate::strategies::thinking_strip::{
    empty_thinking, goes, kept, lemma_kept_len, lemma_kept_nests, lemma_kept_twice, Removal,
};
use vstd::prelude::*;
use vstd::utf8::{char_is_scalar, char_u32_cast, encode_scalar, encode_utf8};

verus! {

pub proof fn lemma_split_len(s: Seq<u8>)
    ensures
        split_bytes(s).len() >= 1,
    decreases s.len(),
{
    if s.len() > 0 {
        lemma_split_len(s.drop_last());
    }
}

/// To join the lines of some bytes is to get the bytes back.
proof fn lemma_joined_split(s: Seq<u8>)
    ensures
        joined(split_bytes(s)) == s,
    decreases s.len(),
{
    if s.len() > 0 {
        let init = s.drop_last();
        let parts = split_bytes(init);
        lemma_split_len(init);
        lemma_joined_split(init);
        let all = split_bytes(s);
        assert(s =~= init.push(s.last()));
        if s.last() == 10 {
            assert(all.drop_last() =~= parts);
            assert(joined(all) =~= init.push(10));
        } else {
            assert(all.drop_last() =~= parts.drop_last());
            assert(all.last() == parts.last().push(s.last()));
            if parts.len() == 1 {
                assert(all.len() == 1);
                assert(joined(all) == parts[0].push(s.last()));
            } else {
                assert(joined(all) =~= (joined(parts.drop_last()).push(10) + parts.last()).push(
                    s.last(),
                ));
            }
        }
    } else {
        assert(joined(split_bytes(s)) =~= s);
    }
}

/// Whether some bytes hold no line feed.
pub open spec fn one_line(s: Seq<u8>) -> bool {
    forall|i: int| 0 <= i < s.len() ==> #[trigger] s[i] != 10
}

/// A text without line feeds is bytes without line feeds.
pub proof fn lemma_one_line(s: Seq<char>)
    requires
        forall|i: int| 0 <= i < s.len() ==> #[trigger] s[i] != '\n',
    ensures
        one_line(encode_utf8(s)),
        s.len() > 0 ==> encode_utf8(s).len() > 0,
    decreases s.len(),
{
    if s.len() > 0 {
        let rest = s.drop_first();
        assert forall|i: int| 0 <= i < rest.len() implies #[trigger] rest[i] != '\n' by {
            assert(rest[i] == s[i + 1]);
        }
        lemma_one_line(rest);
        assert(s[0] != '\n');
        let c: char = s[0];
        let u = c as u32;
        char_is_scalar(c);
        assert(u != 10) by {
            if u == 10 {
                char_u32_cast(c, 10);
            }
        }
        lemma_scalar_feed(u);
        let head = encode_scalar(u);
        assert forall|i: int| 0 <= i < encode_utf8(s).len() implies #[trigger] encode_utf8(s)[i]
            != 10 by {
            if i < head.len() {
                assert(head[i] != 10);
            } else {
                assert(encode_utf8(rest)[i - head.len()] != 10);
            }
        }
    }
}

proof fn lemma_scalar_feed(u: u32)
    requires
        u != 10,
        u <= 0x10FFFF,
    ensures
        one_line(encode_scalar(u)),
        encode_scalar(u).len() > 0,
{
    assert(u <= 0x7F && u != 10 ==> (u & 0x7F) as u8 != 10) by (bit_vector);
    assert((0x80 | (u & 0x3F) as u8) != 10) by (bit_vector);
    assert((0x80 | ((u >> 6) & 0x3F) as u8) != 10) by (bit_vector);
    assert((0x80 | ((u >> 12) & 0x3F) as u8) != 10) by (bit_vector);
    assert((0xC0 | ((u >> 6) & 0x1F) as u8) != 10) by (bit_vector);
    assert((0xE0 | ((u >> 12) & 0x0F) as u8) != 10) by (bit_vector);
    assert((0xF0 | ((u >> 18) & 0x07) as u8) != 10) by (bit_vector);
}

/// One line more after a line feed.
proof fn lemma_split_append(a: Seq<u8>, b: Seq<u8>)
    requires
        one_line(b),
    ensures
        split_bytes(a.push(10) + b) == split_bytes(a).push(b),
    decreases b.len(),
{
    let s = a.push(10) + b;
    if b.len() == 0 {
        assert(s =~= a.push(10));
        assert(s.drop_last() =~= a);
        assert(b =~= Seq::empty());
    } else {
        let c = b.drop_last();
        assert(one_line(c));
        lemma_split_append(a, c);
        assert(s.drop_last() =~= a.push(10) + c);
        assert(s.last() == b.last());
        assert(b[b.len() - 1] != 10);
        let parts = split_bytes(a).push(c);
        assert(parts.drop_last() =~= split_bytes(a));
        assert(c.push(b.last()) =~= b);
    }
}

pub proof fn lemma_split_one(b: Seq<u8>)
    requires
        one_line(b),
    ensures
        split_bytes(b) == seq![b],
    decreases b.len(),
{
    if b.len() == 0 {
        assert(b =~= Seq::empty());
    } else {
        let c = b.drop_last();
        assert(one_line(c));
        lemma_split_one(c);
        assert(b[b.len() - 1] != 10);
        assert(c.push(b.last()) =~= b);
        assert(split_bytes(b) =~= seq![b]);
    }
}

/// To split joined lines is to get the lines back.
proof fn lemma_split_joined(lines: Seq<Seq<u8>>)
    requires
        lines.len() > 0,
        forall|i: int| 0 <= i < lines.len() ==> one_line(#[trigger] lines[i]),
    ensures
        split_bytes(joined(lines)) == lines,
    decreases lines.len(),
{
    if lines.len() == 1 {
        lemma_split_one(lines[0]);
        assert(lines =~= seq![lines[0]]);
    } else {
        let init = lines.drop_last();
        assert forall|i: int| 0 <= i < init.len() implies one_line(#[trigger] init[i]) by {
            assert(init[i] == lines[i]);
        }
        lemma_split_joined(init);
        assert(one_line(lines[lines.len() - 1]));
        lemma_split_append(joined(init), lines.last());
        assert(init.push(lines.last()) =~= lines);
    }
}

proof fn lemma_lines_one(s: Seq<u8>)
    ensures
        forall|i: int| 0 <= i < split_bytes(s).len() ==> one_line(#[trigger] split_bytes(s)[i]),
    decreases s.len(),
{
    if s.len() > 0 {
        let parts = split_bytes(s.drop_last());
        lemma_split_len(s.drop_last());
        lemma_lines_one(s.drop_last());
        assert forall|i: int| 0 <= i < split_bytes(s).len() implies one_line(
            #[trigger] split_bytes(s)[i],
        ) by {
            if i < parts.len() - 1 {
                assert(split_bytes(s)[i] == parts[i]);
            } else if i == parts.len() - 1 {
                assert(one_line(parts[i]));
            }
        }
    }
}

proof fn lemma_none_change(lines: Seq<Seq<u8>>, failed: Set<Seq<char>>, i: int)
    requires
        all_dropped(lines) + all_purged(lines, failed) == 0,
        0 <= i < lines.len(),
    ensures
        !changes(lines[i], failed),
    decreases lines.len(),
{
    if i < lines.len() - 1 {
        lemma_none_change(lines.drop_last(), failed, i);
    }
}

proof fn lemma_no_change_counts(lines: Seq<Seq<u8>>, failed: Set<Seq<char>>)
    requires
        forall|i: int| 0 <= i < lines.len() ==> !changes(#[trigger] lines[i], failed),
    ensures
        all_dropped(lines) == 0,
        all_purged(lines, failed) == 0,
    decreases lines.len(),
{
    if lines.len() > 0 {
        let init = lines.drop_last();
        assert forall|i: int| 0 <= i < init.len() implies !changes(#[trigger] init[i], failed) by {
            assert(init[i] == lines[i]);
        }
        lemma_no_change_counts(init, failed);
        assert(!changes(lines[lines.len() - 1], failed));
    }
}

/// Where nothing goes, nothing changes: the cleanup of a clean record is the record, byte for byte.
pub proof fn law_clean_untouched(s: Seq<u8>, failed: Set<Seq<char>>)
    requires
        all_dropped(record_lines(s)) + all_purged(record_lines(s), failed) == 0,
    ensures
        swept_bytes(s, failed) == s,
{
    let lines = record_lines(s);
    assert forall|i: int| 0 <= i < lines.len() implies swept_line(lines[i], failed) == lines[i] by {
        lemma_none_change(lines, failed, i);
    }
    assert(swept_lines(lines, failed) =~= lines);
    if ends_line(s) {
        lemma_joined_split(s.drop_last());
        assert(s.drop_last().push(10) =~= s);
    } else {
        lemma_joined_split(s);
    }
}

/// Whether a line that is written anew is one line.
pub open spec fn stays_line(line: Seq<u8>, failed: Set<Seq<char>>) -> bool {
    let new = swept_line(line, failed);
    changes(line, failed) ==> new.len() > 0 && one_line(new)
}

/// Whether a line that is written anew is one line and reads back as what was written, but for its
/// numbers. So it is for every line of a record that `build_swept` cleans up.
pub open spec fn reads_back(line: Seq<u8>, failed: Set<Seq<char>>) -> bool {
    &&& stays_line(line, failed)
    &&& changes(line, failed) ==> read_alike(
        cleaned(line_record(line)->0, failed),
        line_record(swept_line(line, failed)),
    )
}

/// A cleanup goes line by line: the lines of the result are the lines of the record, each cleaned
/// up by itself, and one that does not change is the same byte for byte.
pub proof fn law_line_by_line(s: Seq<u8>, failed: Set<Seq<char>>)
    requires
        forall|i: int|
            0 <= i < record_lines(s).len() ==> stays_line(#[trigger] record_lines(s)[i], failed),
    ensures
        record_lines(swept_bytes(s, failed)) == swept_lines(record_lines(s), failed),
        ends_line(swept_bytes(s, failed)) == ends_line(s),
        forall|i: int|
            0 <= i < record_lines(s).len() && !changes(record_lines(s)[i], failed)
                ==> #[trigger] record_lines(swept_bytes(s, failed))[i] == record_lines(s)[i],
{
    let body = if ends_line(s) {
        s.drop_last()
    } else {
        s
    };
    let lines = record_lines(s);
    let new = swept_lines(lines, failed);
    let out = swept_bytes(s, failed);
    lemma_split_len(body);
    lemma_lines_one(body);
    assert forall|i: int| 0 <= i < new.len() implies one_line(#[trigger] new[i]) by {
        assert(stays_line(lines[i], failed));
    }
    lemma_split_joined(new);
    if ends_line(s) {
        assert(out.drop_last() =~= joined(new));
    } else {
        lemma_last_line(s);
        assert(stays_line(lines[lines.len() - 1], failed));
        lemma_joined_end(new);
    }
}

/// Without a line feed at the end, the last line is not blank unless there is nothing.
proof fn lemma_last_line(s: Seq<u8>)
    requires
        !ends_line(s),
    ensures
        s.len() > 0 ==> split_bytes(s).last().len() > 0,
        s.len() == 0 ==> split_bytes(s) == seq![Seq::<u8>::empty()],
{
}

proof fn lemma_joined_end(lines: Seq<Seq<u8>>)
    requires
        lines.len() > 0,
        one_line(lines[lines.len() - 1]),
        lines.len() == 1 || lines.last().len() > 0,
    ensures
        !ends_line(joined(lines)),
{
    let last = lines[lines.len() - 1];
    if lines.len() == 1 {
        if last.len() > 0 {
            assert(last[last.len() - 1] != 10);
        }
    } else {
        assert(last[last.len() - 1] != 10);
        assert(joined(lines).last() == last[last.len() - 1]);
    }
}

proof fn lemma_keys()
    ensures
        "input"@ != "type"@,
        "input"@ != "id"@,
        "input"@ != "tool_use_id"@,
        "input"@ != "is_error"@,
        "input"@ != "thinking"@,
        "message"@ != "type"@,
        "thinking"@ != "tool_use"@,
        "thinking"@ != "tool_result"@,
{
    reveal_strlit("input");
    reveal_strlit("type");
    reveal_strlit("id");
    reveal_strlit("tool_use_id");
    reveal_strlit("is_error");
    reveal_strlit("thinking");
    reveal_strlit("message");
    reveal_strlit("tool_use");
    reveal_strlit("tool_result");
    assert("input"@[0] == 'i' && "type"@[0] == 't' && "tool_use_id"@[0] == 't' && "thinking"@[0]
        == 't' && "message"@[0] == 'm');
    assert("input"@.len() == 5 && "id"@.len() == 2 && "is_error"@.len() == 8 && "thinking"@[1] == 'h'
        && "tool_use"@[1] == 'o' && "tool_result"@[1] == 'o');
}

/// A block mentions what it mentioned after its input went, and thinks what it thought.
proof fn lemma_purged_block(block: JsonView, failed: Set<Seq<char>>)
    ensures
        forall|m: Mention| mentioned(#[trigger] purged_block(block, failed), m) == mentioned(
            block,
            m,
        ),
        empty_thinking(purged_block(block, failed)) == empty_thinking(block),
        !purgeable(purged_block(block, failed), failed),
{
    lemma_keys();
    let new = purged_block(block, failed);
    assert(new.get("type"@) == block.get("type"@));
    assert(new.get("id"@) == block.get("id"@));
    assert(new.get("tool_use_id"@) == block.get("tool_use_id"@));
    assert(new.get("is_error"@) == block.get("is_error"@));
    assert(new.get("thinking"@) == block.get("thinking"@));
    if purgeable(block, failed) {
        assert(new.get("input"@) == Some(JsonView::Object(Map::empty())));
    }
}

proof fn lemma_nothing_goes(blocks: Seq<JsonView>)
    requires
        forall|i: int| 0 <= i < blocks.len() ==> !empty_thinking(#[trigger] blocks[i]),
    ensures
        kept(blocks, Removal::EmptyThinking) == blocks,
    decreases blocks.len(),
{
    if blocks.len() > 0 {
        let init = blocks.drop_last();
        assert forall|i: int| 0 <= i < init.len() implies !empty_thinking(#[trigger] init[i]) by {
            assert(init[i] == blocks[i]);
        }
        lemma_nothing_goes(init);
        assert(!empty_thinking(blocks[blocks.len() - 1]));
        assert(init.push(blocks.last()) =~= blocks);
    } else {
        assert(kept(blocks, Removal::EmptyThinking) =~= blocks);
    }
}

/// Thinking mentions no id, so that none is lost with it.
proof fn lemma_kept_mentions(blocks: Seq<JsonView>, m: Mention, id: Seq<char>)
    ensures
        some_mention(kept(blocks, Removal::EmptyThinking), m, id) == some_mention(blocks, m, id),
    decreases blocks.len(),
{
    if blocks.len() > 0 {
        let r = Removal::EmptyThinking;
        let init = blocks.drop_last();
        let last = blocks.last();
        lemma_kept_mentions(init, m, id);
        lemma_keys();
        lemma_mention_push(init, last, m, id);
        assert(init.push(last) =~= blocks);
        if goes(r, last) {
            assert(mentioned(last, m) is None);
        } else {
            lemma_mention_push(kept(init, r), last, m, id);
        }
    }
}

proof fn lemma_mention_push(blocks: Seq<JsonView>, block: JsonView, m: Mention, id: Seq<char>)
    ensures
        some_mention(blocks.push(block), m, id) <==> some_mention(blocks, m, id) || mentioned(
            block,
            m,
        ) == Some(id),
{
    let all = blocks.push(block);
    if some_mention(blocks, m, id) {
        let k = choose|k: int|
            0 <= k < blocks.len() && mentioned(#[trigger] blocks[k], m) == Some(id);
        assert(mentioned(all[k], m) == Some(id));
    }
    assert(all[blocks.len() as int] == block);
    if some_mention(all, m, id) && mentioned(block, m) != Some(id) {
        let k = choose|k: int| 0 <= k < all.len() && mentioned(#[trigger] all[k], m) == Some(id);
        assert(mentioned(blocks[k], m) == Some(id));
    }
}

proof fn lemma_purged_mentions(
    blocks: Seq<JsonView>,
    failed: Set<Seq<char>>,
    m: Mention,
    id: Seq<char>,
)
    ensures
        some_mention(purged_blocks(blocks, failed), m, id) == some_mention(blocks, m, id),
{
    let new = purged_blocks(blocks, failed);
    assert forall|i: int| 0 <= i < blocks.len() implies mentioned(#[trigger] new[i], m) == mentioned(
        blocks[i],
        m,
    ) by {
        lemma_purged_block(blocks[i], failed);
    }
    if some_mention(blocks, m, id) {
        let k = choose|k: int|
            0 <= k < blocks.len() && mentioned(#[trigger] blocks[k], m) == Some(id);
        assert(mentioned(new[k], m) == Some(id));
    }
    if some_mention(new, m, id) {
        let k = choose|k: int| 0 <= k < new.len() && mentioned(#[trigger] new[k], m) == Some(id);
        assert(mentioned(blocks[k], m) == Some(id));
    }
}

proof fn lemma_purged_count(blocks: Seq<JsonView>, failed: Set<Seq<char>>)
    requires
        forall|i: int| 0 <= i < blocks.len() ==> !purgeable(#[trigger] blocks[i], failed),
    ensures
        purged_count(blocks, failed) == 0,
    decreases blocks.len(),
{
    if blocks.len() > 0 {
        let init = blocks.drop_last();
        assert forall|i: int| 0 <= i < init.len() implies !purgeable(#[trigger] init[i], failed) by {
            assert(init[i] == blocks[i]);
        }
        lemma_purged_count(init, failed);
        assert(!purgeable(blocks[blocks.len() - 1], failed));
    }
}

/// Blocks that are alike mention the same, think the same, and are purged alike.
proof fn lemma_alike_block(a: JsonView, b: JsonView, failed: Set<Seq<char>>)
    requires
        alike(a, b),
    ensures
        forall|m: Mention| #[trigger] mentioned(a, m) == mentioned(b, m),
        empty_thinking(a) == empty_thinking(b),
        purgeable(a, failed) == purgeable(b, failed),
{
    lemma_alike_get(a, b, "type"@);
    lemma_alike_get(a, b, "id"@);
    lemma_alike_get(a, b, "tool_use_id"@);
    lemma_alike_get(a, b, "is_error"@);
    lemma_alike_get(a, b, "thinking"@);
    lemma_alike_get(a, b, "input"@);
    let none = Map::<Seq<char>, JsonView>::empty();
    if let (Some(JsonView::Object(m)), Some(JsonView::Object(n))) = (
        a.get("input"@),
        b.get("input"@),
    ) {
        if m == none {
            assert(n =~= none);
        }
        if n == none {
            assert(m =~= none);
        }
    }
}

/// Whether the blocks of two sequences are alike, one by one.
spec fn alike_blocks(a: Seq<JsonView>, b: Seq<JsonView>) -> bool {
    a.len() == b.len() && forall|i: int| 0 <= i < a.len() ==> alike(#[trigger] a[i], b[i])
}

/// Of blocks that are alike as many go.
proof fn lemma_alike_counts(a: Seq<JsonView>, b: Seq<JsonView>, failed: Set<Seq<char>>)
    requires
        alike_blocks(a, b),
    ensures
        kept(a, Removal::EmptyThinking).len() == kept(b, Removal::EmptyThinking).len(),
        purged_count(a, failed) == purged_count(b, failed),
    decreases a.len(),
{
    if a.len() > 0 {
        let x = a.drop_last();
        let y = b.drop_last();
        assert forall|i: int| 0 <= i < x.len() implies alike(#[trigger] x[i], y[i]) by {
            assert(alike(a[i], b[i]));
        }
        lemma_alike_counts(x, y, failed);
        assert(alike(a[a.len() - 1], b[b.len() - 1]));
        lemma_alike_block(a.last(), b.last(), failed);
    }
}

/// Whether a record mentions an id.
spec fn record_mentions(rec: JsonView, m: Mention, id: Seq<char>) -> bool {
    record_blocks(rec) matches Some(blocks) && some_mention(blocks, m, id)
}

/// Records that are alike mention the same, lose the same, and are sound alike.
proof fn lemma_alike_record(v: JsonView, w: JsonView, failed: Set<Seq<char>>)
    requires
        alike(v, w),
    ensures
        thinned_of(v) == thinned_of(w),
        purged_of(v, failed) == purged_of(w, failed),
        sound_record(v) == sound_record(w),
        forall|m: Mention, id: Seq<char>| #[trigger]
            record_mentions(v, m, id) == record_mentions(w, m, id),
{
    lemma_alike_get(v, w, "type"@);
    lemma_alike_get(v, w, "message"@);
    if let (Some(x), Some(y)) = (v.get("message"@), w.get("message"@)) {
        lemma_alike_get(x, y, "content"@);
    }
    if let (Some(a), Some(b)) = (record_blocks(v), record_blocks(w)) {
        assert(alike_blocks(a, b));
        lemma_alike_counts(a, b, failed);
        assert forall|i: int| 0 <= i < a.len() implies empty_thinking(#[trigger] a[i])
            == empty_thinking(b[i]) && (forall|m: Mention| #[trigger]
            mentioned(a[i], m) == mentioned(b[i], m)) by {
            lemma_alike_block(a[i], b[i], failed);
        }
        assert(no_empty_thinking(a) == no_empty_thinking(b)) by {
            if no_empty_thinking(a) {
                assert forall|i: int| 0 <= i < b.len() implies !empty_thinking(#[trigger] b[i]) by {
                    assert(!empty_thinking(a[i]));
                }
            }
            if no_empty_thinking(b) {
                assert forall|i: int| 0 <= i < a.len() implies !empty_thinking(#[trigger] a[i]) by {
                    assert(!empty_thinking(b[i]));
                }
            }
        }
        assert forall|m: Mention, id: Seq<char>| #[trigger] some_mention(a, m, id) == some_mention(
            b,
            m,
            id,
        ) by {
            if some_mention(a, m, id) {
                let k = choose|k: int| 0 <= k < a.len() && mentioned(#[trigger] a[k], m) == Some(id);
                assert(mentioned(b[k], m) == Some(id));
            }
            if some_mention(b, m, id) {
                let k = choose|k: int| 0 <= k < b.len() && mentioned(#[trigger] b[k], m) == Some(id);
                assert(mentioned(a[k], m) == Some(id));
            }
        }
    }
}

/// A record from which no thinking goes is as it was after thinking went.
proof fn lemma_unthinned(rec: JsonView)
    requires
        thinned_of(rec) == 0,
    ensures
        thinned(rec) == rec,
{
    if let Some(blocks) = record_blocks(rec) {
        if of_assistant(rec) && kept(blocks, Removal::EmptyThinking).len() > 0 {
            lemma_kept_len(blocks, Removal::EmptyThinking);
            lemma_all_stay(blocks);
            lemma_nothing_goes(blocks);
        }
    }
    lemma_thinned_same(rec);
}

/// A record that does not nest too deep does not once it is cleaned up, as long as an input may
/// stand in a block.
pub proof fn lemma_cleaned_nests(rec: JsonView, failed: Set<Seq<char>>, depth: nat)
    requires
        nests(rec, depth),
        depth >= 5,
    ensures
        nests(cleaned(rec, failed), depth),
{
    let empty = JsonView::Object(Map::empty());
    if let Some(msg) = rec.get("message"@) {
        lemma_nests_get(rec, "message"@, depth);
        if let Some(blocks) = msg.get_array("content"@) {
            let d = (depth - 1) as nat;
            lemma_nests_get(msg, "content"@, d);
            let stay = kept(blocks, Removal::EmptyThinking);
            lemma_kept_nests(blocks, Removal::EmptyThinking, (d - 2) as nat);
            assert(nests(JsonView::Array(stay), (d - 1) as nat));
            lemma_nests_with(msg, "content"@, JsonView::Array(stay), d);
        }
        let thin = thinned_message(msg);
        lemma_nests_with(rec, "message"@, thin, depth);
        let one = thinned(rec);
        if let Some(msg) = one.get("message"@) {
            lemma_nests_get(one, "message"@, depth);
            if let Some(blocks) = msg.get_array("content"@) {
                let d = (depth - 1) as nat;
                lemma_nests_get(msg, "content"@, d);
                let new = purged_blocks(blocks, failed);
                assert forall|i: int| 0 <= i < new.len() implies nests(
                    #[trigger] new[i],
                    (d - 2) as nat,
                ) by {
                    assert(nests(blocks[i], (d - 2) as nat));
                    lemma_nests_with(blocks[i], "input"@, empty, (d - 2) as nat);
                }
                assert(nests(JsonView::Array(new), (d - 1) as nat));
                lemma_nests_with(msg, "content"@, JsonView::Array(new), d);
            }
            lemma_nests_with(one, "message"@, purged_message(msg, failed), depth);
        }
    }
}

/// The blocks of a cleaned record.
pub open spec fn cleaned_blocks(blocks: Seq<JsonView>, failed: Set<Seq<char>>) -> Seq<JsonView> {
    let stay = kept(blocks, Removal::EmptyThinking);
    purged_blocks(
        if stay.len() > 0 {
            stay
        } else {
            blocks
        },
        failed,
    )
}

/// A cleanup of a record is one of its blocks, and only where the assistant speaks.
proof fn lemma_cleaned(rec: JsonView, failed: Set<Seq<char>>)
    ensures
        !of_assistant(rec) || record_blocks(rec) is None ==> cleaned(rec, failed) == rec,
        of_assistant(cleaned(rec, failed)) == of_assistant(rec),
        record_blocks(rec) is None ==> record_blocks(cleaned(rec, failed)) is None,
        of_assistant(rec) && record_blocks(rec) is Some ==> record_blocks(cleaned(rec, failed))
            == Some(cleaned_blocks(record_blocks(rec)->0, failed)),
{
    lemma_keys();
    if rec.get("message"@) is Some && of_assistant(rec) {
        let msg = rec.get("message"@)->0;
        lemma_set_same(rec, "message"@);
        let one = thinned(rec);
        assert(one.get("message"@) == Some(thinned_message(msg)));
        assert(one.get("type"@) == rec.get("type"@));
        let two = purged_record(one, failed);
        assert(two.get("message"@) == Some(purged_message(thinned_message(msg), failed)));
        assert(two.get("type"@) == rec.get("type"@));
        match msg.get_array("content"@) {
            Some(blocks) => {
                let thin = thinned_message(msg);
                let stay = kept(blocks, Removal::EmptyThinking);
                assert(thin.get_array("content"@) == Some(
                    if stay.len() > 0 {
                        stay
                    } else {
                        blocks
                    },
                ));
                assert(purged_message(thin, failed).get_array("content"@) == Some(
                    cleaned_blocks(blocks, failed),
                ));
            },
            None => {
                assert(thinned_message(msg) == msg);
                lemma_set_same(one, "message"@);
            },
        }
    }
}

/// A record that was cleaned up is clean.
pub proof fn law_record_cleaned_once(rec: JsonView, failed: Set<Seq<char>>)
    ensures
        thinned_of(cleaned(rec, failed)) == 0,
        thinned(cleaned(rec, failed)) == cleaned(rec, failed),
        purged_of(cleaned(rec, failed), failed) == 0,
{
    let new = cleaned(rec, failed);
    lemma_cleaned(rec, failed);
    match record_blocks(rec) {
        Some(blocks) => if of_assistant(rec) {
            let r = Removal::EmptyThinking;
            let stay = kept(blocks, r);
            let base = if stay.len() > 0 {
                stay
            } else {
                blocks
            };
            let all = cleaned_blocks(blocks, failed);
            assert forall|i: int| 0 <= i < all.len() implies !purgeable(#[trigger] all[i], failed)
                && empty_thinking(all[i]) == empty_thinking(base[i]) by {
                lemma_purged_block(base[i], failed);
            }
            lemma_purged_count(all, failed);
            lemma_kept_twice(blocks, Removal::EmptyThinking);
            if stay.len() > 0 {
                assert forall|i: int| 0 <= i < all.len() implies !empty_thinking(
                    #[trigger] all[i],
                ) by {
                    assert(!goes(r, stay[i]));
                }
                lemma_nothing_goes(all);
            } else {
                lemma_all_go(blocks);
                assert forall|i: int| 0 <= i < all.len() implies empty_thinking(
                    #[trigger] all[i],
                ) by {
                    assert(empty_thinking(blocks[i]));
                }
                lemma_none_stay(all);
            }
            lemma_thinned_same(new);
        },
        None => {
            lemma_thinned_same(new);
        },
    }
}

proof fn lemma_all_go(blocks: Seq<JsonView>)
    requires
        kept(blocks, Removal::EmptyThinking).len() == 0,
    ensures
        forall|i: int| 0 <= i < blocks.len() ==> empty_thinking(#[trigger] blocks[i]),
    decreases blocks.len(),
{
    if blocks.len() > 0 {
        let init = blocks.drop_last();
        lemma_all_go(init);
        assert forall|i: int| 0 <= i < blocks.len() implies empty_thinking(#[trigger] blocks[i]) by {
            if i < init.len() {
                assert(empty_thinking(init[i]));
            }
        }
    }
}

proof fn lemma_none_stay(blocks: Seq<JsonView>)
    requires
        forall|i: int| 0 <= i < blocks.len() ==> empty_thinking(#[trigger] blocks[i]),
    ensures
        kept(blocks, Removal::EmptyThinking).len() == 0,
    decreases blocks.len(),
{
    if blocks.len() > 0 {
        let init = blocks.drop_last();
        assert forall|i: int| 0 <= i < init.len() implies empty_thinking(#[trigger] init[i]) by {
            assert(init[i] == blocks[i]);
        }
        lemma_none_stay(init);
        assert(empty_thinking(blocks[blocks.len() - 1]));
    }
}

/// Where nothing goes, a record stays as it is.
proof fn lemma_thinned_same(rec: JsonView)
    requires
        record_blocks(rec) matches Some(blocks) ==> !of_assistant(rec) || kept(
            blocks,
            Removal::EmptyThinking,
        ) == blocks || kept(blocks, Removal::EmptyThinking).len() == 0,
    ensures
        thinned(rec) == rec,
        thinned_of(rec) == 0,
{
    if rec.get("message"@) is Some {
        let msg = rec.get("message"@)->0;
        lemma_set_same(rec, "message"@);
        if msg.get_array("content"@) is Some {
            lemma_set_same(msg, "content"@);
        }
    }
}

/// A cleanup loses no message's last block: where there was one, there is one.
pub proof fn law_never_emptied(rec: JsonView, failed: Set<Seq<char>>)
    ensures
        record_blocks(rec) is Some <==> record_blocks(cleaned(rec, failed)) is Some,
        record_blocks(rec) matches Some(blocks) && blocks.len() > 0 ==> record_blocks(
            cleaned(rec, failed),
        )->0.len() > 0,
{
    lemma_cleaned(rec, failed);
}

/// A cleanup changes only what the assistant said.
pub proof fn law_others_untouched(rec: JsonView, failed: Set<Seq<char>>)
    requires
        !of_assistant(rec),
    ensures
        cleaned(rec, failed) == rec,
{
    lemma_cleaned(rec, failed);
}

proof fn lemma_cleaned_mentions(rec: JsonView, failed: Set<Seq<char>>, m: Mention, id: Seq<char>)
    ensures
        (record_blocks(cleaned(rec, failed)) matches Some(blocks) && some_mention(blocks, m, id))
            == (record_blocks(rec) matches Some(blocks) && some_mention(blocks, m, id)),
{
    lemma_cleaned(rec, failed);
    if let Some(blocks) = record_blocks(rec) {
        if of_assistant(rec) {
            let stay = kept(blocks, Removal::EmptyThinking);
            lemma_kept_mentions(blocks, m, id);
            lemma_purged_mentions(stay, failed, m, id);
            lemma_purged_mentions(blocks, failed, m, id);
        }
    }
}

/// A cleanup loses no call and no result: the record mentions what it mentioned, so that every
/// result that had its call still has it.
pub proof fn law_mentions_kept(s: Seq<u8>, failed: Set<Seq<char>>, m: Mention)
    requires
        forall|i: int|
            0 <= i < record_lines(s).len() ==> reads_back(#[trigger] record_lines(s)[i], failed),
    ensures
        mentioned_ids(record_lines(swept_bytes(s, failed)), m) == mentioned_ids(record_lines(s), m),
{
    let lines = record_lines(s);
    let new = record_lines(swept_bytes(s, failed));
    assert forall|i: int| 0 <= i < lines.len() implies stays_line(#[trigger] lines[i], failed) by {
        assert(reads_back(lines[i], failed));
    }
    law_line_by_line(s, failed);
    assert forall|i: int, id: Seq<char>| 0 <= i < lines.len() implies line_mentions(
        #[trigger] new[i],
        m,
        id,
    ) == #[trigger] line_mentions(lines[i], m, id) by {
        assert(reads_back(lines[i], failed));
        if changes(lines[i], failed) {
            let rec = cleaned(line_record(lines[i])->0, failed);
            lemma_cleaned_mentions(line_record(lines[i])->0, failed, m, id);
            lemma_alike_record(rec, line_record(new[i])->0, failed);
            assert(record_mentions(rec, m, id) == record_mentions(line_record(new[i])->0, m, id));
        }
    }
    assert forall|id: Seq<char>| mentioned_ids(new, m).contains(id) == mentioned_ids(
        lines,
        m,
    ).contains(id) by {
        if mentioned_ids(lines, m).contains(id) {
            let k = choose|k: int| 0 <= k < lines.len() && line_mentions(#[trigger] lines[k], m, id);
            assert(line_mentions(new[k], m, id));
        }
        if mentioned_ids(new, m).contains(id) {
            let k = choose|k: int| 0 <= k < new.len() && line_mentions(#[trigger] new[k], m, id);
            assert(line_mentions(lines[k], m, id));
        }
    }
    assert(mentioned_ids(new, m) =~= mentioned_ids(lines, m));
}

/// To clean up what was cleaned up changes nothing: nothing more goes, and the bytes stay the same.
pub proof fn law_swept_once(s: Seq<u8>)
    requires
        forall|i: int|
            0 <= i < record_lines(s).len() ==> reads_back(
                #[trigger] record_lines(s)[i],
                failed_ids(record_lines(s)),
            ),
    ensures
        ({
            let once = swept_bytes(s, failed_ids(record_lines(s)));
            let failed = failed_ids(record_lines(once));
            &&& failed == failed_ids(record_lines(s))
            &&& all_dropped(record_lines(once)) == 0
            &&& all_purged(record_lines(once), failed) == 0
            &&& swept_bytes(once, failed) == once
        }),
{
    let lines = record_lines(s);
    let failed = failed_ids(lines);
    let once = swept_bytes(s, failed);
    let new = record_lines(once);
    law_mentions_kept(s, failed, Mention::Failure);
    assert forall|i: int| 0 <= i < lines.len() implies stays_line(#[trigger] lines[i], failed) by {
        assert(reads_back(lines[i], failed));
    }
    law_line_by_line(s, failed);
    assert forall|i: int| 0 <= i < new.len() implies !changes(#[trigger] new[i], failed) by {
        assert(reads_back(lines[i], failed));
        if changes(lines[i], failed) {
            let rec = cleaned(line_record(lines[i])->0, failed);
            law_record_cleaned_once(line_record(lines[i])->0, failed);
            lemma_alike_record(rec, line_record(new[i])->0, failed);
            lemma_unthinned(line_record(new[i])->0);
        }
    }
    lemma_no_change_counts(new, failed);
    law_clean_untouched(once, failed);
}

/// Whether a cleanup makes a record one that can be sent again: a message with blocks has some, and
/// thinking without content stands only where the assistant says something else besides.
pub open spec fn curable(rec: JsonView) -> bool {
    match record_blocks(rec) {
        Some(blocks) => blocks.len() > 0 && (no_empty_thinking(blocks) || (of_assistant(rec)
            && kept(blocks, Removal::EmptyThinking).len() > 0)),
        None => true,
    }
}

/// Where as many blocks stay as there were, none goes.
proof fn lemma_all_stay(blocks: Seq<JsonView>)
    requires
        kept(blocks, Removal::EmptyThinking).len() == blocks.len(),
    ensures
        no_empty_thinking(blocks),
    decreases blocks.len(),
{
    if blocks.len() > 0 {
        let init = blocks.drop_last();
        lemma_kept_len(init, Removal::EmptyThinking);
        lemma_all_stay(init);
        assert forall|i: int| 0 <= i < blocks.len() implies !empty_thinking(#[trigger] blocks[i]) by {
            if i < init.len() {
                assert(!empty_thinking(init[i]));
            }
        }
    }
}

proof fn lemma_cured(rec: JsonView, failed: Set<Seq<char>>)
    requires
        curable(rec),
    ensures
        sound_record(cleaned(rec, failed)),
        thinned_of(rec) == 0 ==> sound_record(rec),
{
    lemma_cleaned(rec, failed);
    if let Some(blocks) = record_blocks(rec) {
        let stay = kept(blocks, Removal::EmptyThinking);
        lemma_kept_len(blocks, Removal::EmptyThinking);
        lemma_kept_twice(blocks, Removal::EmptyThinking);
        if thinned_of(rec) == 0 && of_assistant(rec) && stay.len() > 0 {
            lemma_all_stay(blocks);
        }
        if of_assistant(rec) {
            let base = if stay.len() > 0 {
                stay
            } else {
                blocks
            };
            let all = cleaned_blocks(blocks, failed);
            assert forall|i: int| 0 <= i < all.len() implies !empty_thinking(#[trigger] all[i]) by {
                lemma_purged_block(base[i], failed);
                if stay.len() > 0 {
                    assert(!goes(Removal::EmptyThinking, stay[i]));
                }
            }
        }
    }
}

/// Whether a cleanup makes some lines a record that can be sent again: every line is blank or JSON,
/// every result has its call, and no message is empty or nothing but thinking without content.
pub open spec fn mendable(lines: Seq<Seq<u8>>) -> bool {
    &&& forall|i: int|
        0 <= i < lines.len() && (#[trigger] lines[i]).len() > 0 ==> (line_record(
            lines[i],
        ) matches Some(rec) && curable(rec))
    &&& mentioned_ids(lines, Mention::Answer).subset_of(mentioned_ids(lines, Mention::Call))
}

/// A record in which every line is blank or JSON, every result has its call, and no message is
/// empty or nothing but thinking without content, can be sent again once it is cleaned up.
pub proof fn law_swept_sound(s: Seq<u8>, failed: Set<Seq<char>>)
    requires
        forall|i: int|
            0 <= i < record_lines(s).len() ==> reads_back(#[trigger] record_lines(s)[i], failed),
        mendable(record_lines(s)),
    ensures
        sound(record_lines(swept_bytes(s, failed))),
{
    let lines = record_lines(s);
    let new = record_lines(swept_bytes(s, failed));
    law_mentions_kept(s, failed, Mention::Answer);
    law_mentions_kept(s, failed, Mention::Call);
    assert forall|i: int| 0 <= i < lines.len() implies stays_line(#[trigger] lines[i], failed) by {
        assert(reads_back(lines[i], failed));
    }
    law_line_by_line(s, failed);
    assert forall|i: int| 0 <= i < new.len() implies sound_line(#[trigger] new[i]) by {
        assert(reads_back(lines[i], failed));
        if lines[i].len() > 0 {
            lemma_cured(line_record(lines[i])->0, failed);
            if changes(lines[i], failed) {
                let rec = cleaned(line_record(lines[i])->0, failed);
                lemma_alike_record(rec, line_record(new[i])->0, failed);
            }
        }
    }
}

} // verus!
