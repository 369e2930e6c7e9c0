//! What a cleanup is for, said of the bytes, the records and their blocks themselves.

use super::backup::{backup_prefix, later, BAK_RETAIN};
use super::laws::{lemma_split_len, lemma_split_one};
use super::{
    all_dropped, all_purged, dropped_in, failed_ids, interference, joined, line_mentions,
    line_record, mentioned_ids, prefix_uuids, purgeable, purged_blocks, purged_count, purged_in,
    purged_of, purged_record, record_blocks, record_lines, some_mention, sound, sound_line,
    split_bytes, swept_bytes, swept_line, swept_lines, thinned, thinned_of, uuids, Mention,
};
use crate::json::{json_text, lemma_set_same, parsed_json, JsonView};
use crate::pairing_laws::{answers_as, calls_as};
use crate::strategies::purpose::thinking::{law_kept, staying, typed, worded};
use crate::strategies::thinking_strip::Removal;
use vstd::prelude::*;
use vstd::utf8::encode_utf8;

verus! {

/// Bytes are split at each line feed and nowhere else. A line feed at the very end begins no line.
pub proof fn law_record_lines(a: Seq<u8>, b: Seq<u8>)
    ensures
        record_lines(a.push(10)) == split_bytes(a),
        a.len() == 0 || a.last() != 10 ==> record_lines(a) == split_bytes(a),
        (forall|i: int| 0 <= i < a.len() ==> #[trigger] a[i] != 10) ==> split_bytes(a) == seq![a],
        split_bytes(a + seq![10u8] + b) == split_bytes(a) + split_bytes(b),
    decreases b.len(),
{
    assert(a.push(10).drop_last() =~= a);
    if forall|i: int| 0 <= i < a.len() ==> #[trigger] a[i] != 10 {
        lemma_split_one(a);
    }
    let s = a + seq![10u8] + b;
    if b.len() == 0 {
        assert(s.drop_last() =~= a);
        assert(split_bytes(s) =~= split_bytes(a) + split_bytes(b));
    } else {
        let c = b.drop_last();
        law_record_lines(a, c);
        lemma_split_len(c);
        assert(s.drop_last() =~= a + seq![10u8] + c);
        assert(s.last() == b.last());
        let parts = split_bytes(a) + split_bytes(c);
        assert(parts.drop_last() =~= split_bytes(a) + split_bytes(c).drop_last());
        assert(parts.last() == split_bytes(c).last());
        assert(split_bytes(s) =~= split_bytes(a) + split_bytes(b));
    }
}

/// To join lines is to put a line feed between each two.
pub proof fn law_joined(lines: Seq<Seq<u8>>, line: Seq<u8>)
    ensures
        joined(Seq::empty()) == Seq::<u8>::empty(),
        lines.len() == 0 ==> joined(lines.push(line)) == line,
        lines.len() > 0 ==> joined(lines.push(line)) == joined(lines) + seq![10u8] + line,
{
    assert(lines.push(line).drop_last() =~= lines);
    assert(joined(lines).push(10) + line =~= joined(lines) + seq![10u8] + line);
}

/// A block of the message of the record of a line.
pub open spec fn said_in(line: Seq<u8>, ci: int, b: JsonView) -> bool {
    &&& line.len() > 0
    &&& parsed_json(line) matches Some(rec) && (rec.get("message"@) matches Some(msg) && (msg.get(
        "content"@,
    ) matches Some(JsonView::Array(blocks)) && 0 <= ci < blocks.len() && blocks[ci] == b))
}

/// What a block has to be to count as a mention of an id.
pub open spec fn counts_as(b: JsonView, m: Mention, id: Seq<char>) -> bool {
    match m {
        Mention::Call => calls_as(b, id),
        Mention::Answer => answers_as(b, id),
        Mention::Failure => answers_as(b, id) && b.get("is_error"@) == Some(JsonView::Bool(true)),
    }
}

/// An id is mentioned exactly where a block of one of the lines mentions it: a call by its own id, a
/// result by that of its call, and a failure by a result that is flagged as an error.
pub proof fn law_mentioned(lines: Seq<Seq<u8>>, m: Mention, id: Seq<char>)
    ensures
        mentioned_ids(lines, m).contains(id) <==> exists|i: int, ci: int, b: JsonView|
            0 <= i < lines.len() && #[trigger] said_in(lines[i], ci, b) && #[trigger] counts_as(b, m, id),
        failed_ids(lines) == mentioned_ids(lines, Mention::Failure),
{
    if mentioned_ids(lines, m).contains(id) {
        let i = choose|i: int| 0 <= i < lines.len() && line_mentions(#[trigger] lines[i], m, id);
        let blocks = record_blocks(line_record(lines[i])->0)->0;
        let ci = choose|ci: int|
            0 <= ci < blocks.len() && super::mentioned(#[trigger] blocks[ci], m) == Some(id);
        assert(said_in(lines[i], ci, blocks[ci]) && counts_as(blocks[ci], m, id));
    }
    if exists|i: int, ci: int, b: JsonView|
        0 <= i < lines.len() && #[trigger] said_in(lines[i], ci, b) && #[trigger] counts_as(b, m, id) {
        let (i, ci, b) = choose|i: int, ci: int, b: JsonView|
            0 <= i < lines.len() && #[trigger] said_in(lines[i], ci, b) && #[trigger] counts_as(
                b,
                m,
                id,
            );
        let blocks = record_blocks(line_record(lines[i])->0)->0;
        assert(super::mentioned(blocks[ci], m) == Some(id));
        assert(some_mention(blocks, m, id));
        assert(line_mentions(lines[i], m, id));
    }
}

/// Whether a block is a call that failed and has more than an empty input.
pub open spec fn failed_call(b: JsonView, failed: Set<Seq<char>>) -> bool {
    &&& typed(b, "tool_use"@)
    &&& b.get("id"@) matches Some(JsonView::String(id)) && failed.contains(id)
    &&& b.get("input"@) is Some
    &&& b.get("input"@) != Some(JsonView::Object(Map::empty()))
}

/// A record with other blocks in its message.
pub open spec fn with_blocks(rec: JsonView, blocks: Seq<JsonView>) -> JsonView {
    rec.with("message"@, rec.get("message"@)->0.with("content"@, JsonView::Array(blocks)))
}

/// Whether a record is of a message of the assistant with these blocks.
pub open spec fn says(rec: JsonView, blocks: Seq<JsonView>) -> bool {
    &&& rec.get("type"@) == Some(JsonView::String("assistant"@))
    &&& rec.get("message"@) is Some
    &&& rec.get("message"@)->0.get("content"@) == Some(JsonView::Array(blocks))
}

/// The thinking without words goes from the assistant's messages and nothing else does, unless a
/// message has nothing else; as many blocks are counted as went. Every other record stays.
pub proof fn law_thinned(rec: JsonView, blocks: Seq<JsonView>)
    ensures
        ({
            let stay = blocks.filter(
                |b: JsonView| !(typed(b, "thinking"@) && !worded(b, "thinking"@)),
            );
            &&& says(rec, blocks) && stay.len() > 0 ==> thinned(rec) == with_blocks(rec, stay)
                && thinned_of(rec) == blocks.len() - stay.len()
            &&& says(rec, blocks) && stay.len() == 0 ==> thinned(rec) == rec && thinned_of(rec) == 0
            &&& (forall|all: Seq<JsonView>| !#[trigger] says(rec, all)) ==> thinned(rec) == rec
                && thinned_of(rec) == 0
        }),
{
    let r = Removal::EmptyThinking;
    let stay = blocks.filter(|b: JsonView| !(typed(b, "thinking"@) && !worded(b, "thinking"@)));
    lemma_staying(blocks);
    if says(rec, blocks) {
        law_kept(blocks, r);
        crate::strategies::thinking_strip::lemma_kept_len(blocks, r);
        lemma_set_same(rec, "message"@);
    } else if forall|all: Seq<JsonView>| !#[trigger] says(rec, all) {
        if let Some(msg) = rec.get("message"@) {
            lemma_set_same(rec, "message"@);
            if let Some(all) = msg.get_array("content"@) {
                assert(!says(rec, all));
            }
        }
    }
}

proof fn lemma_staying(blocks: Seq<JsonView>)
    ensures
        staying(blocks, Removal::EmptyThinking) == blocks.filter(
            |b: JsonView| !(typed(b, "thinking"@) && !worded(b, "thinking"@)),
        ),
    decreases blocks.len(),
{
    reveal(Seq::filter);
    if blocks.len() > 0 {
        lemma_staying(blocks.drop_last());
    }
}

/// The input of each call that failed becomes an empty one, in the assistant's messages, and nothing
/// else changes; as many are counted as became so. Every other record stays.
pub proof fn law_purged(rec: JsonView, blocks: Seq<JsonView>, failed: Set<Seq<char>>)
    ensures
        ({
            let new = blocks.map_values(
                |b: JsonView|
                    if failed_call(b, failed) {
                        b.with("input"@, JsonView::Object(Map::empty()))
                    } else {
                        b
                    },
            );
            &&& says(rec, blocks) ==> purged_record(rec, failed) == with_blocks(rec, new) && purged_of(
                rec,
                failed,
            ) == blocks.filter(|b: JsonView| failed_call(b, failed)).len()
            &&& (forall|all: Seq<JsonView>| !#[trigger] says(rec, all)) ==> purged_record(rec, failed)
                == rec && purged_of(rec, failed) == 0
        }),
{
    let new = blocks.map_values(
        |b: JsonView|
            if failed_call(b, failed) {
                b.with("input"@, JsonView::Object(Map::empty()))
            } else {
                b
            },
    );
    assert(purged_blocks(blocks, failed) =~= new);
    lemma_purged_count_is(blocks, failed);
    if forall|all: Seq<JsonView>| !#[trigger] says(rec, all) {
        if let Some(msg) = rec.get("message"@) {
            lemma_set_same(rec, "message"@);
            if let Some(all) = msg.get_array("content"@) {
                assert(!says(rec, all));
            }
        }
    }
}

proof fn lemma_purged_count_is(blocks: Seq<JsonView>, failed: Set<Seq<char>>)
    ensures
        purged_count(blocks, failed) == blocks.filter(|b: JsonView| failed_call(b, failed)).len(),
    decreases blocks.len(),
{
    reveal(Seq::filter);
    if blocks.len() > 0 {
        lemma_purged_count_is(blocks.drop_last(), failed);
        assert(purgeable(blocks.last(), failed) == failed_call(blocks.last(), failed));
    }
}

/// A line after a cleanup: a blank one and one that is no JSON stay. Of any other both the thinking
/// and then the inputs go, and the record is written anew; where neither does, the line stays as it
/// is, byte for byte.
pub proof fn law_swept_line(line: Seq<u8>, failed: Set<Seq<char>>)
    ensures
        line.len() == 0 || parsed_json(line) is None ==> swept_line(line, failed) == line
            && dropped_in(line) == 0 && purged_in(line, failed) == 0,
        line.len() > 0 ==> (parsed_json(line) matches Some(rec) ==> {
            let gone = thinned_of(rec);
            let emptied = purged_of(thinned(rec), failed);
            &&& dropped_in(line) == gone && purged_in(line, failed) == emptied
            &&& swept_line(line, failed) == if gone > 0 || emptied > 0 {
                encode_utf8(json_text(purged_record(thinned(rec), failed)))
            } else {
                line
            }
        }),
{
}

/// A cleanup goes over every line, in order, and keeps the line feed at the end; what it counts is
/// counted over all lines.
pub proof fn law_swept(s: Seq<u8>, lines: Seq<Seq<u8>>, line: Seq<u8>, failed: Set<Seq<char>>, i: int)
    ensures
        swept_lines(lines, failed).len() == lines.len(),
        0 <= i < lines.len() ==> swept_lines(lines, failed)[i] == swept_line(lines[i], failed),
        s.len() > 0 && s.last() == 10 ==> swept_bytes(s, failed) == joined(
            swept_lines(record_lines(s), failed),
        ).push(10),
        s.len() == 0 || s.last() != 10 ==> swept_bytes(s, failed) == joined(
            swept_lines(record_lines(s), failed),
        ),
        all_dropped(Seq::empty()) == 0,
        all_dropped(lines.push(line)) == all_dropped(lines) + dropped_in(line),
        all_purged(Seq::empty(), failed) == 0,
        all_purged(lines.push(line), failed) == all_purged(lines, failed) + purged_in(line, failed),
{
    assert(lines.push(line).drop_last() =~= lines);
}

/// Whether a line that is not blank is JSON whose message, if it has blocks, has one at least and no
/// thinking without words.
pub open spec fn can_stand(line: Seq<u8>) -> bool {
    &&& parsed_json(line) is Some
    &&& parsed_json(line)->0.get("message"@) matches Some(msg) ==> (msg.get("content"@) matches Some(
        JsonView::Array(blocks),
    ) ==> blocks.len() > 0 && forall|ci: int|
        0 <= ci < blocks.len() ==> !typed(#[trigger] blocks[ci], "thinking"@) || worded(
            blocks[ci],
            "thinking"@,
        ))
}

/// A record is sound exactly where each line can stand or is blank, and each result has its call.
pub proof fn law_sound(lines: Seq<Seq<u8>>)
    ensures
        sound(lines) <==> {
            &&& forall|i: int| 0 <= i < lines.len() && (#[trigger] lines[i]).len() > 0 ==> can_stand(
                lines[i],
            )
            &&& forall|id: Seq<char>| #[trigger]
                mentioned_ids(lines, Mention::Answer).contains(id) ==> mentioned_ids(
                    lines,
                    Mention::Call,
                ).contains(id)
        },
{
    assert forall|i: int| 0 <= i < lines.len() implies sound_line(#[trigger] lines[i]) == (lines[i].len()
        > 0 ==> can_stand(lines[i])) by {
        lemma_can_stand(lines[i]);
    }
    if sound(lines) {
        assert forall|i: int| 0 <= i < lines.len() && (#[trigger] lines[i]).len() > 0 implies can_stand(
            lines[i],
        ) by {
            assert(sound_line(lines[i]));
        }
    }
}

proof fn lemma_can_stand(line: Seq<u8>)
    ensures
        sound_line(line) <==> (line.len() > 0 ==> can_stand(line)),
{
    if line.len() > 0 && parsed_json(line) is Some {
        let rec = parsed_json(line)->0;
        if let Some(blocks) = record_blocks(rec) {
            assert forall|ci: int| 0 <= ci < blocks.len() implies
                crate::strategies::thinking_strip::empty_thinking(#[trigger] blocks[ci]) == (typed(
                blocks[ci],
                "thinking"@,
            ) && !worded(blocks[ci], "thinking"@)) by {}
            if sound_line(line) {
                assert forall|ci: int| 0 <= ci < blocks.len() implies !typed(
                    #[trigger] blocks[ci],
                    "thinking"@,
                ) || worded(blocks[ci], "thinking"@) by {}
                assert(can_stand(line));
            }
            if can_stand(line) {
                assert(super::no_empty_thinking(blocks));
            }
        }
    }
}

/// The ids of the records stand in their order, each line that has one giving its own.
pub proof fn law_uuids(lines: Seq<Seq<u8>>, line: Seq<u8>, n: nat)
    ensures
        uuids(Seq::empty()) == Seq::<Seq<char>>::empty(),
        uuids(lines.push(line)) == if line.len() > 0 && (parsed_json(line) matches Some(rec) && (
        rec.get("uuid"@) matches Some(JsonView::String(_)))) {
            uuids(lines).push(parsed_json(line)->0.get("uuid"@)->0->String_0)
        } else {
            uuids(lines)
        },
        prefix_uuids(lines, n).len() == if uuids(lines).len() < n {
            uuids(lines).len()
        } else {
            n
        },
        prefix_uuids(lines, n) == uuids(lines).take(prefix_uuids(lines, n).len() as int),
{
    assert(lines.push(line).drop_last() =~= lines);
    assert(uuids(lines).take(uuids(lines).len() as int) =~= uuids(lines));
}

/// A record may be replaced exactly where not a byte has changed; what is said else depends on
/// whether the first five ids are the same.
pub proof fn law_interference(orig: Seq<u8>, now: Seq<u8>)
    ensures
        interference(orig, now) is None <==> orig == now,
        orig != now ==> interference(orig, now) == Some(
            if prefix_uuids(record_lines(orig), 5) == prefix_uuids(record_lines(now), 5) {
                "file changed (active session?)"@
            } else {
                "session prefix changed (compaction/rewrite?)"@
            },
        ),
{
}

/// Three backups are kept, and a backup has the name of its file and what tells it from others.
pub proof fn law_backup_prefix(name: Seq<char>)
    ensures
        backup_prefix(name) == name + ".bak."@,
        BAK_RETAIN == 3,
{
}

/// Of two backups the earlier has more that are later than it; of two of the same time, the one that
/// stands first does. Each has fewer than there are, so that the last has none and the first all
/// others.
pub proof fn law_later(times: Seq<u128>, i: int, j: int)
    requires
        0 <= i < times.len(),
        0 <= j < times.len(),
    ensures
        later(times, i) < times.len(),
        times[i] < times[j] || (times[i] == times[j] && i < j) ==> later(times, i) > later(times, j),
{
    super::backup::lemma_later_order(times, i, j);
}

} // verus!
