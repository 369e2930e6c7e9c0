//! Cleans up the record of a session: line-delimited JSON, a message to a line.
//!
//! Thinking without content goes, and so does the input of calls that failed. A line that holds
//! neither stays as it is, byte for byte.

use self::laws::{
    law_line_by_line, law_mentions_kept, law_swept_once, law_swept_sound, lemma_cleaned_nests,
    lemma_one_line, mendable, reads_back, stays_line,
};
use crate::json::{
    json_text, lemma_set_same, lemma_views, nests, parsed_json, views, Json, JsonMap, JsonView,
    MAX_DEPTH,
};
use crate::pairing::{result_id, use_id};
use crate::rewrite::machine;
use crate::strategies::simhash_dedup::{flagged, is_flagged};
use crate::strategies::thinking_strip::{
    empty_thinking, is_empty_thinking, keep_blocks, kept, lemma_kept_len, Removal,
};
use crate::text::{has_name, lemma_texts_push, lists, same_text, split_at_char, split_on, texts};
use vstd::prelude::*;
use vstd::slice::slice_subrange;
use vstd::utf8::encode_utf8;

pub mod backup;
pub mod laws;
pub mod purpose;

verus! {

/// What a cleanup came to.
#[derive(Debug, PartialEq, Eq)]
pub struct SweepReport {
    /// How many bytes the record had.
    pub orig_bytes: u64,
    /// How many it has now.
    pub final_bytes: u64,
    /// How many blocks of thinking without content went.
    pub thinking_dropped: usize,
    /// How many inputs of failed calls went.
    pub inputs_purged: usize,
    /// How many lines the record has.
    pub lines: usize,
    /// The name of the backup, if one was made.
    pub backup: Option<String>,
}

impl SweepReport {
    /// How many bytes went; negative where the record grew.
    pub fn saved(&self) -> (r: i64)
        requires
            i64::MIN <= self.orig_bytes - self.final_bytes <= i64::MAX,
        ensures
            r == self.orig_bytes - self.final_bytes,
    {
        (self.orig_bytes as i128 - self.final_bytes as i128) as i64
    }
}

/// The parts of some bytes between the line feeds.
pub open spec fn split_bytes(s: Seq<u8>) -> Seq<Seq<u8>>
    decreases s.len(),
{
    if s.len() == 0 {
        seq![Seq::<u8>::empty()]
    } else {
        let parts = split_bytes(s.drop_last());
        if s.last() == 10 {
            parts.push(Seq::empty())
        } else {
            parts.drop_last().push(parts.last().push(s.last()))
        }
    }
}

/// Whether the last line is ended by a line feed.
pub open spec fn ends_line(s: Seq<u8>) -> bool {
    s.len() > 0 && s.last() == 10
}

/// The lines of a record. A line feed at the very end begins no line.
pub open spec fn record_lines(s: Seq<u8>) -> Seq<Seq<u8>> {
    split_bytes(
        if ends_line(s) {
            s.drop_last()
        } else {
            s
        },
    )
}

/// Lines with a line feed between each two.
pub open spec fn joined(lines: Seq<Seq<u8>>) -> Seq<u8>
    decreases lines.len(),
{
    if lines.len() == 0 {
        Seq::empty()
    } else if lines.len() == 1 {
        lines[0]
    } else {
        joined(lines.drop_last()).push(10) + lines.last()
    }
}

/// What each slice of a sequence holds.
pub open spec fn slices(parts: Seq<&[u8]>) -> Seq<Seq<u8>> {
    Seq::new(parts.len(), |i: int| parts[i]@)
}

/// The lines of a record.
pub fn split_lines(bytes: &[u8]) -> (r: Vec<&[u8]>)
    ensures
        slices(r@) == record_lines(bytes@),
{
    let n: usize = if bytes.len() > 0 && bytes[bytes.len() - 1] == 10 {
        bytes.len() - 1
    } else {
        bytes.len()
    };
    let ghost all = bytes@.take(n as int);
    let mut parts: Vec<&[u8]> = Vec::new();
    let mut start: usize = 0;
    let mut i: usize = 0;
    assert(bytes@.take(0) =~= Seq::empty());
    assert(slices(parts@).push(bytes@.subrange(0, 0)) =~= split_bytes(bytes@.take(0)));
    while i < n
        invariant
            start <= i <= n <= bytes@.len(),
            slices(parts@).push(bytes@.subrange(start as int, i as int)) == split_bytes(
                bytes@.take(i as int),
            ),
        decreases n - i,
    {
        let ghost before = slices(parts@);
        let ghost current = bytes@.subrange(start as int, i as int);
        proof {
            assert(bytes@.take(i + 1).drop_last() =~= bytes@.take(i as int));
            assert(bytes@.take(i + 1).last() == bytes@[i as int]);
            assert(before.push(current).drop_last() =~= before);
        }
        if bytes[i] == 10 {
            let part = slice_subrange(bytes, start, i);
            parts.push(part);
            start = i + 1;
            assert(slices(parts@) =~= before.push(current));
            assert(bytes@.subrange(i + 1, i + 1) =~= Seq::empty());
        } else {
            assert(bytes@.subrange(start as int, i + 1) =~= current.push(bytes@[i as int]));
        }
        i = i + 1;
    }
    let ghost before = slices(parts@);
    let part = slice_subrange(bytes, start, n);
    parts.push(part);
    proof {
        assert(slices(parts@) =~= before.push(part@));
        if ends_line(bytes@) {
            assert(bytes@.take(n as int) =~= bytes@.drop_last());
        } else {
            assert(bytes@.take(n as int) =~= bytes@);
        }
    }
    parts
}

/// The record of a line; none where the line is blank or no JSON.
pub open spec fn line_record(line: Seq<u8>) -> Option<JsonView> {
    if line.len() > 0 {
        parsed_json(line)
    } else {
        None
    }
}

fn read_line(line: &[u8]) -> (r: Option<Json>)
    ensures
        match r {
            Some(rec) => line_record(line@) == Some(rec@) && nests(rec@, MAX_DEPTH as nat),
            None => line_record(line@) is None,
        },
{
    if line.len() > 0 {
        Json::parse(line)
    } else {
        None
    }
}

/// The blocks of the message of a record, if it has any.
pub open spec fn record_blocks(rec: JsonView) -> Option<Seq<JsonView>> {
    match rec.get("message"@) {
        Some(m) => m.get_array("content"@),
        None => None,
    }
}

fn blocks_in(rec: &Json) -> (r: Option<&Vec<Json>>)
    ensures
        match r {
            Some(v) => record_blocks(rec@) == Some(views(v@)),
            None => record_blocks(rec@) is None,
        },
{
    match rec.get("message") {
        Some(m) => m.get_array("content"),
        None => None,
    }
}

/// A message without its thinking that has no content. Where there is nothing else, it stays.
pub open spec fn thinned_message(msg: JsonView) -> JsonView {
    match msg.get_array("content"@) {
        Some(blocks) => if kept(blocks, Removal::EmptyThinking).len() > 0 {
            msg.with("content"@, JsonView::Array(kept(blocks, Removal::EmptyThinking)))
        } else {
            msg
        },
        None => msg,
    }
}

/// How many blocks go from a message.
pub open spec fn thinned_count(msg: JsonView) -> nat {
    match msg.get_array("content"@) {
        Some(blocks) => if kept(blocks, Removal::EmptyThinking).len() > 0 {
            (blocks.len() - kept(blocks, Removal::EmptyThinking).len()) as nat
        } else {
            0
        },
        None => 0,
    }
}

/// Whether a record is of a message of the assistant.
pub open spec fn of_assistant(rec: JsonView) -> bool {
    rec.get_str("type"@) == Some("assistant"@)
}

/// A record without thinking that has no content.
pub open spec fn thinned(rec: JsonView) -> JsonView {
    match rec.get("message"@) {
        Some(msg) => if of_assistant(rec) {
            rec.with("message"@, thinned_message(msg))
        } else {
            rec
        },
        None => rec,
    }
}

/// How many blocks of thinking go from a record.
pub open spec fn thinned_of(rec: JsonView) -> nat {
    match rec.get("message"@) {
        Some(msg) => if of_assistant(rec) {
            thinned_count(msg)
        } else {
            0
        },
        None => 0,
    }
}

/// Whether a block is a failed call with something in its input.
pub open spec fn purgeable(block: JsonView, failed: Set<Seq<char>>) -> bool {
    &&& use_id(block) matches Some(id) && failed.contains(id)
    &&& block.get("input"@) matches Some(input) && input != JsonView::Object(Map::empty())
}

/// A block without the input of a failed call.
pub open spec fn purged_block(block: JsonView, failed: Set<Seq<char>>) -> JsonView {
    if purgeable(block, failed) {
        block.with("input"@, JsonView::Object(Map::empty()))
    } else {
        block
    }
}

/// Blocks without the inputs of failed calls.
pub open spec fn purged_blocks(blocks: Seq<JsonView>, failed: Set<Seq<char>>) -> Seq<JsonView> {
    Seq::new(blocks.len(), |i: int| purged_block(blocks[i], failed))
}

/// How many inputs go from some blocks.
pub open spec fn purged_count(blocks: Seq<JsonView>, failed: Set<Seq<char>>) -> nat
    decreases blocks.len(),
{
    if blocks.len() == 0 {
        0
    } else {
        purged_count(blocks.drop_last(), failed) + if purgeable(blocks.last(), failed) {
            1nat
        } else {
            0nat
        }
    }
}

/// A message without the inputs of failed calls.
pub open spec fn purged_message(msg: JsonView, failed: Set<Seq<char>>) -> JsonView {
    match msg.get_array("content"@) {
        Some(blocks) => msg.with("content"@, JsonView::Array(purged_blocks(blocks, failed))),
        None => msg,
    }
}

/// A record without the inputs of failed calls.
pub open spec fn purged_record(rec: JsonView, failed: Set<Seq<char>>) -> JsonView {
    match rec.get("message"@) {
        Some(msg) => if of_assistant(rec) {
            rec.with("message"@, purged_message(msg, failed))
        } else {
            rec
        },
        None => rec,
    }
}

/// How many inputs go from a record.
pub open spec fn purged_of(rec: JsonView, failed: Set<Seq<char>>) -> nat {
    match record_blocks(rec) {
        Some(blocks) => if of_assistant(rec) {
            purged_count(blocks, failed)
        } else {
            0
        },
        None => 0,
    }
}

fn thin_message(msg: &mut Json) -> (r: usize)
    ensures
        final(msg)@ == thinned_message(old(msg)@),
        r == thinned_count(old(msg)@),
{
    proof {
        if msg@.get("content"@) is Some {
            lemma_set_same(msg@, "content"@);
        }
    }
    match msg {
        Json::Object(m) => match m.get_mut("content") {
            Some(content) => match content {
                Json::Array(blocks) => {
                    let stay = keep_blocks(blocks, Removal::EmptyThinking);
                    proof {
                        lemma_views(blocks@);
                        lemma_views(stay@);
                        lemma_kept_len(views(blocks@), Removal::EmptyThinking);
                    }
                    if stay.len() == 0 {
                        0
                    } else {
                        let n: usize = blocks.len() - stay.len();
                        *blocks = stay;
                        n
                    }
                },
                _ => 0,
            },
            None => 0,
        },
        _ => 0,
    }
}

/// Drops the thinking without content from the record of an assistant's message, unless nothing
/// would be left.
pub fn strip_empty_thinking(rec: &mut Json) -> (r: usize)
    ensures
        final(rec)@ == thinned(old(rec)@),
        r == thinned_of(old(rec)@),
{
    if !rec.member_is("type", "assistant") {
        return 0;
    }
    match rec {
        Json::Object(m) => match m.get_mut("message") {
            Some(msg) => thin_message(msg),
            None => 0,
        },
        _ => 0,
    }
}

/// The ids in a list.
pub open spec fn ids(list: Seq<String>) -> Set<Seq<char>> {
    Set::new(|id: Seq<char>| lists(list, id))
}

fn is_purgeable(block: &Json, failed: &Vec<String>) -> (r: bool)
    ensures
        r == purgeable(block@, ids(failed@)),
{
    if !block.member_is("type", "tool_use") {
        return false;
    }
    let listed = match block.get_str("id") {
        Some(id) => has_name(failed, id),
        None => false,
    };
    let full = match block.get("input") {
        Some(Json::Object(m)) => !m.is_empty(),
        Some(_) => true,
        None => false,
    };
    listed && full
}

fn purge_blocks(blocks: &mut Vec<Json>, failed: &Vec<String>) -> (r: usize)
    ensures
        views(final(blocks)@) == purged_blocks(views(old(blocks)@), ids(failed@)),
        r == purged_count(views(old(blocks)@), ids(failed@)),
{
    let ghost all = views(blocks@);
    let ghost set = ids(failed@);
    let n: usize = blocks.len();
    let mut count: usize = 0;
    let mut i: usize = 0;
    proof {
        lemma_views(blocks@);
        assert(all.take(0) =~= Seq::empty());
    }
    while i < n
        invariant
            i <= n,
            n == blocks@.len(),
            n == all.len(),
            set == ids(failed@),
            count <= i,
            count == purged_count(all.take(i as int), set),
            forall|j: int| 0 <= j < i ==> (#[trigger] blocks@[j])@ == purged_block(all[j], set),
            forall|j: int| i <= j < n ==> (#[trigger] blocks@[j])@ == all[j],
        decreases n - i,
    {
        assert(all.take(i + 1).drop_last() =~= all.take(i as int));
        assert(all.take(i + 1).last() == all[i as int]);
        if is_purgeable(&blocks[i], failed) {
            let empty = Json::Object(JsonMap::new());
            assert(empty@ == JsonView::Object(Map::empty()));
            let block = &mut blocks[i];
            block.set("input", empty);
            count = count + 1;
        }
        i = i + 1;
    }
    proof {
        lemma_views(blocks@);
        assert(views(blocks@) =~= purged_blocks(all, set));
        assert(all.take(i as int) =~= all);
    }
    count
}

fn purge_message(msg: &mut Json, failed: &Vec<String>) -> (r: usize)
    ensures
        final(msg)@ == purged_message(old(msg)@, ids(failed@)),
        r == match old(msg)@.get_array("content"@) {
            Some(blocks) => purged_count(blocks, ids(failed@)),
            None => 0,
        },
{
    proof {
        if msg@.get("content"@) is Some {
            lemma_set_same(msg@, "content"@);
        }
    }
    match msg {
        Json::Object(m) => match m.get_mut("content") {
            Some(content) => match content {
                Json::Array(blocks) => purge_blocks(blocks, failed),
                _ => 0,
            },
            None => 0,
        },
        _ => 0,
    }
}

/// Empties the input of each failed call in the record of an assistant's message.
pub fn purge_failed_input(rec: &mut Json, failed: &Vec<String>) -> (r: usize)
    ensures
        final(rec)@ == purged_record(old(rec)@, ids(failed@)),
        r == purged_of(old(rec)@, ids(failed@)),
{
    if !rec.member_is("type", "assistant") {
        return 0;
    }
    match rec {
        Json::Object(m) => match m.get_mut("message") {
            Some(msg) => purge_message(msg, failed),
            None => 0,
        },
        _ => 0,
    }
}

/// What an id is looked for in.
#[derive(Clone, Copy, PartialEq, Eq, Structural)]
pub enum Mention {
    /// A call.
    Call,
    /// A result.
    Answer,
    /// A result that is an error.
    Failure,
}

/// The id that a block mentions, if it does.
pub open spec fn mentioned(block: JsonView, m: Mention) -> Option<Seq<char>> {
    match m {
        Mention::Call => use_id(block),
        Mention::Answer => result_id(block),
        Mention::Failure => if flagged(block) {
            result_id(block)
        } else {
            None
        },
    }
}

/// Whether one of some blocks mentions an id.
pub open spec fn some_mention(blocks: Seq<JsonView>, m: Mention, id: Seq<char>) -> bool {
    exists|ci: int| 0 <= ci < blocks.len() && mentioned(#[trigger] blocks[ci], m) == Some(id)
}

/// Whether a line mentions an id.
pub open spec fn line_mentions(line: Seq<u8>, m: Mention, id: Seq<char>) -> bool {
    line_record(line) matches Some(rec) && record_blocks(rec) matches Some(blocks) && some_mention(
        blocks,
        m,
        id,
    )
}

/// The ids that some lines mention.
pub open spec fn mentioned_ids(lines: Seq<Seq<u8>>, m: Mention) -> Set<Seq<char>> {
    Set::new(
        |id: Seq<char>|
            exists|i: int| 0 <= i < lines.len() && line_mentions(#[trigger] lines[i], m, id),
    )
}

fn mention_in(block: &Json, m: Mention) -> (r: Option<&str>)
    ensures
        match r {
            Some(id) => mentioned(block@, m) == Some(id@),
            None => mentioned(block@, m) is None,
        },
{
    match m {
        Mention::Call => if block.member_is("type", "tool_use") {
            block.get_str("id")
        } else {
            None
        },
        Mention::Answer => if block.member_is("type", "tool_result") {
            block.get_str("tool_use_id")
        } else {
            None
        },
        Mention::Failure => if block.member_is("type", "tool_result") && is_flagged(block) {
            block.get_str("tool_use_id")
        } else {
            None
        },
    }
}

/// A list with one more name.
proof fn lemma_lists_push(names: Seq<String>, name: String)
    ensures
        forall|id: Seq<char>| #[trigger]
            lists(names.push(name), id) <==> lists(names, id) || id == name@,
{
    assert forall|id: Seq<char>| #[trigger]
        lists(names.push(name), id) <==> lists(names, id) || id == name@ by {
        if lists(names, id) {
            let k = choose|k: int| 0 <= k < names.len() && (#[trigger] names[k])@ == id;
            assert(names.push(name)[k]@ == id);
        }
        assert(names.push(name)[names.len() as int]@ == name@);
        if lists(names.push(name), id) && id != name@ {
            let k = choose|k: int|
                0 <= k < names.push(name).len() && (#[trigger] names.push(name)[k])@ == id;
            assert(names[k]@ == id);
        }
    }
}

/// One block more mentions what it mentions.
proof fn lemma_mention_step(all: Seq<JsonView>, m: Mention, n: int)
    requires
        0 <= n < all.len(),
    ensures
        forall|id: Seq<char>| #[trigger]
            some_mention(all.take(n + 1), m, id) <==> some_mention(all.take(n), m, id) || mentioned(
                all[n],
                m,
            ) == Some(id),
{
    assert forall|id: Seq<char>| #[trigger]
        some_mention(all.take(n + 1), m, id) <==> some_mention(all.take(n), m, id) || mentioned(
            all[n],
            m,
        ) == Some(id) by {
        if some_mention(all.take(n), m, id) {
            let k = choose|k: int|
                0 <= k < n && mentioned(#[trigger] all.take(n)[k], m) == Some(id);
            assert(mentioned(all.take(n + 1)[k], m) == Some(id));
        }
        if mentioned(all[n], m) == Some(id) {
            assert(mentioned(all.take(n + 1)[n], m) == Some(id));
        }
        if some_mention(all.take(n + 1), m, id) && mentioned(all[n], m) != Some(id) {
            let k = choose|k: int|
                0 <= k < n + 1 && mentioned(#[trigger] all.take(n + 1)[k], m) == Some(id);
            assert(mentioned(all.take(n)[k], m) == Some(id));
        }
    }
}

fn collect_in(blocks: &Vec<Json>, m: Mention, found: &mut Vec<String>)
    ensures
        forall|id: Seq<char>| #[trigger]
            lists(final(found)@, id) <==> lists(old(found)@, id) || some_mention(
                views(blocks@),
                m,
                id,
            ),
{
    let ghost all = views(blocks@);
    let ghost before = found@;
    let mut i: usize = 0;
    proof {
        lemma_views(blocks@);
    }
    while i < blocks.len()
        invariant
            i <= blocks@.len(),
            all == views(blocks@),
            all.len() == blocks@.len(),
            forall|j: int| 0 <= j < all.len() ==> all[j] == (#[trigger] blocks@[j])@,
            forall|id: Seq<char>| #[trigger]
                lists(found@, id) <==> lists(before, id) || some_mention(all.take(i as int), m, id),
        decreases blocks@.len() - i,
    {
        let ghost sofar = found@;
        let ghost n = i as int;
        let block = &blocks[i];
        assert(block@ == all[n]);
        if let Some(id) = mention_in(block, m) {
            let id = id.to_owned();
            proof {
                lemma_lists_push(sofar, id);
            }
            found.push(id);
        }
        proof {
            lemma_mention_step(all, m, n);
            assert forall|id: Seq<char>| #[trigger]
                lists(found@, id) <==> lists(before, id) || some_mention(all.take(n + 1), m, id) by {
                assert(lists(found@, id) <==> lists(sofar, id) || mentioned(all[n], m) == Some(id));
            }
        }
        i = i + 1;
    }
    assert(all.take(i as int) =~= all);
}

/// The ids that a record mentions.
pub fn collect_ids(bytes: &[u8], m: Mention) -> (r: Vec<String>)
    ensures
        ids(r@) == mentioned_ids(record_lines(bytes@), m),
{
    let lines = split_lines(bytes);
    let ghost all = slices(lines@);
    let mut found: Vec<String> = Vec::new();
    let mut i: usize = 0;
    while i < lines.len()
        invariant
            i <= lines@.len(),
            all == slices(lines@),
            forall|id: Seq<char>| #[trigger]
                lists(found@, id) <==> exists|j: int|
                    0 <= j < i && line_mentions(#[trigger] all[j], m, id),
        decreases lines@.len() - i,
    {
        let ghost sofar = found@;
        let ghost n = i as int;
        assert(lines@[n]@ == all[n]);
        if let Some(rec) = read_line(lines[i]) {
            if let Some(blocks) = blocks_in(&rec) {
                collect_in(blocks, m, &mut found);
            }
        }
        proof {
            assert forall|id: Seq<char>| #[trigger]
                lists(found@, id) <==> exists|j: int|
                    0 <= j < n + 1 && line_mentions(#[trigger] all[j], m, id) by {
                assert(lists(found@, id) <==> lists(sofar, id) || line_mentions(all[n], m, id));
            }
        }
        i = i + 1;
    }
    assert(ids(found@) =~= mentioned_ids(record_lines(bytes@), m));
    found
}

/// The ids of the calls that failed.
pub open spec fn failed_ids(lines: Seq<Seq<u8>>) -> Set<Seq<char>> {
    mentioned_ids(lines, Mention::Failure)
}

/// The ids of the calls that failed.
pub fn collect_failed_ids(bytes: &[u8]) -> (r: Vec<String>)
    ensures
        ids(r@) == failed_ids(record_lines(bytes@)),
{
    collect_ids(bytes, Mention::Failure)
}

/// A record without thinking that has no content and without the inputs of failed calls.
pub open spec fn cleaned(rec: JsonView, failed: Set<Seq<char>>) -> JsonView {
    purged_record(thinned(rec), failed)
}

/// How many blocks of thinking go from a line.
pub open spec fn dropped_in(line: Seq<u8>) -> nat {
    match line_record(line) {
        Some(rec) => thinned_of(rec),
        None => 0,
    }
}

/// How many inputs go from a line.
pub open spec fn purged_in(line: Seq<u8>, failed: Set<Seq<char>>) -> nat {
    match line_record(line) {
        Some(rec) => purged_of(thinned(rec), failed),
        None => 0,
    }
}

/// Whether a line changes.
pub open spec fn changes(line: Seq<u8>, failed: Set<Seq<char>>) -> bool {
    dropped_in(line) + purged_in(line, failed) > 0
}

/// A line after the cleanup: written anew where its record changed, else as it was.
pub open spec fn swept_line(line: Seq<u8>, failed: Set<Seq<char>>) -> Seq<u8> {
    if changes(line, failed) {
        encode_utf8(json_text(cleaned(line_record(line)->0, failed)))
    } else {
        line
    }
}

/// Each line after the cleanup.
pub open spec fn swept_lines(lines: Seq<Seq<u8>>, failed: Set<Seq<char>>) -> Seq<Seq<u8>> {
    Seq::new(lines.len(), |i: int| swept_line(lines[i], failed))
}

/// How many blocks of thinking go from some lines.
pub open spec fn all_dropped(lines: Seq<Seq<u8>>) -> nat
    decreases lines.len(),
{
    if lines.len() == 0 {
        0
    } else {
        all_dropped(lines.drop_last()) + dropped_in(lines.last())
    }
}

/// How many inputs go from some lines.
pub open spec fn all_purged(lines: Seq<Seq<u8>>, failed: Set<Seq<char>>) -> nat
    decreases lines.len(),
{
    if lines.len() == 0 {
        0
    } else {
        all_purged(lines.drop_last(), failed) + purged_in(lines.last(), failed)
    }
}

/// A record after the cleanup: line for line, with a line feed at the end where there was one.
pub open spec fn swept_bytes(s: Seq<u8>, failed: Set<Seq<char>>) -> Seq<u8> {
    let body = joined(swept_lines(record_lines(s), failed));
    if ends_line(s) {
        body.push(10)
    } else {
        body
    }
}

/// A record after the cleanup.
#[derive(Debug)]
pub struct Swept {
    /// Whether a line changed.
    pub mutated: bool,
    /// The bytes.
    pub bytes: Vec<u8>,
    /// How many blocks of thinking without content went.
    pub thinking_dropped: usize,
    /// How many inputs of failed calls went.
    pub inputs_purged: usize,
    /// How many lines there are.
    pub lines: usize,
}

impl Swept {
    /// Whether this is what the cleanup of a record comes to.
    pub open spec fn is_sweep_of(&self, orig: Seq<u8>, failed: Set<Seq<char>>) -> bool {
        let lines = record_lines(orig);
        &&& self.bytes@ == swept_bytes(orig, failed)
        &&& self.thinking_dropped == machine(all_dropped(lines))
        &&& self.inputs_purged == machine(all_purged(lines, failed))
        &&& self.lines == lines.len()
        &&& self.mutated <==> all_dropped(lines) + all_purged(lines, failed) > 0
    }
}

fn append_bytes(out: &mut Vec<u8>, more: &[u8])
    ensures
        final(out)@ == old(out)@ + more@,
{
    let ghost before = out@;
    let mut i: usize = 0;
    while i < more.len()
        invariant
            i <= more@.len(),
            out@ == before + more@.take(i as int),
        decreases more@.len() - i,
    {
        out.push(more[i]);
        i = i + 1;
        assert(out@ =~= before + more@.take(i as int));
    }
    assert(more@.take(i as int) =~= more@);
}

/// Cleans up one line: how many blocks and inputs went, and the new line if any did.
fn sweep_line(line: &[u8], failed: &Vec<String>) -> (r: (usize, usize, Option<Vec<u8>>))
    ensures
        r.0 == dropped_in(line@),
        r.1 == purged_in(line@, ids(failed@)),
        match r.2 {
            Some(new) => changes(line@, ids(failed@)) && new@ == swept_line(line@, ids(failed@)),
            None => !changes(line@, ids(failed@)),
        },
        reads_back(line@, ids(failed@)),
{
    match read_line(line) {
        Some(rec) => {
            let mut rec = rec;
            proof {
                lemma_cleaned_nests(rec@, ids(failed@), MAX_DEPTH as nat);
            }
            let d: usize = strip_empty_thinking(&mut rec);
            let p: usize = purge_failed_input(&mut rec, failed);
            if d > 0 || p > 0 {
                let text = rec.to_text();
                proof {
                    lemma_one_line(text@);
                }
                let new = text.as_str().as_bytes_vec();
                (d, p, Some(new))
            } else {
                (d, p, None)
            }
        },
        None => (0, 0, None),
    }
}

/// Cleans up a record, given the calls that failed. Only the lines that change are written anew.
pub fn build_swept(orig: &[u8], failed: &Vec<String>) -> (r: Swept)
    ensures
        r.is_sweep_of(orig@, ids(failed@)),
        record_lines(r.bytes@) == swept_lines(record_lines(orig@), ids(failed@)),
        ends_line(r.bytes@) == ends_line(orig@),
        forall|i: int|
            0 <= i < record_lines(orig@).len() ==> reads_back(
                #[trigger] record_lines(orig@)[i],
                ids(failed@),
            ),
{
    let lines = split_lines(orig);
    let ghost all = slices(lines@);
    let ghost set = ids(failed@);
    let mut bytes: Vec<u8> = Vec::new();
    let mut thinking_dropped: usize = 0;
    let mut inputs_purged: usize = 0;
    let mut i: usize = 0;
    assert(all.take(0) =~= Seq::empty());
    assert(swept_lines(all.take(0), set) =~= Seq::empty());
    while i < lines.len()
        invariant
            i <= lines@.len(),
            all == slices(lines@),
            set == ids(failed@),
            bytes@ == joined(swept_lines(all.take(i as int), set)),
            forall|j: int| 0 <= j < i ==> reads_back(#[trigger] all[j], set),
            thinking_dropped == machine(all_dropped(all.take(i as int))),
            inputs_purged == machine(all_purged(all.take(i as int), set)),
        decreases lines@.len() - i,
    {
        let ghost n = i as int;
        let ghost next = swept_lines(all.take(n + 1), set);
        proof {
            assert(lines@[n]@ == all[n]);
            assert(all.take(n + 1).drop_last() =~= all.take(n));
            assert(all.take(n + 1).last() == all[n]);
            assert(next.drop_last() =~= swept_lines(all.take(n), set));
            assert(next.last() == swept_line(all[n], set));
        }
        if i > 0 {
            bytes.push(10);
        }
        let ghost before = bytes@;
        let (d, p, new) = sweep_line(lines[i], failed);
        match new {
            Some(new) => append_bytes(&mut bytes, &new),
            None => append_bytes(&mut bytes, lines[i]),
        }
        thinking_dropped = thinking_dropped.saturating_add(d);
        inputs_purged = inputs_purged.saturating_add(p);
        proof {
            assert(bytes@ == before + swept_line(all[n], set));
            if n == 0 {
                assert(bytes@ =~= next[0]);
            }
        }
        i = i + 1;
    }
    assert(all.take(i as int) =~= all);
    if orig.len() > 0 && orig[orig.len() - 1] == 10 {
        bytes.push(10);
    }
    proof {
        assert forall|j: int| 0 <= j < all.len() implies stays_line(#[trigger] all[j], set) by {
            assert(reads_back(all[j], set));
        }
        law_line_by_line(orig@, set);
    }
    let mutated = thinking_dropped > 0 || inputs_purged > 0;
    Swept { mutated, bytes, thinking_dropped, inputs_purged, lines: lines.len() }
}

/// Cleans up a record. What comes out mentions the ids that went in, to clean it up again changes
/// nothing more, and where the record could be mended it can be sent again.
pub fn sweep(orig: &[u8]) -> (r: Swept)
    ensures
        r.is_sweep_of(orig@, failed_ids(record_lines(orig@))),
        record_lines(r.bytes@) == swept_lines(
            record_lines(orig@),
            failed_ids(record_lines(orig@)),
        ),
        ends_line(r.bytes@) == ends_line(orig@),
        forall|m: Mention| #[trigger]
            mentioned_ids(record_lines(r.bytes@), m) == mentioned_ids(record_lines(orig@), m),
        swept_bytes(r.bytes@, failed_ids(record_lines(r.bytes@))) == r.bytes@,
        mendable(record_lines(orig@)) ==> sound(record_lines(r.bytes@)),
{
    let failed = collect_failed_ids(orig);
    let swept = build_swept(orig, &failed);
    proof {
        let set = failed_ids(record_lines(orig@));
        law_swept_once(orig@);
        assert forall|m: Mention| #[trigger]
            mentioned_ids(record_lines(swept.bytes@), m) == mentioned_ids(record_lines(orig@), m) by {
            law_mentions_kept(orig@, set, m);
        }
        if mendable(record_lines(orig@)) {
            law_swept_sound(orig@, set);
        }
    }
    swept
}

/// What a cleanup of a record would come to.
pub fn dry_run(orig: &[u8]) -> (r: SweepReport)
    ensures
        r.orig_bytes == orig@.len(),
        r.final_bytes == swept_bytes(orig@, failed_ids(record_lines(orig@))).len(),
        r.thinking_dropped == machine(all_dropped(record_lines(orig@))),
        r.inputs_purged == machine(
            all_purged(record_lines(orig@), failed_ids(record_lines(orig@))),
        ),
        r.lines == record_lines(orig@).len(),
        r.backup is None,
{
    let swept = sweep(orig);
    SweepReport {
        orig_bytes: orig.len() as u64,
        final_bytes: swept.bytes.len() as u64,
        thinking_dropped: swept.thinking_dropped,
        inputs_purged: swept.inputs_purged,
        lines: swept.lines,
        backup: None,
    }
}

/// Whether what the record of a line holds can be sent again: a message with blocks has some, and no
/// thinking without content.
pub open spec fn sound_record(rec: JsonView) -> bool {
    match record_blocks(rec) {
        Some(blocks) => blocks.len() > 0 && no_empty_thinking(blocks),
        None => true,
    }
}

/// Whether none of some blocks is thinking without content.
pub open spec fn no_empty_thinking(blocks: Seq<JsonView>) -> bool {
    forall|ci: int| 0 <= ci < blocks.len() ==> !empty_thinking(#[trigger] blocks[ci])
}

/// Whether a line is blank, or JSON that can be sent again.
pub open spec fn sound_line(line: Seq<u8>) -> bool {
    line.len() > 0 ==> (line_record(line) matches Some(rec) && sound_record(rec))
}

/// Whether every line is sound and every result has its call.
pub open spec fn sound(lines: Seq<Seq<u8>>) -> bool {
    &&& forall|i: int| 0 <= i < lines.len() ==> sound_line(#[trigger] lines[i])
    &&& mentioned_ids(lines, Mention::Answer).subset_of(mentioned_ids(lines, Mention::Call))
}

fn has_no_empty_thinking(blocks: &Vec<Json>) -> (r: bool)
    ensures
        r == no_empty_thinking(views(blocks@)),
{
    proof {
        lemma_views(blocks@);
    }
    let ghost all = views(blocks@);
    let mut i: usize = 0;
    while i < blocks.len()
        invariant
            i <= blocks@.len(),
            all == views(blocks@),
            all.len() == blocks@.len(),
            forall|j: int| 0 <= j < all.len() ==> all[j] == (#[trigger] blocks@[j])@,
            forall|j: int| 0 <= j < i ==> !empty_thinking(#[trigger] all[j]),
        decreases blocks@.len() - i,
    {
        if is_empty_thinking(&blocks[i]) {
            assert(empty_thinking(all[i as int]));
            return false;
        }
        i = i + 1;
    }
    true
}

fn is_sound_line(line: &[u8]) -> (r: bool)
    ensures
        r == sound_line(line@),
{
    if line.len() == 0 {
        return true;
    }
    match read_line(line) {
        Some(rec) => match blocks_in(&rec) {
            Some(blocks) => {
                proof {
                    lemma_views(blocks@);
                }
                blocks.len() > 0 && has_no_empty_thinking(blocks)
            },
            None => true,
        },
        None => false,
    }
}

fn all_listed(some: &Vec<String>, others: &Vec<String>) -> (r: bool)
    ensures
        r == ids(some@).subset_of(ids(others@)),
{
    let mut i: usize = 0;
    while i < some.len()
        invariant
            i <= some@.len(),
            forall|j: int| 0 <= j < i ==> lists(others@, (#[trigger] some@[j])@),
        decreases some@.len() - i,
    {
        if !has_name(others, &some[i]) {
            proof {
                assert(lists(some@, some@[i as int]@));
                assert(ids(some@).contains(some@[i as int]@));
                assert(!ids(others@).contains(some@[i as int]@));
            }
            return false;
        }
        i = i + 1;
    }
    true
}

/// Whether a record can be sent again: every line is JSON, no message is empty or holds thinking
/// without content, and every result has its call.
pub fn validate(bytes: &[u8]) -> (r: bool)
    ensures
        r == sound(record_lines(bytes@)),
{
    let lines = split_lines(bytes);
    let ghost all = slices(lines@);
    let mut i: usize = 0;
    while i < lines.len()
        invariant
            i <= lines@.len(),
            all == slices(lines@),
            all == record_lines(bytes@),
            forall|j: int| 0 <= j < i ==> sound_line(#[trigger] all[j]),
        decreases lines@.len() - i,
    {
        assert(lines@[i as int]@ == all[i as int]);
        if !is_sound_line(lines[i]) {
            return false;
        }
        i = i + 1;
    }
    let answers = collect_ids(bytes, Mention::Answer);
    let calls = collect_ids(bytes, Mention::Call);
    all_listed(&answers, &calls)
}

/// How many ids of a record tell it from another.
pub const PREFIX_UUID_COUNT: usize = 5;

/// The ids of the records, in order.
pub open spec fn uuids(lines: Seq<Seq<u8>>) -> Seq<Seq<char>>
    decreases lines.len(),
{
    if lines.len() == 0 {
        Seq::empty()
    } else {
        let before = uuids(lines.drop_last());
        match uuid_of(lines.last()) {
            Some(u) => before.push(u),
            None => before,
        }
    }
}

/// The id of the record of a line, if it has one.
pub open spec fn uuid_of(line: Seq<u8>) -> Option<Seq<char>> {
    match line_record(line) {
        Some(rec) => rec.get_str("uuid"@),
        None => None,
    }
}

/// The first ids of the records: up to `n` of them.
pub open spec fn prefix_uuids(lines: Seq<Seq<u8>>, n: nat) -> Seq<Seq<char>> {
    if uuids(lines).len() > n {
        uuids(lines).take(n as int)
    } else {
        uuids(lines)
    }
}

proof fn lemma_uuids_grow(lines: Seq<Seq<u8>>, i: int)
    requires
        0 <= i <= lines.len(),
    ensures
        uuids(lines.take(i)).len() <= uuids(lines).len(),
        uuids(lines).take(uuids(lines.take(i)).len() as int) == uuids(lines.take(i)),
    decreases lines.len() - i,
{
    if i < lines.len() {
        lemma_uuids_grow(lines, i + 1);
        let more = lines.take(i + 1);
        assert(more.drop_last() =~= lines.take(i));
        let k = uuids(lines.take(i)).len() as int;
        assert(uuids(more).take(k) =~= uuids(lines.take(i)));
        assert(uuids(lines).take(k) =~= uuids(lines).take(uuids(more).len() as int).take(k));
    } else {
        assert(lines.take(i) =~= lines);
        assert(uuids(lines).take(uuids(lines).len() as int) =~= uuids(lines));
    }
}

/// The first ids of the records: up to `n` of them, or one where `n` is zero.
pub fn first_uuids(bytes: &[u8], n: usize) -> (r: Vec<String>)
    ensures
        texts(r@) == prefix_uuids(
            record_lines(bytes@),
            if n == 0 {
                1
            } else {
                n as nat
            },
        ),
{
    let lines = split_lines(bytes);
    let ghost all = slices(lines@);
    let mut found: Vec<String> = Vec::new();
    let mut i: usize = 0;
    assert(all.take(0) =~= Seq::empty());
    assert(texts(found@) =~= Seq::empty());
    while i < lines.len()
        invariant
            i <= lines@.len(),
            all == slices(lines@),
            all == record_lines(bytes@),
            found@.len() < n || found@.len() == 0,
            texts(found@) == uuids(all.take(i as int)),
        decreases lines@.len() - i,
    {
        let ghost k = i as int;
        proof {
            assert(lines@[k]@ == all[k]);
            assert(all.take(k + 1).drop_last() =~= all.take(k));
            assert(all.take(k + 1).last() == all[k]);
        }
        if let Some(rec) = read_line(lines[i]) {
            if let Some(u) = rec.get_str("uuid") {
                let u = u.to_owned();
                proof {
                    lemma_texts_push(found@, u);
                }
                found.push(u);
                if found.len() >= n {
                    proof {
                        lemma_uuids_grow(all, k + 1);
                    }
                    return found;
                }
            }
        }
        i = i + 1;
    }
    assert(all.take(i as int) =~= all);
    found
}

fn same_bytes(a: &[u8], b: &[u8]) -> (r: bool)
    ensures
        r == (a@ == b@),
{
    if a.len() != b.len() {
        return false;
    }
    let mut i: usize = 0;
    while i < a.len()
        invariant
            i <= a@.len(),
            a@.len() == b@.len(),
            a@.take(i as int) == b@.take(i as int),
        decreases a@.len() - i,
    {
        if a[i] != b[i] {
            assert(a@[i as int] != b@[i as int]);
            return false;
        }
        i = i + 1;
        assert(a@.take(i as int) =~= a@.take(i - 1).push(a@[i - 1]));
        assert(b@.take(i as int) =~= b@.take(i - 1).push(b@[i - 1]));
    }
    assert(a@.take(i as int) =~= a@);
    assert(b@.take(i as int) =~= b@);
    true
}

fn same_texts(a: &Vec<String>, b: &Vec<String>) -> (r: bool)
    ensures
        r == (texts(a@) == texts(b@)),
{
    if a.len() != b.len() {
        assert(texts(a@).len() != texts(b@).len());
        return false;
    }
    let mut i: usize = 0;
    while i < a.len()
        invariant
            i <= a@.len(),
            a@.len() == b@.len(),
            forall|j: int| 0 <= j < i ==> (#[trigger] a@[j])@ == b@[j]@,
        decreases a@.len() - i,
    {
        if !same_text(&a[i], &b[i]) {
            assert(texts(a@)[i as int] != texts(b@)[i as int]);
            return false;
        }
        i = i + 1;
    }
    assert(texts(a@) =~= texts(b@));
    true
}

/// Why a record may not be replaced: it is no longer what was read.
pub open spec fn interference(orig: Seq<u8>, now: Seq<u8>) -> Option<Seq<char>> {
    if orig == now {
        None
    } else if prefix_uuids(record_lines(now), PREFIX_UUID_COUNT as nat) != prefix_uuids(
        record_lines(orig),
        PREFIX_UUID_COUNT as nat,
    ) {
        Some("session prefix changed (compaction/rewrite?)"@)
    } else {
        Some("file changed (active session?)"@)
    }
}

/// Why a record may not be replaced, if there is a reason: what is there now is not what was read.
pub fn changed_meanwhile(orig: &[u8], now: &[u8]) -> (r: Option<&'static str>)
    ensures
        match r {
            Some(why) => interference(orig@, now@) == Some(why@),
            None => interference(orig@, now@) is None,
        },
{
    if same_bytes(orig, now) {
        return None;
    }
    let a = first_uuids(now, PREFIX_UUID_COUNT);
    let b = first_uuids(orig, PREFIX_UUID_COUNT);
    if same_texts(&a, &b) {
        Some("file changed (active session?)")
    } else {
        Some("session prefix changed (compaction/rewrite?)")
    }
}

/// Whether a path leads through a directory of records of subagents.
pub fn is_sidechain_transcript(path: &str) -> (r: bool)
    ensures
        r == split_on(path@, '/').contains("subagents"@),
{
    let parts = split_at_char(path, '/');
    let r = has_name(&parts, "subagents");
    proof {
        if r {
            let i = choose|i: int| 0 <= i < parts@.len() && (#[trigger] parts@[i])@ == "subagents"@;
            assert(texts(parts@)[i] == "subagents"@);
        }
        if split_on(path@, '/').contains("subagents"@) {
            let i = choose|i: int|
                0 <= i < texts(parts@).len() && texts(parts@)[i] == "subagents"@;
            assert(parts@[i]@ == "subagents"@);
        }
    }
    r
}

} // verus!
