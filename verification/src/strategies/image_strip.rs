//! Replaces old images in the results of listed tools.

use super::cross_turn_dedup::result_site;
use super::{block_with, elision_marker, has_role, marker, serialized_len, transcript_len, Stats};
use crate::config::{covered, matches_any, ImageStripConfig};
use crate::json::{lemma_views, views, Json, JsonView};
use crate::pairing::{
    has_type, id_at, lemma_describes_paired, paired, refused, result_positions, stands_for,
    PairingError, PairingIndex,
};
use crate::rewrite::{
    count_changes, law_pairing_kept, lemma_only_sets_keeps_ids, machine, only_sets, plan, rewrite,
    BlockRule, Rule,
};
use crate::sites::{before, find_sites, ids_of, ints, lemma_sites, sites, BlockTest};
use crate::text::{byte_len, same_text, utf8_len};
use vstd::prelude::*;

verus! {

/// From which size on a text can be an image.
pub const MIN_BASE64_LEN: usize = 4096;

/// Whether a character can stand in base64 text: its alphabet, padding, and ASCII whitespace.
pub open spec fn base64_char(c: char) -> bool {
    ||| 'a' <= c <= 'z'
    ||| 'A' <= c <= 'Z'
    ||| '0' <= c <= '9'
    ||| c == '+' || c == '/' || c == '=' || c == ' ' || c == '\t' || c == '\n' || c == '\r'
    ||| c == '\x0b' || c == '\x0c'
}

/// Whether a character can stand in base64 text.
pub fn is_base64_char(c: char) -> (r: bool)
    ensures
        r == base64_char(c),
{
    ('a' <= c && c <= 'z') || ('A' <= c && c <= 'Z') || ('0' <= c && c <= '9') || c == '+' || c == '/'
        || c == '=' || c == ' ' || c == '\t' || c == '\n' || c == '\r' || c == '\x0b' || c == '\x0c'
}

/// Whether a block holds an image.
pub open spec fn image_block(b: JsonView) -> bool {
    has_type(b, "image"@) && (b.get("source"@) matches Some(src) && src != JsonView::Null)
}

/// Whether one of the blocks holds an image.
pub open spec fn any_image(blocks: Seq<JsonView>) -> bool {
    exists|i: int| 0 <= i < blocks.len() && image_block(#[trigger] blocks[i])
}

/// Whether the content of a result looks like an image: a long text of base64 characters, an array
/// with an image block, or an image object.
pub open spec fn image_content(content: JsonView) -> bool {
    match content {
        JsonView::String(s) => utf8_len(s) >= MIN_BASE64_LEN && forall|i: int|
            0 <= i < s.len() ==> base64_char(#[trigger] s[i]),
        JsonView::Array(blocks) => any_image(blocks),
        JsonView::Object(_) => has_type(content, "image"@),
        _ => false,
    }
}

/// Whether the content of a result looks like an image.
pub fn is_base64_image_content(content: &Json) -> (r: bool)
    ensures
        r == image_content(content@),
{
    match content {
        Json::String(s) => {
            if byte_len(s) < MIN_BASE64_LEN {
                return false;
            }
            let chars = crate::text::chars_of(s);
            let mut i: usize = 0;
            while i < chars.len()
                invariant
                    i <= chars@.len(),
                    chars@ == s@,
                    content@ == JsonView::String(s@),
                    forall|j: int| 0 <= j < i ==> base64_char(#[trigger] s@[j]),
                decreases chars@.len() - i,
            {
                if !is_base64_char(chars[i]) {
                    assert(!base64_char(s@[i as int]));
                    return false;
                }
                i = i + 1;
            }
            true
        },
        Json::Array(blocks) => {
            let ghost all = views(blocks@);
            let mut i: usize = 0;
            while i < blocks.len()
                invariant
                    i <= blocks@.len(),
                    all == views(blocks@),
                    content@ == JsonView::Array(all),
                    forall|j: int| 0 <= j < i ==> !image_block(#[trigger] all[j]),
                decreases blocks@.len() - i,
            {
                proof {
                    lemma_views(blocks@);
                }
                let sourced = match blocks[i].get("source") {
                    Some(src) => !src.is_null(),
                    None => false,
                };
                if sourced && blocks[i].member_is("type", "image") {
                    assert(image_block(all[i as int]));
                    return true;
                }
                i = i + 1;
            }
            false
        },
        Json::Object(_) => content.member_is("type", "image"),
        _ => false,
    }
}

/// Whether a block is a call of the assistant to a listed tool that has its result.
pub open spec fn listed_call(
    messages: Seq<JsonView>,
    cfg: &ImageStripConfig,
    mi: int,
    ci: int,
    block: JsonView,
) -> bool {
    &&& 0 <= mi < messages.len()
    &&& has_role(messages[mi], "assistant"@)
    &&& has_type(block, "tool_use"@)
    &&& block.get_str("name"@) matches Some(name) && covered(cfg.applies_to_tools@, name)
    &&& block.get_str("id"@) matches Some(id) && result_positions(messages).contains_key(id)
}

/// The calls to listed tools that have their results, in order.
pub open spec fn listed_calls(messages: Seq<JsonView>, cfg: &ImageStripConfig) -> Seq<(int, int)> {
    sites(messages, |mi: int, ci: int, b: JsonView| listed_call(messages, cfg, mi, ci, b))
}

/// Whether a block is a call to a listed tool and stands for its result: no later one names its id.
pub open spec fn image_call(
    messages: Seq<JsonView>,
    cfg: &ImageStripConfig,
    mi: int,
    ci: int,
    block: JsonView,
) -> bool {
    let s = listed_calls(messages, cfg);
    &&& listed_call(messages, cfg, mi, ci, block)
    &&& forall|j: int|
        0 <= j < s.len() && id_at(messages, #[trigger] s[j]) == block.get_str("id"@) ==> !before(
            (mi, ci),
            s[j],
        )
}

/// The calls to listed tools, one for each result, in order.
pub open spec fn image_calls(messages: Seq<JsonView>, cfg: &ImageStripConfig) -> Seq<(int, int)> {
    sites(messages, |mi: int, ci: int, b: JsonView| image_call(messages, cfg, mi, ci, b))
}

/// The results of listed tools, in the order of their calls.
pub open spec fn image_results(messages: Seq<JsonView>, cfg: &ImageStripConfig) -> Seq<(int, int)> {
    let s = image_calls(messages, cfg);
    Seq::new(s.len(), |i: int| result_site(messages, s[i]))
}

/// Whether the result for an id is one of a listed tool and not among the most recent, which are
/// kept.
pub open spec fn aged(messages: Seq<JsonView>, cfg: &ImageStripConfig, id: Seq<char>) -> bool {
    let s = image_calls(messages, cfg);
    exists|i: int|
        0 <= i < s.len() - cfg.keep_recent_count && id_at(messages, #[trigger] s[i]) == Some(id)
}

/// What becomes of a block: a marker takes the place of an image that is not among the most
/// recent.
pub open spec fn image_edit(
    messages: Seq<JsonView>,
    cfg: &ImageStripConfig,
    mi: int,
    ci: int,
    block: JsonView,
) -> Option<JsonView> {
    match stands_for(messages, mi, ci, block) {
        Some(id) => match block.get("content"@) {
            Some(content) => if aged(messages, cfg, id) && image_content(content) {
                Some(block.with("content"@, marker(cfg.stub@, content)))
            } else {
                None
            },
            None => None,
        },
        None => None,
    }
}

/// The strip as a rule on blocks.
pub open spec fn image_rule(messages: Seq<JsonView>, cfg: &ImageStripConfig) -> Rule {
    |mi: int, ci: int, b: JsonView| image_edit(messages, cfg, mi, ci, b)
}

struct ListedTest<'a> {
    messages: &'a Vec<Json>,
    index: &'a PairingIndex,
    cfg: &'a ImageStripConfig,
}

impl<'a> BlockTest for ListedTest<'a> {
    closed spec fn ready(&self) -> bool {
        self.index.describes(views(self.messages@))
    }

    closed spec fn holds(&self, mi: int, ci: int, block: JsonView) -> bool {
        listed_call(views(self.messages@), self.cfg, mi, ci, block)
    }

    fn test(&self, mi: usize, ci: usize, block: &Json) -> (r: bool) {
        proof {
            lemma_views(self.messages@);
        }
        if mi >= self.messages.len() || !self.messages[mi].member_is("role", "assistant")
            || !block.member_is("type", "tool_use") {
            return false;
        }
        match (block.get_str("name"), block.get_str("id")) {
            (Some(name), Some(id)) => matches_any(&self.cfg.applies_to_tools, name)
                && self.index.result_at(id).is_some(),
            _ => false,
        }
    }
}

struct ImageTest<'a> {
    listed: &'a ListedTest<'a>,
    sites: &'a Vec<(usize, usize)>,
    ids: &'a Vec<String>,
}

impl<'a> BlockTest for ImageTest<'a> {
    closed spec fn ready(&self) -> bool {
        let all = views(self.listed.messages@);
        let s = listed_calls(all, self.listed.cfg);
        &&& self.listed.ready()
        &&& ints(self.sites@) == s
        &&& self.ids@.len() == s.len()
        &&& forall|i: int| 0 <= i < s.len() ==> id_at(all, s[i]) == Some((#[trigger] self.ids@[i])@)
    }

    closed spec fn holds(&self, mi: int, ci: int, block: JsonView) -> bool {
        image_call(views(self.listed.messages@), self.listed.cfg, mi, ci, block)
    }

    fn test(&self, mi: usize, ci: usize, block: &Json) -> (r: bool) {
        let ghost all = views(self.listed.messages@);
        let ghost s = listed_calls(all, self.listed.cfg);
        if !self.listed.test(mi, ci, block) {
            return false;
        }
        let id = match block.get_str("id") {
            Some(id) => id,
            None => return false,
        };
        let mut i: usize = 0;
        while i < self.ids.len()
            invariant
                i <= self.ids@.len(),
                self.ready(),
                all == views(self.listed.messages@),
                s == listed_calls(all, self.listed.cfg),
                block@.get_str("id"@) == Some(id@),
                forall|j: int|
                    0 <= j < i && id_at(all, #[trigger] s[j]) == Some(id@) ==> !before(
                        (mi as int, ci as int),
                        s[j],
                    ),
            decreases self.ids@.len() - i,
        {
            let p = self.sites[i];
            assert(ints(self.sites@)[i as int] == (p.0 as int, p.1 as int));
            assert(id_at(all, s[i as int]) == Some(self.ids@[i as int]@));
            if (mi < p.0 || (mi == p.0 && ci < p.1)) && same_text(&self.ids[i], id) {
                return false;
            }
            i = i + 1;
        }
        true
    }
}

struct Strip<'a> {
    messages: &'a Vec<Json>,
    index: &'a PairingIndex,
    cfg: &'a ImageStripConfig,
    /// The ids of the calls to listed tools, one for each result.
    ids: Vec<String>,
}

impl<'a> Strip<'a> {
    fn build(messages: &'a Vec<Json>, index: &'a PairingIndex, cfg: &'a ImageStripConfig) -> (r:
        Strip<'a>)
        requires
            index.describes(views(messages@)),
        ensures
            r.ready(),
            r.messages == messages,
            r.cfg == cfg,
    {
        let ghost all = views(messages@);
        let listed = ListedTest { messages, index, cfg };
        let sites = find_sites(messages, &listed);
        proof {
            let f = |mi: int, ci: int, b: JsonView| listed_call(all, cfg, mi, ci, b);
            assert((|mi: int, ci: int, b: JsonView| listed.holds(mi, ci, b)) =~= f);
            lemma_sites(all, f);
        }
        let ids = ids_of(messages, &sites);
        let test = ImageTest { listed: &listed, sites: &sites, ids: &ids };
        proof {
            assert forall|i: int| 0 <= i < ids@.len() implies id_at(
                all,
                listed_calls(all, cfg)[i],
            ) == Some((#[trigger] ids@[i])@) by {
                assert(ints(sites@)[i] == listed_calls(all, cfg)[i]);
            }
        }
        let last = find_sites(messages, &test);
        let ghost s = image_calls(all, cfg);
        proof {
            let f = |mi: int, ci: int, b: JsonView| image_call(all, cfg, mi, ci, b);
            assert((|mi: int, ci: int, b: JsonView| test.holds(mi, ci, b)) =~= f);
            lemma_sites(all, f);
        }
        let ids = ids_of(messages, &last);
        proof {
            assert forall|i: int| 0 <= i < s.len() implies id_at(all, s[i]) == Some(
                (#[trigger] ids@[i])@,
            ) by {
                assert(ints(last@)[i] == s[i]);
            }
        }
        Strip { messages, index, cfg, ids }
    }

    fn is_aged(&self, id: &str) -> (r: bool)
        requires
            self.ready(),
        ensures
            r == aged(views(self.messages@), self.cfg, id@),
    {
        let ghost all = views(self.messages@);
        let ghost s = image_calls(all, self.cfg);
        let mut i: usize = 0;
        while i < self.ids.len() && self.ids.len() - i > self.cfg.keep_recent_count
            invariant
                i <= self.ids@.len(),
                self.ready(),
                all == views(self.messages@),
                s == image_calls(all, self.cfg),
                forall|j: int| 0 <= j < i ==> id_at(all, #[trigger] s[j]) != Some(id@),
            decreases self.ids@.len() - i,
        {
            assert(id_at(all, s[i as int]) == Some(self.ids@[i as int]@));
            if same_text(&self.ids[i], id) {
                return true;
            }
            i = i + 1;
        }
        false
    }
}

impl<'a> BlockRule for Strip<'a> {
    closed spec fn ready(&self) -> bool {
        let all = views(self.messages@);
        let s = image_calls(all, self.cfg);
        &&& self.index.describes(all)
        &&& self.ids@.len() == s.len()
        &&& forall|i: int| 0 <= i < s.len() ==> id_at(all, s[i]) == Some((#[trigger] self.ids@[i])@)
    }

    closed spec fn rule(&self, mi: int, ci: int, block: JsonView) -> Option<JsonView> {
        image_edit(views(self.messages@), self.cfg, mi, ci, block)
    }

    fn decide(&self, mi: usize, ci: usize, block: &Json) -> (r: Option<Json>) {
        let ghost all = views(self.messages@);
        let id = match self.index.id_for(mi, ci, block, Ghost(all)) {
            Some(id) => id,
            None => return None,
        };
        match block.get("content") {
            Some(content) => if self.is_aged(id) && is_base64_image_content(content) {
                Some(block_with(block, "content", elision_marker(&self.cfg.stub, content)))
            } else {
                None
            },
            None => None,
        }
    }
}

/// Strips the old images of a transcript and says how many were stripped.
pub fn apply_counted(messages: &mut Vec<Json>, cfg: &ImageStripConfig) -> (r: Result<
    usize,
    PairingError,
>)
    ensures
        ({
            let before = views(old(messages)@);
            let after = views(final(messages)@);
            match r {
                Ok(n) => paired(before) && after == rewrite(before, image_rule(before, cfg)) && n
                    == machine(count_changes(before, image_rule(before, cfg))),
                Err(e) => refused(before, e) && after == before,
            }
        }),
{
    let ghost all = views(messages@);
    let index = PairingIndex::build(messages);
    proof {
        lemma_describes_paired(index, all);
    }
    index.validate()?;
    let ghost rule = image_rule(all, cfg);
    let plan = {
        let strip = Strip::build(messages, &index, cfg);
        assert(rule =~= |mi: int, ci: int, b: JsonView| strip.rule(mi, ci, b));
        plan(messages, &strip)
    };
    Ok(plan.carry_out(messages, Ghost(rule)))
}

/// Strips the old images of a transcript.
pub fn apply(messages: &mut Vec<Json>, cfg: &ImageStripConfig) -> (r: Result<Stats, PairingError>)
    ensures
        ({
            let before = views(old(messages)@);
            let after = views(final(messages)@);
            match r {
                Ok(stats) => paired(before) && after == rewrite(before, image_rule(before, cfg))
                    && stats.stubbed == machine(count_changes(before, image_rule(before, cfg)))
                    && stats.original_bytes == transcript_len(before) && stats.final_bytes
                    == transcript_len(after),
                Err(e) => refused(before, e) && after == before,
            }
        }),
{
    let original_bytes: usize = serialized_len(messages);
    let stubbed: usize = apply_counted(messages, cfg)?;
    let final_bytes: usize = serialized_len(messages);
    Ok(Stats { stubbed, original_bytes, final_bytes })
}

/// The strip sets nothing but the content of tool results, and cannot part a result from its call.
pub proof fn law_image_strip_scope(messages: Seq<JsonView>, cfg: &ImageStripConfig)
    ensures
        only_sets(image_rule(messages, cfg), "tool_result"@, "content"@),
        paired(rewrite(messages, image_rule(messages, cfg))) <==> paired(messages),
{
    let rule = image_rule(messages, cfg);
    lemma_only_sets_keeps_ids(rule, "tool_result"@, "content"@);
    law_pairing_kept(messages, rule);
}

} // verus!
