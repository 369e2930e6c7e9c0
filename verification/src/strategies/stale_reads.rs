//! Elides the results of file reads that a later operation on the same path supersedes, and pages
//! out old large ones.

use super::simhash_dedup::{flagged, is_flagged};
use super::{
    already_cleared, assistant_cutoff, block_with, cutoff, elision_marker, has_role,
    is_already_cleared, is_old, marker, old_at, opt_int, serialized_len, text_len, transcript_len,
    value_len, Stats,
};
use crate::config::{covered, matches_any, StaleReadsConfig};
use crate::json::{lemma_views, opt_text, views, Json, JsonView};
use crate::pairing::{
    block_at, get_block, has_type, id_at, lemma_describes_paired, paired, refused, stands_for,
    PairingError, PairingIndex,
};
use crate::rewrite::{
    count_changes, law_no_larger, law_pairing_kept, lemma_only_sets_keeps_ids, machine, only_sets,
    plan, rewrite, BlockRule, Rule,
};
use crate::sites::{before, find_sites, ints, lemma_sites, sites, BlockTest};
use crate::size::{lemma_with_no_larger, size};
use crate::text::{
    begins, byte_len, comes_before, decimal, decimal_of, lemma_precedes_chain,
    lemma_precedes_itself, lemma_precedes_total, precedes, same_text, starts_with, utf8_len,
};
use vstd::prelude::*;
use vstd::string::StringExecFns;

verus! {

/// Whether the input of a tool names the file that the tool works on.
pub open spec fn path_tool(name: Seq<char>) -> bool {
    name == "Read"@ || name == "Write"@ || name == "Edit"@ || name == "MultiEdit"@
}

/// The path that a call works on.
pub open spec fn path_of(name: Seq<char>, input: JsonView) -> Option<Seq<char>> {
    let path = match input.get("file_path"@) {
        Some(v) => v.as_str(),
        None => input.get_str("path"@),
    };
    if path_tool(name) && (path matches Some(p) && p.len() > 0) {
        path
    } else {
        None
    }
}

/// The path that a call works on.
pub fn extract_path<'a>(name: &str, input: &'a Json) -> (r: Option<&'a str>)
    ensures
        opt_text(r) == path_of(name@, input@),
{
    if !(same_text(name, "Read") || same_text(name, "Write") || same_text(name, "Edit") || same_text(
        name,
        "MultiEdit",
    )) {
        return None;
    }
    let path = match input.get("file_path") {
        Some(v) => v.as_str(),
        None => input.get_str("path"),
    };
    match path {
        Some(p) => if p.is_empty() {
            None
        } else {
            Some(p)
        },
        None => None,
    }
}

/// The path that a call in a block works on.
pub open spec fn block_path(block: JsonView) -> Option<Seq<char>> {
    match block.get_str("name"@) {
        Some(name) => match block.get("input"@) {
            Some(input) => path_of(name, input),
            None => None,
        },
        None => None,
    }
}

/// Whether a block is an operation on a file that is tracked: a call of the assistant, by a tool
/// that is not exempt, on a path that is not protected.
pub open spec fn tracked_op(
    messages: Seq<JsonView>,
    cfg: &StaleReadsConfig,
    mi: int,
    ci: int,
    block: JsonView,
) -> bool {
    &&& 0 <= mi < messages.len()
    &&& has_role(messages[mi], "assistant"@)
    &&& has_type(block, "tool_use"@)
    &&& block.get_str("name"@) matches Some(name) && !covered(cfg.exempt_tools@, name)
    &&& block.get_str("id"@) is Some
    &&& block_path(block) matches Some(path) && !covered(cfg.protected_file_patterns@, path)
}

/// The tracked operations, in order.
pub open spec fn operations(messages: Seq<JsonView>, cfg: &StaleReadsConfig) -> Seq<(int, int)> {
    sites(messages, |mi: int, ci: int, b: JsonView| tracked_op(messages, cfg, mi, ci, b))
}

/// The path that the operation at a position works on.
pub open spec fn path_at(messages: Seq<JsonView>, p: (int, int)) -> Option<Seq<char>> {
    match block_at(messages, p.0, p.1) {
        Some(b) => block_path(b),
        None => None,
    }
}

/// Whether the operation at a position is a read.
pub open spec fn read_at(messages: Seq<JsonView>, p: (int, int)) -> bool {
    match block_at(messages, p.0, p.1) {
        Some(b) => b.get_str("name"@) == Some("Read"@),
        None => false,
    }
}

/// Whether an operation is a read of a path that an operation in a later message works on.
pub open spec fn superseded(
    messages: Seq<JsonView>,
    cfg: &StaleReadsConfig,
    p: (int, int),
) -> bool {
    let s = operations(messages, cfg);
    &&& s.contains(p)
    &&& read_at(messages, p)
    &&& exists|j: int|
        0 <= j < s.len() && path_at(messages, #[trigger] s[j]) == path_at(messages, p) && s[j].0 > p.0
}

/// Whether an operation is the only read of a path and the last operation on it.
pub open spec fn sole_view(
    messages: Seq<JsonView>,
    cfg: &StaleReadsConfig,
    p: (int, int),
) -> bool {
    let s = operations(messages, cfg);
    &&& s.contains(p)
    &&& read_at(messages, p)
    &&& forall|j: int|
        0 <= j < s.len() && path_at(messages, #[trigger] s[j]) == path_at(messages, p) && s[j] != p
            ==> before(s[j], p) && !read_at(messages, s[j])
}

/// Whether the result for an id is stale: one of the operations that name the id is superseded.
pub open spec fn stale(messages: Seq<JsonView>, cfg: &StaleReadsConfig, id: Seq<char>) -> bool {
    let s = operations(messages, cfg);
    exists|i: int|
        0 <= i < s.len() && id_at(messages, #[trigger] s[i]) == Some(id) && superseded(
            messages,
            cfg,
            s[i],
        )
}

/// How many turns of the assistant are recent.
pub open spec fn keep_turns(cfg: &StaleReadsConfig) -> nat {
    if cfg.keep_recent_turns == 0 {
        1
    } else {
        cfg.keep_recent_turns as nat
    }
}

/// Whether the operation at a position names an id and is an old sole view of a path.
pub open spec fn old_view(
    messages: Seq<JsonView>,
    cfg: &StaleReadsConfig,
    id: Seq<char>,
    p: (int, int),
    path: Seq<char>,
) -> bool {
    &&& id_at(messages, p) == Some(id)
    &&& path_at(messages, p) == Some(path)
    &&& sole_view(messages, cfg, p)
    &&& is_old(cutoff(messages, keep_turns(cfg)), p.0)
}

/// Whether content bears a marker already.
pub open spec fn bears_marker(content: JsonView) -> bool {
    (content.as_str() matches Some(s) && begins(s, "[trimwire: "@)) || already_cleared(content)
}

/// The size of content as its reader sees it: of a text its bytes, of anything else the bytes of
/// its compact text.
pub open spec fn raw_len(content: JsonView) -> nat {
    match content.as_str() {
        Some(s) => utf8_len(s),
        None => text_len(content),
    }
}

/// What stands in place of a read that is paged out: it names the file to read again.
pub open spec fn page_marker(path: Seq<char>, content: JsonView) -> JsonView {
    JsonView::String(
        "[trimwire: paged out — Read "@ + path + " ("@ + decimal(raw_len(content))
            + " bytes); re-read the file to restore]"@,
    )
}

/// Whether the result for an id can be paged out to a path: it is an old sole view of the path, and
/// the note is smaller.
pub open spec fn pages_to(
    messages: Seq<JsonView>,
    cfg: &StaleReadsConfig,
    id: Seq<char>,
    content: JsonView,
    path: Seq<char>,
) -> bool {
    let s = operations(messages, cfg);
    &&& exists|i: int| 0 <= i < s.len() && old_view(messages, cfg, id, #[trigger] s[i], path)
    &&& text_len(page_marker(path, content)) < text_len(content)
}

/// Whether a path is the one that the note names: the first of those that come into question.
pub open spec fn named_path(
    messages: Seq<JsonView>,
    cfg: &StaleReadsConfig,
    id: Seq<char>,
    content: JsonView,
    path: Seq<char>,
) -> bool {
    &&& pages_to(messages, cfg, id, content, path)
    &&& forall|other: Seq<char>| #[trigger]
        pages_to(messages, cfg, id, content, other) ==> !precedes(other, path)
}

/// What takes the place of content that is paged out: where paging is on and the content is large
/// and bears no marker, a note that names the path to read again.
pub open spec fn paged(
    messages: Seq<JsonView>,
    cfg: &StaleReadsConfig,
    id: Seq<char>,
    content: JsonView,
) -> Option<JsonView> {
    if cfg.page_min_bytes > 0 && text_len(content) > cfg.page_min_bytes && !bears_marker(content)
        && exists|path: Seq<char>| named_path(messages, cfg, id, content, path) {
        Some(
            page_marker(
                choose|path: Seq<char>| named_path(messages, cfg, id, content, path),
                content,
            ),
        )
    } else {
        None
    }
}

/// What takes the place of content that is stale, if it is smaller.
pub open spec fn elided(
    messages: Seq<JsonView>,
    cfg: &StaleReadsConfig,
    id: Seq<char>,
    content: JsonView,
) -> Option<JsonView> {
    let new = marker(cfg.stub@, content);
    if stale(messages, cfg, id) && text_len(new) < text_len(content) {
        Some(new)
    } else {
        None
    }
}

/// What takes the place of the content of the result for an id: stale content is elided, and what
/// is then there may be paged out.
pub open spec fn read_stub(
    messages: Seq<JsonView>,
    cfg: &StaleReadsConfig,
    id: Seq<char>,
    content: JsonView,
) -> Option<JsonView> {
    match elided(messages, cfg, id, content) {
        Some(new) => match paged(messages, cfg, id, new) {
            Some(note) => Some(note),
            None => Some(new),
        },
        None => paged(messages, cfg, id, content),
    }
}

/// What becomes of a block. Results that are errors or bear a marker stay.
pub open spec fn read_edit(
    messages: Seq<JsonView>,
    cfg: &StaleReadsConfig,
    mi: int,
    ci: int,
    block: JsonView,
) -> Option<JsonView> {
    match stands_for(messages, mi, ci, block) {
        Some(id) => match block.get("content"@) {
            Some(content) => if flagged(block) || bears_marker(content) {
                None
            } else {
                match read_stub(messages, cfg, id, content) {
                    Some(new) => Some(block.with("content"@, new)),
                    None => None,
                }
            },
            None => None,
        },
        None => None,
    }
}

/// The path that a note names is settled.
pub proof fn lemma_named_path(
    messages: Seq<JsonView>,
    cfg: &StaleReadsConfig,
    id: Seq<char>,
    content: JsonView,
    path: Seq<char>,
    other: Seq<char>,
)
    requires
        named_path(messages, cfg, id, content, path),
        named_path(messages, cfg, id, content, other),
    ensures
        path == other,
{
    lemma_precedes_total(path, other);
}

/// The elision as a rule on blocks.
pub open spec fn read_rule(messages: Seq<JsonView>, cfg: &StaleReadsConfig) -> Rule {
    |mi: int, ci: int, b: JsonView| read_edit(messages, cfg, mi, ci, b)
}

/// Whether content bears a marker already.
pub fn has_marker(content: &Json) -> (r: bool)
    ensures
        r == bears_marker(content@),
{
    let marked = match content.as_str() {
        Some(s) => starts_with(s, "[trimwire: "),
        None => false,
    };
    marked || is_already_cleared(content)
}

struct OpTest<'a> {
    messages: &'a Vec<Json>,
    cfg: &'a StaleReadsConfig,
}

impl<'a> BlockTest for OpTest<'a> {
    closed spec fn ready(&self) -> bool {
        true
    }

    closed spec fn holds(&self, mi: int, ci: int, block: JsonView) -> bool {
        tracked_op(views(self.messages@), self.cfg, mi, ci, block)
    }

    fn test(&self, mi: usize, ci: usize, block: &Json) -> (r: bool) {
        proof {
            lemma_views(self.messages@);
        }
        if mi >= self.messages.len() || !self.messages[mi].member_is("role", "assistant")
            || !block.member_is("type", "tool_use") {
            return false;
        }
        match block.get_str("name") {
            Some(name) => {
                if matches_any(&self.cfg.exempt_tools, name) || block.get_str("id").is_none() {
                    return false;
                }
                match block.get("input") {
                    Some(input) => match extract_path(name, input) {
                        Some(path) => !matches_any(&self.cfg.protected_file_patterns, path),
                        None => false,
                    },
                    None => false,
                }
            },
            None => false,
        }
    }
}

/// What is known of the tracked operations.
struct Ops {
    sites: Vec<(usize, usize)>,
    ids: Vec<String>,
    paths: Vec<String>,
    reads: Vec<bool>,
}

impl Ops {
    spec fn describes(&self, messages: Seq<JsonView>, cfg: &StaleReadsConfig) -> bool {
        let s = operations(messages, cfg);
        &&& ints(self.sites@) == s
        &&& self.ids@.len() == s.len()
        &&& self.paths@.len() == s.len()
        &&& self.reads@.len() == s.len()
        &&& forall|i: int| 0 <= i < s.len() ==> id_at(messages, s[i]) == Some(
            (#[trigger] self.ids@[i])@,
        )
        &&& forall|i: int| 0 <= i < s.len() ==> path_at(messages, s[i]) == Some(
            (#[trigger] self.paths@[i])@,
        )
        &&& forall|i: int| 0 <= i < s.len() ==> read_at(messages, s[i]) == #[trigger] self.reads@[i]
        &&& forall|i: int| 0 <= i < s.len() ==> #[trigger] s[i] == (
            self.sites@[i].0 as int,
            self.sites@[i].1 as int,
        )
    }

    fn gather(messages: &Vec<Json>, cfg: &StaleReadsConfig) -> (r: Ops)
        ensures
            r.describes(views(messages@), cfg),
    {
        let ghost all = views(messages@);
        let ghost s = operations(all, cfg);
        let test = OpTest { messages, cfg };
        let sites = find_sites(messages, &test);
        proof {
            assert((|mi: int, ci: int, b: JsonView| test.holds(mi, ci, b)) =~= (|
                mi: int,
                ci: int,
                b: JsonView,
            | tracked_op(all, cfg, mi, ci, b)));
            lemma_sites(all, |mi: int, ci: int, b: JsonView| tracked_op(all, cfg, mi, ci, b));
        }
        let mut ids: Vec<String> = Vec::new();
        let mut paths: Vec<String> = Vec::new();
        let mut reads: Vec<bool> = Vec::new();
        let mut i: usize = 0;
        while i < sites.len()
            invariant
                i <= sites@.len(),
                all == views(messages@),
                s == operations(all, cfg),
                ints(sites@) == s,
                forall|k: int| 0 <= k < s.len() ==> {
                    let p = #[trigger] s[k];
                    block_at(all, p.0, p.1) matches Some(b) && tracked_op(all, cfg, p.0, p.1, b)
                },
                ids@.len() == i,
                paths@.len() == i,
                reads@.len() == i,
                forall|k: int| 0 <= k < i ==> id_at(all, s[k]) == Some((#[trigger] ids@[k])@),
                forall|k: int| 0 <= k < i ==> path_at(all, s[k]) == Some((#[trigger] paths@[k])@),
                forall|k: int| 0 <= k < i ==> read_at(all, s[k]) == #[trigger] reads@[k],
            decreases sites@.len() - i,
        {
            let p = sites[i];
            assert(s[i as int] == (p.0 as int, p.1 as int));
            if let Some(block) = get_block(messages, p.0, p.1) {
                if let Some(name) = block.get_str("name") {
                    if let Some(input) = block.get("input") {
                        if let (Some(path), Some(id)) = (
                            extract_path(name, input),
                            block.get_str("id"),
                        ) {
                            ids.push(id.to_owned());
                            paths.push(path.to_owned());
                            reads.push(same_text(name, "Read"));
                        }
                    }
                }
            }
            i = i + 1;
        }
        proof {
            assert forall|k: int| 0 <= k < s.len() implies #[trigger] s[k] == (
                sites@[k].0 as int,
                sites@[k].1 as int,
            ) by {
                assert(ints(sites@)[k] == s[k]);
            }
        }
        Ops { sites, ids, paths, reads }
    }

    fn is_superseded(
        &self,
        i: usize,
        Ghost(messages): Ghost<Seq<JsonView>>,
        cfg: &StaleReadsConfig,
    ) -> (r: bool)
        requires
            self.describes(messages, cfg),
            i < self.sites@.len(),
        ensures
            r == superseded(messages, cfg, operations(messages, cfg)[i as int]),
    {
        let ghost s = operations(messages, cfg);
        let ghost p = s[i as int];
        assert(s.contains(p));
        assert(read_at(messages, p) == self.reads@[i as int]);
        assert(path_at(messages, p) == Some(self.paths@[i as int]@));
        if !self.reads[i] {
            return false;
        }
        let mut j: usize = 0;
        while j < self.sites.len()
            invariant
                i < self.sites@.len(),
                j <= self.sites@.len(),
                self.describes(messages, cfg),
                s == operations(messages, cfg),
                p == s[i as int],
                s.contains(p),
                read_at(messages, p),
                path_at(messages, p) == Some(self.paths@[i as int]@),
                forall|k: int| 0 <= k < j ==> !(path_at(messages, #[trigger] s[k]) == path_at(
                    messages,
                    p,
                ) && s[k].0 > p.0),
            decreases self.sites@.len() - j,
        {
            assert(path_at(messages, s[j as int]) == Some(self.paths@[j as int]@));
            if self.sites[j].0 > self.sites[i].0 && same_text(&self.paths[i], &self.paths[j]) {
                return true;
            }
            j = j + 1;
        }
        false
    }

    fn is_sole_view(
        &self,
        i: usize,
        Ghost(messages): Ghost<Seq<JsonView>>,
        cfg: &StaleReadsConfig,
    ) -> (r: bool)
        requires
            self.describes(messages, cfg),
            i < self.sites@.len(),
        ensures
            r == sole_view(messages, cfg, operations(messages, cfg)[i as int]),
    {
        let ghost s = operations(messages, cfg);
        let ghost p = s[i as int];
        proof {
            lemma_sites(messages, |mi: int, ci: int, b: JsonView| tracked_op(messages, cfg, mi, ci, b));
        }
        assert(s.contains(p));
        assert(read_at(messages, p) == self.reads@[i as int]);
        assert(path_at(messages, p) == Some(self.paths@[i as int]@));
        if !self.reads[i] {
            return false;
        }
        let mut j: usize = 0;
        while j < self.sites.len()
            invariant
                i < self.sites@.len(),
                j <= self.sites@.len(),
                self.describes(messages, cfg),
                s == operations(messages, cfg),
                p == s[i as int],
                s.contains(p),
                read_at(messages, p),
                path_at(messages, p) == Some(self.paths@[i as int]@),
                forall|a: int, b: int| 0 <= a < b < s.len() ==> before(#[trigger] s[a], #[trigger] s[b]),
                forall|k: int| 0 <= k < j && path_at(messages, #[trigger] s[k]) == path_at(messages, p) && s[k] != p
                    ==> before(s[k], p) && !read_at(messages, s[k]),
            decreases self.sites@.len() - j,
        {
            assert(path_at(messages, s[j as int]) == Some(self.paths@[j as int]@));
            assert(read_at(messages, s[j as int]) == self.reads@[j as int]);
            if j != i {
                if j < i {
                    assert(before(s[j as int], s[i as int]));
                } else {
                    assert(before(s[i as int], s[j as int]));
                }
                if same_text(&self.paths[i], &self.paths[j]) && (j > i || self.reads[j]) {
                    return false;
                }
            }
            j = j + 1;
        }
        true
    }

    fn is_stale(
        &self,
        id: &str,
        Ghost(messages): Ghost<Seq<JsonView>>,
        cfg: &StaleReadsConfig,
    ) -> (r: bool)
        requires
            self.describes(messages, cfg),
        ensures
            r == stale(messages, cfg, id@),
    {
        let ghost s = operations(messages, cfg);
        let mut i: usize = 0;
        while i < self.sites.len()
            invariant
                i <= self.sites@.len(),
                self.describes(messages, cfg),
                s == operations(messages, cfg),
                forall|k: int| 0 <= k < i ==> !(id_at(messages, #[trigger] s[k]) == Some(id@)
                    && superseded(messages, cfg, s[k])),
            decreases self.sites@.len() - i,
        {
            assert(id_at(messages, s[i as int]) == Some(self.ids@[i as int]@));
            if same_text(&self.ids[i], id) && self.is_superseded(i, Ghost(messages), cfg) {
                return true;
            }
            i = i + 1;
        }
        false
    }

    fn page(
        &self,
        id: &str,
        content: &Json,
        cut: Option<usize>,
        Ghost(messages): Ghost<Seq<JsonView>>,
        cfg: &StaleReadsConfig,
    ) -> (r: Option<Json>)
        requires
            self.describes(messages, cfg),
            opt_int(cut) == cutoff(messages, keep_turns(cfg)),
        ensures
            crate::rewrite::opt_json(r) == paged(messages, cfg, id@, content@),
    {
        let size: usize = value_len(content);
        if cfg.page_min_bytes == 0 || size <= cfg.page_min_bytes || has_marker(content) {
            return None;
        }
        let ghost s = operations(messages, cfg);
        let mut best: Option<(usize, Json)> = None;
        let mut i: usize = 0;
        while i < self.sites.len()
            invariant
                i <= self.sites@.len(),
                self.describes(messages, cfg),
                opt_int(cut) == cutoff(messages, keep_turns(cfg)),
                s == operations(messages, cfg),
                size == text_len(content@),
                match best {
                    Some((b, note)) => b < i && note@ == page_marker(
                        self.paths@[b as int]@,
                        content@,
                    ) && text_len(note@) < size && old_view(
                        messages,
                        cfg,
                        id@,
                        s[b as int],
                        self.paths@[b as int]@,
                    ) && forall|k: int, path: Seq<char>|
                        0 <= k < i && #[trigger] old_view(messages, cfg, id@, s[k], path)
                            && text_len(page_marker(path, content@)) < size ==> !precedes(
                            path,
                            self.paths@[b as int]@,
                        ),
                    None => forall|k: int, path: Seq<char>|
                        0 <= k < i && #[trigger] old_view(messages, cfg, id@, s[k], path)
                            ==> text_len(page_marker(path, content@)) >= size,
                },
            decreases self.sites@.len() - i,
        {
            let ghost was = best;
            assert(id_at(messages, s[i as int]) == Some(self.ids@[i as int]@));
            assert(path_at(messages, s[i as int]) == Some(self.paths@[i as int]@));
            assert(s[i as int] == (self.sites@[i as int].0 as int, self.sites@[i as int].1 as int));
            if same_text(&self.ids[i], id) && old_at(cut, self.sites[i].0) && self.is_sole_view(
                i,
                Ghost(messages),
                cfg,
            ) {
                assert(old_view(messages, cfg, id@, s[i as int], self.paths@[i as int]@));
                let note = page_note(&self.paths[i], content, size);
                if value_len(&note) < size {
                    let first = match &best {
                        Some((b, _)) => comes_before(&self.paths[i], &self.paths[*b]),
                        None => true,
                    };
                    if first {
                        proof {
                            if let Some((b, _)) = best {
                                assert forall|k: int, path: Seq<char>|
                                    0 <= k < i && #[trigger] old_view(
                                        messages,
                                        cfg,
                                        id@,
                                        s[k],
                                        path,
                                    ) && text_len(page_marker(path, content@)) < size implies !precedes(
                                    path,
                                    self.paths@[i as int]@,
                                ) by {
                                    if precedes(path, self.paths@[i as int]@) {
                                        lemma_precedes_chain(
                                            path,
                                            self.paths@[i as int]@,
                                            self.paths@[b as int]@,
                                        );
                                    }
                                }
                            }
                            lemma_precedes_itself(self.paths@[i as int]@);
                        }
                        best = Some((i, note));
                    }
                }
            }
            i = i + 1;
        }
        match best {
            Some((b, note)) => {
                proof {
                    let path = self.paths@[b as int]@;
                    assert(pages_to(messages, cfg, id@, content@, path));
                    assert(named_path(messages, cfg, id@, content@, path));
                    let chosen = choose|path: Seq<char>| named_path(messages, cfg, id@, content@, path);
                    lemma_named_path(messages, cfg, id@, content@, path, chosen);
                }
                Some(note)
            },
            None => None,
        }
    }
}

struct Elide<'a> {
    messages: &'a Vec<Json>,
    index: &'a PairingIndex,
    cfg: &'a StaleReadsConfig,
    ops: &'a Ops,
    cut: Option<usize>,
}

/// What stands in place of a read that is paged out, where the text of the content takes `size`
/// bytes.
fn page_note(path: &str, content: &Json, size: usize) -> (r: Json)
    requires
        size == text_len(content@),
    ensures
        r@ == page_marker(path@, content@),
{
    let raw: usize = match content.as_str() {
        Some(t) => byte_len(t),
        None => size,
    };
    let mut note = "[trimwire: paged out — Read ".to_owned();
    note.append(path);
    note.append(" (");
    note.append(&decimal_of(raw));
    note.append(" bytes); re-read the file to restore]");
    Json::String(note)
}

impl<'a> BlockRule for Elide<'a> {
    closed spec fn ready(&self) -> bool {
        let all = views(self.messages@);
        &&& self.index.describes(all)
        &&& self.ops.describes(all, self.cfg)
        &&& opt_int(self.cut) == cutoff(all, keep_turns(self.cfg))
    }

    closed spec fn rule(&self, mi: int, ci: int, block: JsonView) -> Option<JsonView> {
        read_edit(views(self.messages@), self.cfg, mi, ci, block)
    }

    fn decide(&self, mi: usize, ci: usize, block: &Json) -> (r: Option<Json>) {
        let ghost all = views(self.messages@);
        let id = match self.index.id_for(mi, ci, block, Ghost(all)) {
            Some(id) => id,
            None => return None,
        };
        let content = match block.get("content") {
            Some(content) => content,
            None => return None,
        };
        if is_flagged(block) || has_marker(content) {
            return None;
        }
        if self.ops.is_stale(id, Ghost(all), self.cfg) {
            let new = elision_marker(&self.cfg.stub, content);
            if value_len(&new) < value_len(content) {
                let note = self.ops.page(id, &new, self.cut, Ghost(all), self.cfg);
                return match note {
                    Some(note) => Some(block_with(block, "content", note)),
                    None => Some(block_with(block, "content", new)),
                };
            }
        }
        match self.ops.page(id, content, self.cut, Ghost(all), self.cfg) {
            Some(note) => Some(block_with(block, "content", note)),
            None => None,
        }
    }
}

/// Elides the stale reads of a transcript and says how many were elided or paged out.
pub fn apply_counted(messages: &mut Vec<Json>, cfg: &StaleReadsConfig) -> (r: Result<
    usize,
    PairingError,
>)
    ensures
        ({
            let before = views(old(messages)@);
            let after = views(final(messages)@);
            match r {
                Ok(n) => paired(before) && after == rewrite(before, read_rule(before, cfg)) && n
                    == machine(count_changes(before, read_rule(before, cfg))),
                Err(e) => refused(before, e) && after == before,
            }
        }),
{
    let ghost all = views(messages@);
    let index = PairingIndex::build(messages);
    proof {
        lemma_describes_paired(index, all);
    }
    index.validate()?;
    let ghost rule = read_rule(all, cfg);
    let keep: usize = if cfg.keep_recent_turns == 0 {
        1
    } else {
        cfg.keep_recent_turns
    };
    let plan = {
        let ops = Ops::gather(messages, cfg);
        let elide = Elide {
            messages,
            index: &index,
            cfg,
            ops: &ops,
            cut: assistant_cutoff(messages, keep),
        };
        assert(rule =~= |mi: int, ci: int, b: JsonView| elide.rule(mi, ci, b));
        plan(messages, &elide)
    };
    Ok(plan.carry_out(messages, Ghost(rule)))
}

/// Elides the stale reads of a transcript.
pub fn apply(messages: &mut Vec<Json>, cfg: &StaleReadsConfig) -> (r: Result<Stats, PairingError>)
    ensures
        ({
            let before = views(old(messages)@);
            let after = views(final(messages)@);
            match r {
                Ok(stats) => paired(before) && after == rewrite(before, read_rule(before, cfg))
                    && stats.stubbed == machine(count_changes(before, read_rule(before, cfg)))
                    && stats.original_bytes == transcript_len(before) && stats.final_bytes
                    == transcript_len(after) && stats.final_bytes <= stats.original_bytes,
                Err(e) => refused(before, e) && after == before,
            }
        }),
{
    let original_bytes: usize = serialized_len(messages);
    let ghost before = views(messages@);
    let stubbed: usize = apply_counted(messages, cfg)?;
    let final_bytes: usize = serialized_len(messages);
    proof {
        law_reads_never_grow(before, cfg);
    }
    Ok(Stats { stubbed, original_bytes, final_bytes })
}

/// The elision sets nothing but the content of tool results, and cannot part a result from its
/// call.
pub proof fn law_stale_reads_scope(messages: Seq<JsonView>, cfg: &StaleReadsConfig)
    ensures
        only_sets(read_rule(messages, cfg), "tool_result"@, "content"@),
        paired(rewrite(messages, read_rule(messages, cfg))) <==> paired(messages),
{
    let rule = read_rule(messages, cfg);
    lemma_only_sets_keeps_ids(rule, "tool_result"@, "content"@);
    law_pairing_kept(messages, rule);
}

/// The elision never makes a transcript larger.
pub proof fn law_reads_never_grow(messages: Seq<JsonView>, cfg: &StaleReadsConfig)
    ensures
        transcript_len(rewrite(messages, read_rule(messages, cfg))) <= transcript_len(messages),
{
    let rule = read_rule(messages, cfg);
    assert forall|mi: int, ci: int, b: JsonView| (#[trigger] rule(mi, ci, b)) is Some implies size(
        rule(mi, ci, b)->0,
    ) <= size(b) by {
        let new = read_edit(messages, cfg, mi, ci, b)->0;
        lemma_with_no_larger(b, "content"@, new.get("content"@)->0);
    }
    law_no_larger(messages, rule);
}

} // verus!
