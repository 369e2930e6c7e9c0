//! The elision of stale reads: what a later operation on the same file has made stale goes, and the
//! current view of a file is paged out only where it was read once, long ago, and is large.

use super::{cleared, law_marker, law_old, law_terms, left_of, opens_with, said_by, turns_from};
use crate::config::{covered, StaleReadsConfig};
use crate::json::JsonView;
use crate::pairing::{block_at, id_at, stands_for};
use crate::pairing_laws::{answer_at, calls_as, law_stands_for};
use crate::rewrite::{lemma_block_at, rewrite};
use crate::sites::{before, lemma_sites};
use crate::size::size;
use crate::strategies::stale_reads::{
    bears_marker, keep_turns, lemma_named_path, named_path, old_view, operations, page_marker,
    paged, pages_to, path_at, read_at, read_rule, stale, superseded, tracked_op,
};
use crate::text::{decimal, precedes, utf8_len};
use crate::text_laws::law_begins;
use vstd::prelude::*;

verus! {

/// Whether a tool reads or writes the file that its input names.
pub open spec fn on_files(name: Seq<char>) -> bool {
    name == "Read"@ || name == "Write"@ || name == "Edit"@ || name == "MultiEdit"@
}

/// Whether an input names a path: by its file, or, where it has none, by its path.
pub open spec fn names(input: JsonView, path: Seq<char>) -> bool {
    path.len() > 0 && (if input.get("file_path"@) is Some {
        input.get("file_path"@)
    } else {
        input.get("path"@)
    }) == Some(JsonView::String(path))
}

/// Whether a block is a call of the assistant under an id, by a tool on files that is not exempt, on
/// a path that is not protected.
pub open spec fn works_on(
    messages: Seq<JsonView>,
    cfg: &StaleReadsConfig,
    id: Seq<char>,
    path: Seq<char>,
    p: (int, int),
) -> bool {
    &&& said_by(messages, p.0, "assistant"@)
    &&& block_at(messages, p.0, p.1) matches Some(b) && calls_as(b, id) && (b.get(
        "name"@,
    ) matches Some(JsonView::String(name)) && on_files(name) && !covered(cfg.exempt_tools@, name))
        && (b.get("input"@) matches Some(input) && names(input, path))
    &&& !covered(cfg.protected_file_patterns@, path)
}

/// Whether such a call is a read.
pub open spec fn reads(messages: Seq<JsonView>, p: (int, int)) -> bool {
    block_at(messages, p.0, p.1) matches Some(b) && b.get("name"@) == Some(
        JsonView::String("Read"@),
    )
}

proof fn lemma_works_on(
    messages: Seq<JsonView>,
    cfg: &StaleReadsConfig,
    id: Seq<char>,
    path: Seq<char>,
    p: (int, int),
)
    ensures
        works_on(messages, cfg, id, path, p) <==> operations(messages, cfg).contains(p) && id_at(
            messages,
            p,
        ) == Some(id) && path_at(messages, p) == Some(path),
        operations(messages, cfg).contains(p) ==> id_at(messages, p) is Some && path_at(
            messages,
            p,
        ) is Some,
        reads(messages, p) == read_at(messages, p),
{
    let f = |mi: int, ci: int, b: JsonView| tracked_op(messages, cfg, mi, ci, b);
    let s = operations(messages, cfg);
    lemma_sites(messages, f);
    if works_on(messages, cfg, id, path, p) {
        let b = block_at(messages, p.0, p.1)->0;
        assert(f(p.0, p.1, b));
        assert(s.contains((p.0, p.1)));
    }
    if s.contains(p) {
        let k = choose|k: int| 0 <= k < s.len() && s[k] == p;
        assert(f(p.0, p.1, block_at(messages, p.0, p.1)->0));
    }
}

/// Whether a read under an id has gone stale: a call in a later message works on the same path.
pub open spec fn gone_stale(messages: Seq<JsonView>, cfg: &StaleReadsConfig, id: Seq<char>) -> bool {
    exists|p: (int, int), q: (int, int), other: Seq<char>, path: Seq<char>|
        #![trigger works_on(messages, cfg, id, path, p), works_on(messages, cfg, other, path, q)]
        works_on(messages, cfg, id, path, p) && reads(messages, p) && works_on(
            messages,
            cfg,
            other,
            path,
            q,
        ) && q.0 > p.0
}

/// The result for an id is stale exactly where a read under it is of a path that a call in a later
/// message works on.
pub proof fn law_stale(messages: Seq<JsonView>, cfg: &StaleReadsConfig, id: Seq<char>)
    ensures
        stale(messages, cfg, id) <==> gone_stale(messages, cfg, id),
{
    let s = operations(messages, cfg);
    if stale(messages, cfg, id) {
        let i = choose|i: int|
            0 <= i < s.len() && id_at(messages, #[trigger] s[i]) == Some(id) && superseded(
                messages,
                cfg,
                s[i],
            );
        let p = s[i];
        let j = choose|j: int|
            0 <= j < s.len() && path_at(messages, #[trigger] s[j]) == path_at(messages, p) && s[j].0
                > p.0;
        let q = s[j];
        assert(s.contains(p) && s.contains(q));
        lemma_works_on(messages, cfg, id, Seq::empty(), p);
        lemma_works_on(messages, cfg, id, Seq::empty(), q);
        let path = path_at(messages, p)->0;
        let other = id_at(messages, q)->0;
        lemma_works_on(messages, cfg, id, path, p);
        lemma_works_on(messages, cfg, other, path, q);
        assert(works_on(messages, cfg, id, path, p) && works_on(messages, cfg, other, path, q));
    }
    if gone_stale(messages, cfg, id) {
        let (p, q, other, path) = choose|
            p: (int, int),
            q: (int, int),
            other: Seq<char>,
            path: Seq<char>,
        |
            #![trigger works_on(messages, cfg, id, path, p), works_on(messages, cfg, other, path, q)]
            works_on(messages, cfg, id, path, p) && reads(messages, p) && works_on(
                messages,
                cfg,
                other,
                path,
                q,
            ) && q.0 > p.0;
        lemma_works_on(messages, cfg, id, path, p);
        lemma_works_on(messages, cfg, other, path, q);
        let i = choose|i: int| 0 <= i < s.len() && s[i] == p;
        let j = choose|j: int| 0 <= j < s.len() && s[j] == q;
        assert(path_at(messages, s[j]) == path_at(messages, p) && s[j].0 > p.0);
        assert(superseded(messages, cfg, s[i]));
    }
}

/// Whether a call under an id is the only read of a path and the last call that works on it, with
/// more turns at it or behind it than are kept, which is one at least.
pub open spec fn read_once(
    messages: Seq<JsonView>,
    cfg: &StaleReadsConfig,
    id: Seq<char>,
    path: Seq<char>,
) -> bool {
    exists|p: (int, int)|
        #![trigger works_on(messages, cfg, id, path, p)]
        works_on(messages, cfg, id, path, p) && reads(messages, p) && turns_from(messages, p.0)
            > cfg.keep_recent_turns && turns_from(messages, p.0) > 1 && forall|
            q: (int, int),
            other: Seq<char>,
        | #[trigger]
            works_on(messages, cfg, other, path, q) && q != p ==> before(q, p) && !reads(messages, q)
}

proof fn lemma_read_once(
    messages: Seq<JsonView>,
    cfg: &StaleReadsConfig,
    id: Seq<char>,
    path: Seq<char>,
)
    ensures
        read_once(messages, cfg, id, path) <==> exists|i: int|
            0 <= i < operations(messages, cfg).len() && old_view(
                messages,
                cfg,
                id,
                #[trigger] operations(messages, cfg)[i],
                path,
            ),
{
    let s = operations(messages, cfg);
    if read_once(messages, cfg, id, path) {
        let p = choose|p: (int, int)|
            #![trigger works_on(messages, cfg, id, path, p)]
            works_on(messages, cfg, id, path, p) && reads(messages, p) && turns_from(messages, p.0)
                > cfg.keep_recent_turns && turns_from(messages, p.0) > 1 && forall|
                q: (int, int),
                other: Seq<char>,
            | #[trigger]
                works_on(messages, cfg, other, path, q) && q != p ==> before(q, p) && !reads(
                    messages,
                    q,
                );
        lemma_works_on(messages, cfg, id, path, p);
        law_old(messages, keep_turns(cfg), p.0);
        let i = choose|i: int| 0 <= i < s.len() && s[i] == p;
        assert forall|j: int|
            0 <= j < s.len() && path_at(messages, #[trigger] s[j]) == path_at(messages, p) && s[j]
                != p implies before(s[j], p) && !read_at(messages, s[j]) by {
            assert(s.contains(s[j]));
            lemma_works_on(messages, cfg, id, path, s[j]);
            let other = id_at(messages, s[j])->0;
            lemma_works_on(messages, cfg, other, path, s[j]);
            assert(works_on(messages, cfg, other, path, s[j]));
        }
        assert(old_view(messages, cfg, id, s[i], path));
    }
    if exists|i: int| 0 <= i < s.len() && old_view(messages, cfg, id, #[trigger] s[i], path) {
        let i = choose|i: int| 0 <= i < s.len() && old_view(messages, cfg, id, #[trigger] s[i], path);
        let p = s[i];
        assert(s.contains(p));
        lemma_works_on(messages, cfg, id, path, p);
        lemma_sites(
            messages,
            |mi: int, ci: int, b: JsonView| tracked_op(messages, cfg, mi, ci, b),
        );
        assert(block_at(messages, p.0, p.1) is Some);
        law_old(messages, keep_turns(cfg), p.0);
        assert forall|q: (int, int), other: Seq<char>| #[trigger]
            works_on(messages, cfg, other, path, q) && q != p implies before(q, p) && !reads(
            messages,
            q,
        ) by {
            lemma_works_on(messages, cfg, other, path, q);
            let j = choose|j: int| 0 <= j < s.len() && s[j] == q;
            assert(path_at(messages, s[j]) == path_at(messages, p));
        }
        assert(works_on(messages, cfg, id, path, p));
    }
}

/// What stands in place of content that is paged out to a path: which file, and how many bytes, of
/// a text those it has and of anything else those of its text.
pub open spec fn note_to(path: Seq<char>, content: JsonView) -> JsonView {
    let n = match content {
        JsonView::String(s) => utf8_len(s),
        _ => size(content),
    };
    JsonView::String(
        "[trimwire: paged out — Read "@ + path + " ("@ + decimal(n)
            + " bytes); re-read the file to restore]"@,
    )
}

/// Whether content bears a marker.
pub open spec fn is_marked(content: JsonView) -> bool {
    (content matches JsonView::String(s) && opens_with(s, "[trimwire: "@)) || cleared(content)
}

/// Whether content can be paged out to a path: it was read once, paging is on, it is larger than the
/// least that is paged, bears no marker, and the note is smaller.
pub open spec fn can_page(
    messages: Seq<JsonView>,
    cfg: &StaleReadsConfig,
    id: Seq<char>,
    content: JsonView,
    path: Seq<char>,
) -> bool {
    &&& read_once(messages, cfg, id, path)
    &&& 0 < cfg.page_min_bytes < size(content)
    &&& !is_marked(content)
    &&& size(note_to(path, content)) < size(content)
}

proof fn lemma_marked(content: JsonView)
    ensures
        bears_marker(content) == is_marked(content),
{
    law_terms(content, Seq::empty(), content, Seq::empty());
    if let JsonView::String(s) = content {
        law_begins(s, "[trimwire: "@);
    }
}

proof fn lemma_paged(
    messages: Seq<JsonView>,
    cfg: &StaleReadsConfig,
    id: Seq<char>,
    content: JsonView,
)
    ensures
        (forall|path: Seq<char>| !#[trigger] can_page(messages, cfg, id, content, path)) ==> paged(
            messages,
            cfg,
            id,
            content,
        ) is None,
        forall|path: Seq<char>|
            (#[trigger] can_page(messages, cfg, id, content, path) && forall|other: Seq<char>| #[trigger]
                can_page(messages, cfg, id, content, other) ==> !precedes(other, path)) ==> paged(
                messages,
                cfg,
                id,
                content,
            ) == Some(note_to(path, content)),
{
    lemma_marked(content);
    assert forall|path: Seq<char>|
        cfg.page_min_bytes > 0 && size(content) > cfg.page_min_bytes && !bears_marker(content) implies pages_to(
        messages,
        cfg,
        id,
        content,
        path,
    ) == #[trigger] can_page(messages, cfg, id, content, path) by {
        lemma_read_once(messages, cfg, id, path);
        assert(page_marker(path, content) == note_to(path, content));
    }
    if paged(messages, cfg, id, content) is Some {
        let path = choose|path: Seq<char>| named_path(messages, cfg, id, content, path);
        assert(can_page(messages, cfg, id, content, path));
    }
    assert forall|path: Seq<char>|
        (#[trigger] can_page(messages, cfg, id, content, path) && forall|other: Seq<char>| #[trigger]
            can_page(messages, cfg, id, content, other) ==> !precedes(other, path)) implies paged(
        messages,
        cfg,
        id,
        content,
    ) == Some(note_to(path, content)) by {
        assert(pages_to(messages, cfg, id, content, path));
        assert forall|other: Seq<char>| #[trigger]
            pages_to(messages, cfg, id, content, other) implies !precedes(other, path) by {
            assert(can_page(messages, cfg, id, content, other));
        }
        assert(named_path(messages, cfg, id, content, path));
        let chosen = choose|path: Seq<char>| named_path(messages, cfg, id, content, path);
        lemma_named_path(messages, cfg, id, content, path, chosen);
        assert(page_marker(path, content) == note_to(path, content));
    }
}

/// What is left of content after stale reads are elided: of a stale read, the stub and its size, if
/// that is smaller.
pub open spec fn after_elision(
    messages: Seq<JsonView>,
    cfg: &StaleReadsConfig,
    id: Seq<char>,
    content: JsonView,
) -> JsonView {
    if gone_stale(messages, cfg, id) && size(left_of(cfg.stub@, content)) < size(content) {
        left_of(cfg.stub@, content)
    } else {
        content
    }
}

/// What becomes of the result for an id. One that is no error and bears no marker is elided where it
/// has gone stale. What is then there stays where it can be paged out to no path; else a note takes
/// its place that names, of the paths to which it can, the one that no other comes before.
pub proof fn law_reads(
    messages: Seq<JsonView>,
    cfg: &StaleReadsConfig,
    id: Seq<char>,
    mi: int,
    ci: int,
    path: Seq<char>,
)
    requires
        answer_at(messages, id, mi, ci),
    ensures
        ({
            let b = block_at(messages, mi, ci)->0;
            let content = b.get("content"@)->0;
            let now = after_elision(messages, cfg, id, content);
            let after = block_at(rewrite(messages, read_rule(messages, cfg)), mi, ci);
            if b.get("content"@) is None || b.get("is_error"@) == Some(JsonView::Bool(true))
                || is_marked(content) {
                after == Some(b)
            } else {
                &&& (forall|p: Seq<char>| !#[trigger] can_page(messages, cfg, id, now, p))
                    ==> after == Some(b.with("content"@, now))
                &&& can_page(messages, cfg, id, now, path) && (forall|p: Seq<char>| #[trigger]
                    can_page(messages, cfg, id, now, p) ==> !precedes(p, path)) ==> after == Some(
                    b.with("content"@, note_to(path, now)),
                )
            }
        }),
{
    let b = block_at(messages, mi, ci)->0;
    lemma_block_at(messages, read_rule(messages, cfg), mi, ci);
    law_stands_for(messages, id, mi, ci);
    law_stale(messages, cfg, id);
    if let Some(content) = b.get("content"@) {
        crate::json::lemma_set_same(b, "content"@);
        lemma_marked(content);
        law_marker(cfg.stub@, content);
        lemma_paged(messages, cfg, id, content);
        lemma_paged(messages, cfg, id, left_of(cfg.stub@, content));
    }
}

/// A block that is not the result that counts for an id of a call on files stays.
pub proof fn law_reads_spare_others(
    messages: Seq<JsonView>,
    cfg: &StaleReadsConfig,
    mi: int,
    ci: int,
)
    requires
        block_at(messages, mi, ci) is Some,
        forall|id: Seq<char>, path: Seq<char>, p: (int, int)|
            #![trigger works_on(messages, cfg, id, path, p)]
            works_on(messages, cfg, id, path, p) ==> !answer_at(messages, id, mi, ci),
    ensures
        block_at(rewrite(messages, read_rule(messages, cfg)), mi, ci) == block_at(messages, mi, ci),
{
    let b = block_at(messages, mi, ci)->0;
    lemma_block_at(messages, read_rule(messages, cfg), mi, ci);
    if let Some(id) = stands_for(messages, mi, ci, b) {
        law_stands_for(messages, id, mi, ci);
        law_stale(messages, cfg, id);
        if gone_stale(messages, cfg, id) {
            assert(false);
        }
        if let Some(content) = b.get("content"@) {
            lemma_paged(messages, cfg, id, content);
        }
    }
}

} // verus!
