//! The image strip: of the results of listed tools the newest stay, and older images go.

use super::{law_sites, left_of, list_of, said_by};
use crate::config::{covered, ImageStripConfig};
use crate::json::JsonView;
use crate::pairing::{block_at, id_at};
use crate::pairing_laws::{answer_at, answers_as, law_has_answer, law_stands_for};
use crate::rewrite::{lemma_block_at, rewrite};
use crate::sites::{before, lemma_sites};
use crate::strategies::image_strip::{
    aged, any_image, image_call, image_calls, image_content, image_rule, listed_call, listed_calls,
};
use crate::text::utf8_len;
use vstd::prelude::*;

verus! {

/// Whether an item of content is an image with a source.
pub open spec fn picture(item: JsonView) -> bool {
    item.get("type"@) == Some(JsonView::String("image"@)) && item.get("source"@) is Some
        && item.get("source"@) != Some(JsonView::Null)
}

/// Whether a character is one of base64, of its padding, or white space of ASCII.
pub open spec fn of_base64(c: char) -> bool {
    ||| 'a' <= c <= 'z' || 'A' <= c <= 'Z' || '0' <= c <= '9'
    ||| c == '+' || c == '/' || c == '='
    ||| c == ' ' || '\t' <= c <= '\r'
}

/// Whether content is an image: an array with a picture at any place, an object that is one, or a
/// text of 4096 bytes or more of which every character is of base64.
pub open spec fn pictured(content: JsonView) -> bool {
    match content {
        JsonView::Array(items) => exists|i: int|
            0 <= i < items.len() && picture(#[trigger] items[i]),
        JsonView::Object(_) => content.get("type"@) == Some(JsonView::String("image"@)),
        JsonView::String(s) => utf8_len(s) >= 4096 && forall|i: int|
            0 <= i < s.len() ==> of_base64(#[trigger] s[i]),
        _ => false,
    }
}

/// Content counts as an image exactly where it is an array with an image that has a source at any
/// place, an image itself, or a long text of nothing but base64.
pub proof fn law_image_content(content: JsonView)
    ensures
        image_content(content) <==> pictured(content),
{
    if let JsonView::Array(items) = content {
        if pictured(content) {
            let i = choose|i: int| 0 <= i < items.len() && picture(#[trigger] items[i]);
            assert(crate::strategies::image_strip::image_block(items[i]));
            assert(any_image(items));
        }
        if image_content(content) {
            let i = choose|i: int|
                0 <= i < items.len() && crate::strategies::image_strip::image_block(
                    #[trigger] items[i],
                );
            assert(picture(items[i]));
        }
    }
    if let JsonView::String(s) = content {
        assert forall|i: int| 0 <= i < s.len() implies of_base64(#[trigger] s[i])
            == crate::strategies::image_strip::base64_char(s[i]) by {}
    }
}

/// Whether a block is a call of the assistant to a listed tool, under an id that has its result.
pub open spec fn shoots(
    messages: Seq<JsonView>,
    cfg: &ImageStripConfig,
    id: Seq<char>,
    p: (int, int),
) -> bool {
    &&& said_by(messages, p.0, "assistant"@)
    &&& block_at(messages, p.0, p.1) matches Some(b) && b.get("type"@) == Some(
        JsonView::String("tool_use"@),
    ) && b.get("id"@) == Some(JsonView::String(id)) && (b.get("name"@) matches Some(
        JsonView::String(name),
    ) && covered(cfg.applies_to_tools@, name))
    &&& exists|mi: int, ci: int|
        #![trigger block_at(messages, mi, ci)]
        block_at(messages, mi, ci) matches Some(r) && answers_as(r, id)
}

/// Whether a block is the last call of the assistant to a listed tool under its id.
pub open spec fn shoots_last(
    messages: Seq<JsonView>,
    cfg: &ImageStripConfig,
    id: Seq<char>,
    p: (int, int),
) -> bool {
    shoots(messages, cfg, id, p) && forall|q: (int, int)| #[trigger]
        shoots(messages, cfg, id, q) ==> !before(p, q)
}

/// Whether some ids are those of the results of listed tools, in the order of their last calls.
pub open spec fn shot_ids(
    messages: Seq<JsonView>,
    cfg: &ImageStripConfig,
    ids: Seq<Seq<char>>,
    at: Seq<(int, int)>,
) -> bool {
    &&& ids.len() == at.len()
    &&& forall|i: int|
        0 <= i < at.len() ==> shoots_last(messages, cfg, #[trigger] ids[i], #[trigger] at[i])
    &&& forall|i: int, j: int| 0 <= i < j < at.len() ==> before(#[trigger] at[i], #[trigger] at[j])
    &&& forall|id: Seq<char>, p: (int, int)| #[trigger]
        shoots_last(messages, cfg, id, p) ==> at.contains(p)
}

proof fn lemma_shoots(
    messages: Seq<JsonView>,
    cfg: &ImageStripConfig,
    id: Seq<char>,
    p: (int, int),
)
    ensures
        shoots(messages, cfg, id, p) <==> listed_calls(messages, cfg).contains(p) && id_at(
            messages,
            p,
        ) == Some(id),
{
    let f = |mi: int, ci: int, b: JsonView| listed_call(messages, cfg, mi, ci, b);
    let s = listed_calls(messages, cfg);
    lemma_sites(messages, f);
    law_has_answer(messages, id);
    if shoots(messages, cfg, id, p) {
        assert(f(p.0, p.1, block_at(messages, p.0, p.1)->0));
        assert(s.contains((p.0, p.1)));
    }
    if s.contains(p) && id_at(messages, p) == Some(id) {
        let k = choose|k: int| 0 <= k < s.len() && s[k] == p;
        assert(f(p.0, p.1, block_at(messages, p.0, p.1)->0));
    }
}

proof fn lemma_shoots_last(
    messages: Seq<JsonView>,
    cfg: &ImageStripConfig,
    id: Seq<char>,
    p: (int, int),
)
    ensures
        shoots_last(messages, cfg, id, p) <==> image_calls(messages, cfg).contains(p) && id_at(
            messages,
            p,
        ) == Some(id),
{
    let f = |mi: int, ci: int, b: JsonView| listed_call(messages, cfg, mi, ci, b);
    let g = |mi: int, ci: int, b: JsonView| image_call(messages, cfg, mi, ci, b);
    let l = listed_calls(messages, cfg);
    let s = image_calls(messages, cfg);
    lemma_sites(messages, f);
    lemma_sites(messages, g);
    lemma_shoots(messages, cfg, id, p);
    if shoots_last(messages, cfg, id, p) {
        let b = block_at(messages, p.0, p.1)->0;
        assert forall|j: int|
            0 <= j < l.len() && id_at(messages, #[trigger] l[j]) == b.get_str("id"@) implies !before(
            (p.0, p.1),
            l[j],
        ) by {
            lemma_shoots(messages, cfg, id, l[j]);
            assert(l.contains(l[j]));
            assert(shoots(messages, cfg, id, l[j]));
        }
        let k = choose|k: int| 0 <= k < l.len() && l[k] == p;
        assert(f(l[k].0, l[k].1, b));
        assert(g(p.0, p.1, b));
        assert(s.contains((p.0, p.1)));
    }
    if s.contains(p) && id_at(messages, p) == Some(id) {
        let k = choose|k: int| 0 <= k < s.len() && s[k] == p;
        let b = block_at(messages, p.0, p.1)->0;
        assert(g(p.0, p.1, b));
        assert(f(p.0, p.1, b));
        assert(l.contains((p.0, p.1)));
        assert forall|q: (int, int)| #[trigger] shoots(messages, cfg, id, q) implies !before(p, q) by {
            lemma_shoots(messages, cfg, id, q);
            let j = choose|j: int| 0 <= j < l.len() && l[j] == q;
            assert(id_at(messages, l[j]) == b.get_str("id"@));
        }
    }
}

/// Of the results of listed tools, as many of the newest as are to be kept stay as they are. Each
/// older one whose content is an image, whatever else the content holds and wherever in it the
/// image stands, gives way to the stub and the size of what is gone; one that is no image stays.
pub proof fn law_old_images_go(
    messages: Seq<JsonView>,
    cfg: &ImageStripConfig,
    ids: Seq<Seq<char>>,
    at: Seq<(int, int)>,
    k: int,
    mi: int,
    ci: int,
)
    requires
        shot_ids(messages, cfg, ids, at),
        0 <= k < ids.len(),
        answer_at(messages, ids[k], mi, ci),
    ensures
        ({
            let b = block_at(messages, mi, ci)->0;
            let content = b.get("content"@);
            block_at(rewrite(messages, image_rule(messages, cfg)), mi, ci) == Some(
                if k + cfg.keep_recent_count < ids.len() && content is Some && pictured(
                    content->0,
                ) {
                    b.with("content"@, left_of(cfg.stub@, content->0))
                } else {
                    b
                },
            )
        }),
{
    let rule = image_rule(messages, cfg);
    let s = image_calls(messages, cfg);
    let b = block_at(messages, mi, ci)->0;
    lemma_block_at(messages, rule, mi, ci);
    law_stands_for(messages, ids[k], mi, ci);
    lemma_shot_list(messages, cfg, ids, at);
    if b.get("content"@) is Some {
        law_image_content(b.get("content"@)->0);
    }
    assert(aged(messages, cfg, ids[k]) <==> k + cfg.keep_recent_count < ids.len()) by {
        if k + cfg.keep_recent_count < ids.len() {
            assert(id_at(messages, s[k]) == Some(ids[k]));
        }
        if aged(messages, cfg, ids[k]) {
            let i = choose|i: int|
                0 <= i < s.len() - cfg.keep_recent_count && id_at(messages, #[trigger] s[i]) == Some(
                    ids[k],
                );
            lemma_shoots_last(messages, cfg, ids[k], s[i]);
            assert(s.contains(s[i]));
            assert(shoots_last(messages, cfg, ids[k], s[i]));
            assert(shoots_last(messages, cfg, ids[k], at[k])) by {
                assert(shoots_last(messages, cfg, ids[k], at[k]));
            }
            if i < k {
                assert(before(at[i], at[k]));
                assert(shoots(messages, cfg, ids[k], at[k]));
            }
            if k < i {
                assert(before(at[k], at[i]));
                assert(shoots(messages, cfg, ids[k], s[i]));
            }
        }
    }
}

proof fn lemma_shot_list(
    messages: Seq<JsonView>,
    cfg: &ImageStripConfig,
    ids: Seq<Seq<char>>,
    at: Seq<(int, int)>,
)
    requires
        shot_ids(messages, cfg, ids, at),
    ensures
        at == image_calls(messages, cfg),
        forall|i: int| 0 <= i < at.len() ==> id_at(messages, #[trigger] at[i]) == Some(ids[i]),
{
    let g = |mi: int, ci: int, b: JsonView| image_call(messages, cfg, mi, ci, b);
    let s = image_calls(messages, cfg);
    lemma_sites(messages, g);
    assert forall|i: int| 0 <= i < at.len() implies s.contains(#[trigger] at[i]) && id_at(
        messages,
        at[i],
    ) == Some(ids[i]) by {
        assert(shoots_last(messages, cfg, ids[i], at[i]));
        lemma_shoots_last(messages, cfg, ids[i], at[i]);
    }
    assert forall|i: int| 0 <= i < at.len() implies {
        let p = #[trigger] at[i];
        block_at(messages, p.0, p.1) matches Some(b) && g(p.0, p.1, b)
    } by {
        assert(s.contains(at[i]));
        let k = choose|k: int| 0 <= k < s.len() && s[k] == at[i];
        assert(block_at(messages, s[k].0, s[k].1) is Some);
    }
    assert forall|mi: int, ci: int|
        (#[trigger] block_at(messages, mi, ci) matches Some(b) && g(mi, ci, b)) implies at.contains(
        (mi, ci),
    ) by {
        let b = block_at(messages, mi, ci)->0;
        assert(s.contains((mi, ci)));
        let id = b.get_str("id"@)->0;
        lemma_shoots_last(messages, cfg, id, (mi, ci));
        assert(shoots_last(messages, cfg, id, (mi, ci)));
    }
    assert(list_of(messages, g, at));
    law_sites(messages, g, at);
}

/// A block that is not the result of a listed tool stays as it is.
pub proof fn law_other_blocks_stay(
    messages: Seq<JsonView>,
    cfg: &ImageStripConfig,
    mi: int,
    ci: int,
)
    requires
        block_at(messages, mi, ci) is Some,
        forall|id: Seq<char>, p: (int, int)|
            #![trigger shoots(messages, cfg, id, p)]
            shoots(messages, cfg, id, p) ==> !answer_at(messages, id, mi, ci),
    ensures
        block_at(rewrite(messages, image_rule(messages, cfg)), mi, ci) == block_at(
            messages,
            mi,
            ci,
        ),
{
    let rule = image_rule(messages, cfg);
    let s = image_calls(messages, cfg);
    let b = block_at(messages, mi, ci)->0;
    lemma_block_at(messages, rule, mi, ci);
    if rule(mi, ci, b) is Some {
        let id = crate::pairing::stands_for(messages, mi, ci, b)->0;
        law_stands_for(messages, id, mi, ci);
        let i = choose|i: int|
            0 <= i < s.len() - cfg.keep_recent_count && id_at(messages, #[trigger] s[i]) == Some(id);
        lemma_shoots_last(messages, cfg, id, s[i]);
        assert(s.contains(s[i]));
        assert(shoots(messages, cfg, id, s[i]));
    }
}

} // verus!
