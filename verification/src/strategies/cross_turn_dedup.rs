//! Keeps of several results that say the same only the latest.

use super::{
    already_cleared, bears_stub, block_with, copy_member, elision_marker, has_role, has_stub,
    is_already_cleared, marker, member_or_null, serialized_len, text_len, transcript_len, value_len,
    Stats,
};
use crate::config::{covered, matches_any, CrossTurnDedupConfig};
use crate::json::{json_text, lemma_views, views, Json, JsonView};
use crate::pairing::{
    block_at, get_block, has_type, id_at, lemma_describes_paired, paired, refused, result_positions,
    stands_for, PairingError, PairingIndex,
};
use crate::rewrite::{
    count_changes, law_no_change, law_pairing_kept, lemma_only_sets_keeps_ids, machine, only_sets,
    plan, rewrite, BlockRule, Rule,
};
use crate::sites::{find_sites, ints, lemma_sites, sites, BlockTest};
use crate::text::{begins, chars_of, matches_at, opt_string, same_text};
use vstd::prelude::*;

verus! {

/// Whether a block is a call that takes part: made by the assistant, by a tool that is not exempt,
/// and answered.
pub open spec fn takes_part(
    messages: Seq<JsonView>,
    cfg: &CrossTurnDedupConfig,
    mi: int,
    ci: int,
    block: JsonView,
) -> bool {
    &&& 0 <= mi < messages.len()
    &&& has_role(messages[mi], "assistant"@)
    &&& has_type(block, "tool_use"@)
    &&& block.get_str("name"@) matches Some(name) && !covered(cfg.exempt_tools@, name)
    &&& block.get_str("id"@) matches Some(id) && result_positions(messages).contains_key(id)
}

/// The calls that take part, in order.
pub open spec fn calls(messages: Seq<JsonView>, cfg: &CrossTurnDedupConfig) -> Seq<(int, int)> {
    sites(messages, |mi: int, ci: int, b: JsonView| takes_part(messages, cfg, mi, ci, b))
}

/// The block at a position; null where there is none.
pub open spec fn block_or_null(messages: Seq<JsonView>, p: (int, int)) -> JsonView {
    match block_at(messages, p.0, p.1) {
        Some(b) => b,
        None => JsonView::Null,
    }
}

/// The tool that a call is made to.
pub open spec fn name_at(messages: Seq<JsonView>, p: (int, int)) -> Option<Seq<char>> {
    block_or_null(messages, p).get_str("name"@)
}

/// The text of the input of a call.
pub open spec fn input_at(messages: Seq<JsonView>, p: (int, int)) -> Seq<char> {
    json_text(member_or_null(block_or_null(messages, p), "input"@))
}

/// Where the result of a call stands.
pub open spec fn result_site(messages: Seq<JsonView>, p: (int, int)) -> (int, int) {
    match id_at(messages, p) {
        Some(id) => result_positions(messages)[id],
        None => (-1, -1),
    }
}

/// What a call gave, where that is a text that bears no stub.
pub open spec fn output_at(
    messages: Seq<JsonView>,
    cfg: &CrossTurnDedupConfig,
    p: (int, int),
) -> Option<Seq<char>> {
    let content = member_or_null(block_or_null(messages, result_site(messages, p)), "content"@);
    if bears_stub(content, cfg.stub@) {
        None
    } else {
        content.as_str()
    }
}

/// Whether two calls ask the same of the same tool.
pub open spec fn same_ask(messages: Seq<JsonView>, p: (int, int), q: (int, int)) -> bool {
    name_at(messages, p) == name_at(messages, q) && input_at(messages, p) == input_at(messages, q)
}

/// Whether no later call asks the same as a call.
pub open spec fn last_to_ask(
    messages: Seq<JsonView>,
    cfg: &CrossTurnDedupConfig,
    j: int,
) -> bool {
    let s = calls(messages, cfg);
    forall|k: int| j < k < s.len() ==> !same_ask(messages, s[j], #[trigger] s[k])
}

/// Whether what was asked under an id was asked again later, the last time under another id.
pub open spec fn repeated(
    messages: Seq<JsonView>,
    cfg: &CrossTurnDedupConfig,
    id: Seq<char>,
) -> bool {
    let s = calls(messages, cfg);
    exists|i: int, j: int|
        0 <= i < j < s.len() && id_at(messages, #[trigger] s[i]) == Some(id) && id_at(
            messages,
            #[trigger] s[j],
        ) != Some(id) && same_ask(messages, s[i], s[j]) && last_to_ask(messages, cfg, j)
}

/// Whether a call after one that names an id, to the same tool, gave the same and more.
pub open spec fn extended(
    messages: Seq<JsonView>,
    cfg: &CrossTurnDedupConfig,
    id: Seq<char>,
    text: Seq<char>,
) -> bool {
    let s = calls(messages, cfg);
    exists|i: int, j: int|
        0 <= i < j < s.len() && id_at(messages, #[trigger] s[i]) == Some(id) && name_at(
            messages,
            #[trigger] s[j],
        ) == name_at(messages, s[i]) && (output_at(messages, cfg, s[j]) matches Some(t) && t.len()
            > text.len() && begins(t, text))
}

/// Whether a call comes after all that name an id.
pub open spec fn after_all(
    messages: Seq<JsonView>,
    cfg: &CrossTurnDedupConfig,
    id: Seq<char>,
    j: int,
) -> bool {
    let s = calls(messages, cfg);
    forall|k: int| 0 <= k < s.len() && id_at(messages, #[trigger] s[k]) == Some(id) ==> k < j
}

/// Whether a call under another id gave the same text later: in a later message, or in the same
/// message and called later.
pub open spec fn echoed(
    messages: Seq<JsonView>,
    cfg: &CrossTurnDedupConfig,
    id: Seq<char>,
    text: Seq<char>,
) -> bool {
    let s = calls(messages, cfg);
    exists|i: int, j: int|
        0 <= i < s.len() && 0 <= j < s.len() && id_at(messages, #[trigger] s[i]) == Some(id)
            && id_at(messages, #[trigger] s[j]) != Some(id) && output_at(messages, cfg, s[j])
            == Some(text) && (result_site(messages, s[j]).0 > result_site(messages, s[i]).0 || (
        result_site(messages, s[j]).0 == result_site(messages, s[i]).0 && after_all(
            messages,
            cfg,
            id,
            j,
        )))
}

/// What becomes of a result: a marker takes the place of one whose call is repeated later.
pub open spec fn repeat_edit(
    messages: Seq<JsonView>,
    cfg: &CrossTurnDedupConfig,
    mi: int,
    ci: int,
    block: JsonView,
) -> Option<JsonView> {
    let content = member_or_null(block, "content"@);
    match stands_for(messages, mi, ci, block) {
        Some(id) => if repeated(messages, cfg, id) && !bears_stub(content, cfg.stub@) {
            Some(block.with("content"@, marker(cfg.stub@, content)))
        } else {
            None
        },
        None => None,
    }
}

/// What becomes of a result: a marker takes the place of a text that a later one of the same tool
/// begins with.
pub open spec fn extend_edit(
    messages: Seq<JsonView>,
    cfg: &CrossTurnDedupConfig,
    mi: int,
    ci: int,
    block: JsonView,
) -> Option<JsonView> {
    let content = member_or_null(block, "content"@);
    match stands_for(messages, mi, ci, block) {
        Some(id) => if !bears_stub(content, cfg.stub@) && (content.as_str() matches Some(text)
            && extended(messages, cfg, id, text)) {
            Some(block.with("content"@, marker(cfg.stub@, content)))
        } else {
            None
        },
        None => None,
    }
}

/// What becomes of a result: a marker takes the place of a text that comes again later, if it is
/// smaller.
pub open spec fn echo_edit(
    messages: Seq<JsonView>,
    cfg: &CrossTurnDedupConfig,
    mi: int,
    ci: int,
    block: JsonView,
) -> Option<JsonView> {
    let content = member_or_null(block, "content"@);
    let new = marker(cfg.stub@, content);
    match stands_for(messages, mi, ci, block) {
        Some(id) => if !bears_stub(content, cfg.stub@) && !already_cleared(content) && (
        content.as_str() matches Some(text) && echoed(messages, cfg, id, text)) && text_len(new)
            < text_len(content) {
            Some(block.with("content"@, new))
        } else {
            None
        },
        None => None,
    }
}

/// The first step as a rule on blocks.
pub open spec fn repeat_rule(messages: Seq<JsonView>, cfg: &CrossTurnDedupConfig) -> Rule {
    |mi: int, ci: int, b: JsonView| repeat_edit(messages, cfg, mi, ci, b)
}

/// The second step as a rule on blocks.
pub open spec fn extend_rule(messages: Seq<JsonView>, cfg: &CrossTurnDedupConfig) -> Rule {
    |mi: int, ci: int, b: JsonView| extend_edit(messages, cfg, mi, ci, b)
}

/// The third step as a rule on blocks.
pub open spec fn echo_rule(messages: Seq<JsonView>, cfg: &CrossTurnDedupConfig) -> Rule {
    |mi: int, ci: int, b: JsonView| echo_edit(messages, cfg, mi, ci, b)
}

/// The transcript after the three steps, and how many results they replaced.
pub open spec fn deduped(messages: Seq<JsonView>, cfg: &CrossTurnDedupConfig) -> (
    Seq<JsonView>,
    nat,
) {
    let m1 = rewrite(messages, repeat_rule(messages, cfg));
    let m2 = rewrite(m1, extend_rule(m1, cfg));
    let m3 = rewrite(m2, echo_rule(m2, cfg));
    (
        m3,
        count_changes(messages, repeat_rule(messages, cfg)) + count_changes(m1, extend_rule(m1, cfg))
            + count_changes(m2, echo_rule(m2, cfg)),
    )
}

struct CallTest<'a> {
    messages: &'a Vec<Json>,
    index: &'a PairingIndex,
    cfg: &'a CrossTurnDedupConfig,
}

impl<'a> BlockTest for CallTest<'a> {
    closed spec fn ready(&self) -> bool {
        self.index.describes(views(self.messages@))
    }

    closed spec fn holds(&self, mi: int, ci: int, block: JsonView) -> bool {
        takes_part(views(self.messages@), self.cfg, mi, ci, block)
    }

    fn test(&self, mi: usize, ci: usize, block: &Json) -> (r: bool) {
        proof {
            lemma_views(self.messages@);
        }
        if mi >= self.messages.len() || !self.messages[mi].member_is("role", "assistant")
            || !block.member_is("type", "tool_use") {
            return false;
        }
        match block.get_str("name") {
            Some(name) => if matches_any(&self.cfg.exempt_tools, name) {
                return false;
            },
            None => return false,
        }
        match block.get_str("id") {
            Some(id) => self.index.result_at(id).is_some(),
            None => false,
        }
    }
}

/// What is known of the calls that take part.
struct Calls {
    ids: Vec<String>,
    names: Vec<String>,
    inputs: Vec<String>,
    outputs: Vec<Option<String>>,
    result_messages: Vec<usize>,
}

impl Calls {
    spec fn describes(&self, messages: Seq<JsonView>, cfg: &CrossTurnDedupConfig) -> bool {
        let s = calls(messages, cfg);
        &&& self.ids@.len() == s.len()
        &&& self.names@.len() == s.len()
        &&& self.inputs@.len() == s.len()
        &&& self.outputs@.len() == s.len()
        &&& self.result_messages@.len() == s.len()
        &&& forall|i: int| 0 <= i < s.len() ==> id_at(messages, s[i]) == Some(
            (#[trigger] self.ids@[i])@,
        )
        &&& forall|i: int| 0 <= i < s.len() ==> name_at(messages, s[i]) == Some(
            (#[trigger] self.names@[i])@,
        )
        &&& forall|i: int| 0 <= i < s.len() ==> input_at(messages, s[i]) == (
        #[trigger] self.inputs@[i])@
        &&& forall|i: int| 0 <= i < s.len() ==> output_at(messages, cfg, s[i]) == opt_string(
            #[trigger] self.outputs@[i],
        )
        &&& forall|i: int| 0 <= i < s.len() ==> result_site(messages, s[i]).0 == (
        #[trigger] self.result_messages@[i])
    }

    fn gather(messages: &Vec<Json>, index: &PairingIndex, cfg: &CrossTurnDedupConfig) -> (r: Calls)
        requires
            index.describes(views(messages@)),
        ensures
            r.describes(views(messages@), cfg),
    {
        let ghost all = views(messages@);
        let ghost s = calls(all, cfg);
        let test = CallTest { messages, index, cfg };
        let sites = find_sites(messages, &test);
        proof {
            assert((|mi: int, ci: int, b: JsonView| test.holds(mi, ci, b)) =~= (|
                mi: int,
                ci: int,
                b: JsonView,
            | takes_part(all, cfg, mi, ci, b)));
            lemma_sites(all, |mi: int, ci: int, b: JsonView| takes_part(all, cfg, mi, ci, b));
        }
        let mut ids: Vec<String> = Vec::new();
        let mut names: Vec<String> = Vec::new();
        let mut inputs: Vec<String> = Vec::new();
        let mut outputs: Vec<Option<String>> = Vec::new();
        let mut result_messages: Vec<usize> = Vec::new();
        let mut i: usize = 0;
        while i < sites.len()
            invariant
                i <= sites@.len(),
                all == views(messages@),
                index.describes(all),
                s == calls(all, cfg),
                ints(sites@) == s,
                forall|k: int| 0 <= k < s.len() ==> {
                    let p = #[trigger] s[k];
                    block_at(all, p.0, p.1) matches Some(b) && takes_part(all, cfg, p.0, p.1, b)
                },
                ids@.len() == i,
                names@.len() == i,
                inputs@.len() == i,
                outputs@.len() == i,
                result_messages@.len() == i,
                forall|k: int| 0 <= k < i ==> id_at(all, s[k]) == Some((#[trigger] ids@[k])@),
                forall|k: int| 0 <= k < i ==> name_at(all, s[k]) == Some((#[trigger] names@[k])@),
                forall|k: int| 0 <= k < i ==> input_at(all, s[k]) == (#[trigger] inputs@[k])@,
                forall|k: int| 0 <= k < i ==> output_at(all, cfg, s[k]) == opt_string(
                    #[trigger] outputs@[k],
                ),
                forall|k: int| 0 <= k < i ==> result_site(all, s[k]).0 == (
                #[trigger] result_messages@[k]),
            decreases sites@.len() - i,
        {
            let p = sites[i];
            let ghost q = s[i as int];
            assert(q == (p.0 as int, p.1 as int));
            if let Some(block) = get_block(messages, p.0, p.1) {
                match (block.get_str("name"), block.get_str("id")) {
                    (Some(name), Some(id)) => {
                        ids.push(id.to_owned());
                        names.push(name.to_owned());
                        inputs.push(copy_member(block, "input").to_text());
                        match index.result_at(id) {
                            Some(at) => {
                                result_messages.push(at.0);
                                let content = match get_block(messages, at.0, at.1) {
                                    Some(res) => copy_member(res, "content"),
                                    None => Json::Null,
                                };
                                assert(content@ == member_or_null(
                                    block_or_null(all, result_site(all, q)),
                                    "content"@,
                                ));
                                if has_stub(&content, &cfg.stub) {
                                    outputs.push(None);
                                } else {
                                    match content.as_str() {
                                        Some(t) => outputs.push(Some(t.to_owned())),
                                        None => outputs.push(None),
                                    }
                                }
                            },
                            None => {},
                        }
                    },
                    _ => {},
                }
            }
            i = i + 1;
        }
        Calls { ids, names, inputs, outputs, result_messages }
    }

    /// The last call that asks the same as a call.
    fn last_like(
        &self,
        i: usize,
        Ghost(messages): Ghost<Seq<JsonView>>,
        cfg: &CrossTurnDedupConfig,
    ) -> (r: usize)
        requires
            self.describes(messages, cfg),
            i < self.ids@.len(),
        ensures
            i <= r < self.ids@.len(),
            same_ask(messages, calls(messages, cfg)[i as int], calls(messages, cfg)[r as int]),
            last_to_ask(messages, cfg, r as int),
    {
        let ghost s = calls(messages, cfg);
        let n: usize = self.ids.len();
        let mut r: usize = i;
        let mut k: usize = i + 1;
        while k < n
            invariant
                i <= r < k <= n,
                n == self.ids@.len(),
                s == calls(messages, cfg),
                self.describes(messages, cfg),
                same_ask(messages, s[i as int], s[r as int]),
                forall|l: int| r < l < k ==> !same_ask(messages, s[r as int], #[trigger] s[l]),
            decreases n - k,
        {
            assert(name_at(messages, s[i as int]) == Some(self.names@[i as int]@));
            assert(name_at(messages, s[k as int]) == Some(self.names@[k as int]@));
            assert(input_at(messages, s[i as int]) == self.inputs@[i as int]@);
            assert(input_at(messages, s[k as int]) == self.inputs@[k as int]@);
            if same_text(&self.names[i], &self.names[k]) && same_text(
                &self.inputs[i],
                &self.inputs[k],
            ) {
                r = k;
            }
            k = k + 1;
        }
        r
    }

    fn is_repeated(
        &self,
        id: &str,
        Ghost(messages): Ghost<Seq<JsonView>>,
        cfg: &CrossTurnDedupConfig,
    ) -> (r: bool)
        requires
            self.describes(messages, cfg),
        ensures
            r == repeated(messages, cfg, id@),
    {
        let ghost s = calls(messages, cfg);
        let n: usize = self.ids.len();
        let mut i: usize = 0;
        while i < n
            invariant
                i <= n,
                n == self.ids@.len(),
                s == calls(messages, cfg),
                self.describes(messages, cfg),
                forall|k: int, j: int|
                    0 <= k < i && k < j < n && id_at(messages, #[trigger] s[k]) == Some(id@)
                        && same_ask(messages, s[k], #[trigger] s[j]) && last_to_ask(
                        messages,
                        cfg,
                        j,
                    ) ==> id_at(messages, s[j]) == Some(id@),
            decreases n - i,
        {
            assert(id_at(messages, s[i as int]) == Some(self.ids@[i as int]@));
            if same_text(&self.ids[i], id) {
                let last = self.last_like(i, Ghost(messages), cfg);
                assert(id_at(messages, s[last as int]) == Some(self.ids@[last as int]@));
                if !same_text(&self.ids[last], id) {
                    assert(i < last);
                    return true;
                }
                assert forall|j: int|
                    i < j < n && same_ask(messages, s[i as int], #[trigger] s[j]) && last_to_ask(
                        messages,
                        cfg,
                        j,
                    ) implies id_at(messages, s[j]) == Some(id@) by {
                    if j < last {
                        assert(!same_ask(messages, s[j], s[last as int]));
                    }
                    if last < j {
                        assert(!same_ask(messages, s[last as int], s[j]));
                    }
                }
            }
            i = i + 1;
        }
        false
    }

    fn is_extended(
        &self,
        id: &str,
        text: &str,
        Ghost(messages): Ghost<Seq<JsonView>>,
        cfg: &CrossTurnDedupConfig,
    ) -> (r: bool)
        requires
            self.describes(messages, cfg),
        ensures
            r == extended(messages, cfg, id@, text@),
    {
        let ghost s = calls(messages, cfg);
        let part = chars_of(text);
        let n: usize = self.ids.len();
        let mut i: usize = 0;
        while i < n
            invariant
                i <= n,
                n == self.ids@.len(),
                s == calls(messages, cfg),
                self.describes(messages, cfg),
                part@ == text@,
                forall|k: int, j: int|
                    0 <= k < i && k < j < n && id_at(messages, #[trigger] s[k]) == Some(id@)
                        && name_at(messages, #[trigger] s[j]) == name_at(messages, s[k]) ==> !(
                    output_at(messages, cfg, s[j]) matches Some(t) && t.len() > text@.len()
                        && begins(t, text@)),
            decreases n - i,
        {
            assert(id_at(messages, s[i as int]) == Some(self.ids@[i as int]@));
            assert(name_at(messages, s[i as int]) == Some(self.names@[i as int]@));
            if same_text(&self.ids[i], id) {
                let mut j: usize = i + 1;
                while j < n
                    invariant
                        i < j <= n,
                        n == self.ids@.len(),
                        s == calls(messages, cfg),
                        self.describes(messages, cfg),
                        part@ == text@,
                        id_at(messages, s[i as int]) == Some(id@),
                        name_at(messages, s[i as int]) == Some(self.names@[i as int]@),
                        forall|k: int|
                            i < k < j && name_at(messages, #[trigger] s[k]) == name_at(
                                messages,
                                s[i as int],
                            ) ==> !(output_at(messages, cfg, s[k]) matches Some(t) && t.len()
                                > text@.len() && begins(t, text@)),
                    decreases n - j,
                {
                    assert(name_at(messages, s[j as int]) == Some(self.names@[j as int]@));
                    assert(output_at(messages, cfg, s[j as int]) == opt_string(
                        self.outputs@[j as int],
                    ));
                    if same_text(&self.names[i], &self.names[j]) {
                        if let Some(t) = &self.outputs[j] {
                            let whole = chars_of(t);
                            if whole.len() > part.len() && matches_at(&whole, &part, 0) {
                                return true;
                            }
                        }
                    }
                    j = j + 1;
                }
            }
            i = i + 1;
        }
        false
    }

    /// The last call that names an id.
    fn last_named(
        &self,
        id: &str,
        Ghost(messages): Ghost<Seq<JsonView>>,
        cfg: &CrossTurnDedupConfig,
    ) -> (r: Option<usize>)
        requires
            self.describes(messages, cfg),
        ensures
            match r {
                Some(i) => i < self.ids@.len() && id_at(messages, calls(messages, cfg)[i as int])
                    == Some(id@) && after_all(messages, cfg, id@, i + 1),
                None => forall|k: int|
                    0 <= k < calls(messages, cfg).len() ==> id_at(
                        messages,
                        #[trigger] calls(messages, cfg)[k],
                    ) != Some(id@),
            },
    {
        let ghost s = calls(messages, cfg);
        let mut i: usize = self.ids.len();
        while i > 0
            invariant
                i <= self.ids@.len(),
                s == calls(messages, cfg),
                self.describes(messages, cfg),
                forall|k: int| i <= k < s.len() ==> id_at(messages, #[trigger] s[k]) != Some(id@),
            decreases i,
        {
            i = i - 1;
            assert(id_at(messages, s[i as int]) == Some(self.ids@[i as int]@));
            if same_text(&self.ids[i], id) {
                return Some(i);
            }
        }
        None
    }

    fn is_echoed(
        &self,
        id: &str,
        text: &str,
        Ghost(messages): Ghost<Seq<JsonView>>,
        cfg: &CrossTurnDedupConfig,
    ) -> (r: bool)
        requires
            self.describes(messages, cfg),
        ensures
            r == echoed(messages, cfg, id@, text@),
    {
        let ghost s = calls(messages, cfg);
        let last: usize = match self.last_named(id, Ghost(messages), cfg) {
            Some(last) => last,
            None => return false,
        };
        let ghost p = s[last as int];
        let mut j: usize = 0;
        while j < self.ids.len()
            invariant
                last < self.ids@.len(),
                j <= self.ids@.len(),
                s == calls(messages, cfg),
                p == s[last as int],
                id_at(messages, p) == Some(id@),
                after_all(messages, cfg, id@, last + 1),
                self.describes(messages, cfg),
                forall|k: int| 0 <= k < j ==> !(id_at(messages, #[trigger] s[k]) != Some(id@)
                    && output_at(messages, cfg, s[k]) == Some(text@) && (result_site(
                    messages,
                    s[k],
                ).0 > result_site(messages, p).0 || (result_site(messages, s[k]).0 == result_site(
                    messages,
                    p,
                ).0 && k > last))),
            decreases self.ids@.len() - j,
        {
            assert(id_at(messages, s[j as int]) == Some(self.ids@[j as int]@));
            assert(output_at(messages, cfg, s[j as int]) == opt_string(self.outputs@[j as int]));
            assert(result_site(messages, s[j as int]).0 == self.result_messages@[j as int]);
            assert(result_site(messages, p).0 == self.result_messages@[last as int]);
            if let Some(t) = &self.outputs[j] {
                if same_text(t, text) && !same_text(&self.ids[j], id) && (self.result_messages[j]
                    > self.result_messages[last] || (self.result_messages[j]
                    == self.result_messages[last] && j > last)) {
                    assert(id_at(messages, s[last as int]) == Some(id@));
                    assert(j > last ==> after_all(messages, cfg, id@, j as int));
                    return true;
                }
            }
            j = j + 1;
        }
        assert forall|i: int, k: int|
            0 <= i < s.len() && 0 <= k < s.len() && id_at(messages, #[trigger] s[i]) == Some(id@)
                && id_at(messages, #[trigger] s[k]) != Some(id@) && output_at(messages, cfg, s[k])
                == Some(text@) implies !(result_site(messages, s[k]).0 > result_site(
            messages,
            s[i],
        ).0 || (result_site(messages, s[k]).0 == result_site(messages, s[i]).0 && after_all(
            messages,
            cfg,
            id@,
            k,
        ))) by {
            assert(result_site(messages, s[i]) == result_site(messages, p));
            if after_all(messages, cfg, id@, k) {
                assert(id_at(messages, s[last as int]) == Some(id@));
                assert(k > last);
            }
        }
        false
    }
}

/// Which step is being taken.
#[derive(Clone, Copy)]
enum Step {
    Repeat,
    Extend,
    Echo,
}

spec fn step_edit(
    step: Step,
    messages: Seq<JsonView>,
    cfg: &CrossTurnDedupConfig,
    mi: int,
    ci: int,
    block: JsonView,
) -> Option<JsonView> {
    match step {
        Step::Repeat => repeat_edit(messages, cfg, mi, ci, block),
        Step::Extend => extend_edit(messages, cfg, mi, ci, block),
        Step::Echo => echo_edit(messages, cfg, mi, ci, block),
    }
}

struct Dedup<'a> {
    step: Step,
    messages: &'a Vec<Json>,
    index: &'a PairingIndex,
    calls: &'a Calls,
    cfg: &'a CrossTurnDedupConfig,
}

impl<'a> BlockRule for Dedup<'a> {
    closed spec fn ready(&self) -> bool {
        &&& self.index.describes(views(self.messages@))
        &&& self.calls.describes(views(self.messages@), self.cfg)
    }

    closed spec fn rule(&self, mi: int, ci: int, block: JsonView) -> Option<JsonView> {
        step_edit(self.step, views(self.messages@), self.cfg, mi, ci, block)
    }

    fn decide(&self, mi: usize, ci: usize, block: &Json) -> (r: Option<Json>) {
        let ghost all = views(self.messages@);
        let id = match self.index.id_for(mi, ci, block, Ghost(all)) {
            Some(id) => id,
            None => return None,
        };
        let content = copy_member(block, "content");
        if has_stub(&content, &self.cfg.stub) {
            return None;
        }
        let superseded = match self.step {
            Step::Repeat => self.calls.is_repeated(id, Ghost(all), self.cfg),
            Step::Extend => match content.as_str() {
                Some(text) => self.calls.is_extended(id, text, Ghost(all), self.cfg),
                None => false,
            },
            Step::Echo => match content.as_str() {
                Some(text) => !is_already_cleared(&content) && self.calls.is_echoed(
                    id,
                    text,
                    Ghost(all),
                    self.cfg,
                ),
                None => false,
            },
        };
        if !superseded {
            return None;
        }
        let new = elision_marker(&self.cfg.stub, &content);
        if let Step::Echo = self.step {
            if value_len(&new) >= value_len(&content) {
                return None;
            }
        }
        Some(block_with(block, "content", new))
    }
}

spec fn step_rule(step: Step, messages: Seq<JsonView>, cfg: &CrossTurnDedupConfig) -> Rule {
    |mi: int, ci: int, b: JsonView| step_edit(step, messages, cfg, mi, ci, b)
}

fn take_step(step: Step, messages: &mut Vec<Json>, cfg: &CrossTurnDedupConfig) -> (r: usize)
    ensures
        views(final(messages)@) == rewrite(
            views(old(messages)@),
            step_rule(step, views(old(messages)@), cfg),
        ),
        r == machine(
            count_changes(views(old(messages)@), step_rule(step, views(old(messages)@), cfg)),
        ),
{
    let ghost rule = step_rule(step, views(messages@), cfg);
    let index = PairingIndex::build(messages);
    let plan = {
        let calls = Calls::gather(messages, &index, cfg);
        let dedup = Dedup { step, messages, index: &index, calls: &calls, cfg };
        assert(rule =~= |mi: int, ci: int, b: JsonView| dedup.rule(mi, ci, b));
        plan(messages, &dedup)
    };
    plan.carry_out(messages, Ghost(rule))
}

/// Replaces the results that a later one makes redundant and says how many were replaced.
pub fn apply_counted(messages: &mut Vec<Json>, cfg: &CrossTurnDedupConfig) -> (r: Result<
    usize,
    PairingError,
>)
    ensures
        ({
            let before = views(old(messages)@);
            let after = views(final(messages)@);
            match r {
                Ok(n) => paired(before) && after == deduped(before, cfg).0 && n == machine(
                    deduped(before, cfg).1,
                ),
                Err(e) => refused(before, e) && after == before,
            }
        }),
{
    let index = PairingIndex::build(messages);
    let ghost m0 = views(messages@);
    proof {
        lemma_describes_paired(index, m0);
    }
    index.validate()?;
    proof {
        assert(step_rule(Step::Repeat, m0, cfg) =~= repeat_rule(m0, cfg));
    }
    let n1: usize = take_step(Step::Repeat, messages, cfg);
    let ghost m1 = views(messages@);
    proof {
        assert(step_rule(Step::Extend, m1, cfg) =~= extend_rule(m1, cfg));
    }
    let n2: usize = take_step(Step::Extend, messages, cfg);
    let ghost m2 = views(messages@);
    proof {
        assert(step_rule(Step::Echo, m2, cfg) =~= echo_rule(m2, cfg));
    }
    let n3: usize = take_step(Step::Echo, messages, cfg);
    Ok(n1.saturating_add(n2).saturating_add(n3))
}

/// Replaces the results that a later one makes redundant.
pub fn apply(messages: &mut Vec<Json>, cfg: &CrossTurnDedupConfig) -> (r: Result<
    Stats,
    PairingError,
>)
    ensures
        ({
            let before = views(old(messages)@);
            let after = views(final(messages)@);
            match r {
                Ok(stats) => paired(before) && after == deduped(before, cfg).0 && stats.stubbed
                    == machine(deduped(before, cfg).1) && stats.original_bytes == transcript_len(
                    before,
                ) && stats.final_bytes == transcript_len(after),
                Err(e) => refused(before, e) && after == before,
            }
        }),
{
    let original_bytes: usize = serialized_len(messages);
    let stubbed: usize = apply_counted(messages, cfg)?;
    let final_bytes: usize = serialized_len(messages);
    Ok(Stats { stubbed, original_bytes, final_bytes })
}

/// Each step sets nothing but the content of tool results, and none can part a result from its
/// call.
pub proof fn law_cross_turn_dedup_scope(messages: Seq<JsonView>, cfg: &CrossTurnDedupConfig)
    ensures
        only_sets(repeat_rule(messages, cfg), "tool_result"@, "content"@),
        only_sets(extend_rule(messages, cfg), "tool_result"@, "content"@),
        only_sets(echo_rule(messages, cfg), "tool_result"@, "content"@),
        paired(deduped(messages, cfg).0) <==> paired(messages),
{
    let m1 = rewrite(messages, repeat_rule(messages, cfg));
    let m2 = rewrite(m1, extend_rule(m1, cfg));
    lemma_only_sets_keeps_ids(repeat_rule(messages, cfg), "tool_result"@, "content"@);
    lemma_only_sets_keeps_ids(extend_rule(m1, cfg), "tool_result"@, "content"@);
    lemma_only_sets_keeps_ids(echo_rule(m2, cfg), "tool_result"@, "content"@);
    law_pairing_kept(messages, repeat_rule(messages, cfg));
    law_pairing_kept(m1, extend_rule(m1, cfg));
    law_pairing_kept(m2, echo_rule(m2, cfg));
}

/// Where no result is counted as replaced, nothing has changed.
pub proof fn law_cross_turn_dedup_no_change(messages: Seq<JsonView>, cfg: &CrossTurnDedupConfig)
    requires
        deduped(messages, cfg).1 == 0,
    ensures
        deduped(messages, cfg).0 == messages,
{
    law_no_change(messages, repeat_rule(messages, cfg));
    law_no_change(messages, extend_rule(messages, cfg));
    law_no_change(messages, echo_rule(messages, cfg));
}

} // verus!
