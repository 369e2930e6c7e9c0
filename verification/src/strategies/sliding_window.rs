//! Stubs the calls and results of listed tools that lie behind a window of recent turns.

use super::{
    already_cleared, assistant_cutoff, authoring, bears_stub, block_with, copy_member, cutoff,
    elision_marker, has_role, has_stub, is_already_cleared, is_authoring, is_old, marker,
    member_or_null, old_at, opt_int, serialized_len, text_len, transcript_len, value_len, Stats,
};
use crate::config::{covered, matches_any, SlidingWindowConfig};
use crate::json::{lemma_views, views, Json, JsonMap, JsonView};
use crate::pairing::{
    block_at, get_block, has_type, id_at, last_use, lemma_describes_paired, lemma_positions, paired,
    refused, result_id, result_positions, stands_for, use_id, use_positions, PairingError,
    PairingIndex,
};
use crate::rewrite::{
    agree, count_changes, law_no_change, law_pairing_kept, lemma_agree, lemma_no_count, lemma_none,
    lemma_set_keeps_ids, machine, opt_json, plan, rewrite, BlockRule, Rule,
};
use crate::sites::{find_sites, ids_of, lemma_sites, sites, BlockTest};
use crate::text::{has_name, lists};
use vstd::prelude::*;

verus! {

/// An input without arguments.
pub open spec fn empty_input() -> JsonView {
    JsonView::Object(Map::empty())
}

/// An input that says that its arguments were elided.
pub open spec fn elided_input() -> JsonView {
    JsonView::Object(
        Map::<Seq<char>, JsonView>::empty().insert(
            "_trimwire"@,
            JsonView::String("[trimwire: input elided — older than the sliding window]"@),
        ),
    )
}

/// How many turns are kept: at least one.
pub open spec fn kept_turns(cfg: &SlidingWindowConfig) -> nat {
    if cfg.keep_recent_turns == 0 {
        1
    } else {
        cfg.keep_recent_turns as nat
    }
}

/// Whether a tool is stubbed: it is listed, not exempt, and does not write files.
pub open spec fn listed(cfg: &SlidingWindowConfig, name: Seq<char>) -> bool {
    covered(cfg.denylist_tools@, name) && !covered(cfg.exempt_tools@, name) && !authoring(name)
}

/// Whether the call at a position lies outside the window: made by the assistant to a listed tool,
/// at or before the cutoff.
pub open spec fn outside(
    messages: Seq<JsonView>,
    cfg: &SlidingWindowConfig,
    mi: int,
    ci: int,
    block: JsonView,
) -> bool {
    &&& 0 <= mi < messages.len()
    &&& is_old(cutoff(messages, kept_turns(cfg)), mi)
    &&& has_role(messages[mi], "assistant"@)
    &&& has_type(block, "tool_use"@)
    &&& block.get_str("name"@) matches Some(name) && listed(cfg, name)
    &&& block.get_str("id"@) is Some
}

/// The calls outside the window, in order.
pub open spec fn outside_calls(messages: Seq<JsonView>, cfg: &SlidingWindowConfig) -> Seq<
    (int, int),
> {
    sites(messages, |mi: int, ci: int, b: JsonView| outside(messages, cfg, mi, ci, b))
}

/// Whether the pair with an id is stubbed: a call outside the window names the id.
pub open spec fn stubbed_id(
    messages: Seq<JsonView>,
    cfg: &SlidingWindowConfig,
    id: Seq<char>,
) -> bool {
    let s = outside_calls(messages, cfg);
    exists|i: int| 0 <= i < s.len() && id_at(messages, #[trigger] s[i]) == Some(id)
}

/// Whether a block is the call of a stubbed pair and can lose its input: the last call with the id,
/// of a tool that does not write files.
pub open spec fn stubbed_call(
    messages: Seq<JsonView>,
    cfg: &SlidingWindowConfig,
    mi: int,
    ci: int,
    block: JsonView,
) -> bool {
    &&& last_use(messages, mi, ci, block) matches Some(id) && stubbed_id(messages, cfg, id)
    &&& !(block.get_str("name"@) matches Some(name) && authoring(name))
}

/// What becomes of the input of a stubbed call: it is marked as elided where that is smaller, else
/// emptied. A call without an input gets none.
pub open spec fn input_stub(block: JsonView) -> Option<JsonView> {
    match block.get("input"@) {
        Some(input) => if input == empty_input() || input == elided_input() {
            None
        } else if text_len(elided_input()) < text_len(input) {
            Some(elided_input())
        } else {
            Some(empty_input())
        },
        None => None,
    }
}

/// What becomes of the content of the result of a stubbed call.
pub open spec fn content_stub(cfg: &SlidingWindowConfig, block: JsonView) -> Option<JsonView> {
    let content = member_or_null(block, "content"@);
    if bears_stub(content, cfg.stub@) || already_cleared(content) {
        None
    } else {
        Some(marker(cfg.stub@, content))
    }
}

/// What becomes of a block: the call of a stubbed pair loses its input, the result its content.
pub open spec fn window_edit(
    messages: Seq<JsonView>,
    cfg: &SlidingWindowConfig,
    mi: int,
    ci: int,
    block: JsonView,
) -> Option<JsonView> {
    if stubbed_call(messages, cfg, mi, ci, block) {
        match input_stub(block) {
            Some(v) => Some(block.with("input"@, v)),
            None => None,
        }
    } else {
        match stands_for(messages, mi, ci, block) {
            Some(id) => if stubbed_id(messages, cfg, id) {
                match content_stub(cfg, block) {
                    Some(v) => Some(block.with("content"@, v)),
                    None => None,
                }
            } else {
                None
            },
            None => None,
        }
    }
}

/// The stubbing as a rule on blocks.
pub open spec fn window_rule(messages: Seq<JsonView>, cfg: &SlidingWindowConfig) -> Rule {
    |mi: int, ci: int, b: JsonView| window_edit(messages, cfg, mi, ci, b)
}

/// The result of a call.
pub open spec fn answer_to(messages: Seq<JsonView>, block: JsonView) -> Option<JsonView> {
    match block.get_str("id"@) {
        Some(id) => if result_positions(messages).contains_key(id) {
            let p = result_positions(messages)[id];
            block_at(messages, p.0, p.1)
        } else {
            None
        },
        None => None,
    }
}

/// Marks the pairs of which the input or the content changes, each at its call.
pub open spec fn pair_rule(messages: Seq<JsonView>, cfg: &SlidingWindowConfig) -> Rule {
    |mi: int, ci: int, b: JsonView|
        {
            if (last_use(messages, mi, ci, b) matches Some(id) && stubbed_id(messages, cfg, id)) && ((
            stubbed_call(messages, cfg, mi, ci, b) && input_stub(b) is Some) || (answer_to(
                messages,
                b,
            ) matches Some(res) && content_stub(cfg, res) is Some)) {
                Some(JsonView::Null)
            } else {
                None
            }
        }
}

struct OutsideTest<'a> {
    messages: &'a Vec<Json>,
    cfg: &'a SlidingWindowConfig,
    cut: Option<usize>,
}

impl<'a> BlockTest for OutsideTest<'a> {
    closed spec fn ready(&self) -> bool {
        opt_int(self.cut) == cutoff(views(self.messages@), kept_turns(self.cfg))
    }

    closed spec fn holds(&self, mi: int, ci: int, block: JsonView) -> bool {
        outside(views(self.messages@), self.cfg, mi, ci, block)
    }

    fn test(&self, mi: usize, ci: usize, block: &Json) -> (r: bool) {
        proof {
            lemma_views(self.messages@);
        }
        if mi >= self.messages.len() || !old_at(self.cut, mi) || !self.messages[mi].member_is(
            "role",
            "assistant",
        ) || !block.member_is("type", "tool_use") {
            return false;
        }
        match block.get_str("name") {
            Some(name) => matches_any(&self.cfg.denylist_tools, name) && !matches_any(
                &self.cfg.exempt_tools,
                name,
            ) && !is_authoring(name) && block.get_str("id").is_some(),
            None => false,
        }
    }
}

struct Window<'a> {
    messages: &'a Vec<Json>,
    index: &'a PairingIndex,
    cfg: &'a SlidingWindowConfig,
    /// The ids of the calls outside the window.
    ids: Vec<String>,
}

impl<'a> Window<'a> {
    spec fn good(&self) -> bool {
        let all = views(self.messages@);
        &&& self.index.describes(all)
        &&& forall|id: Seq<char>| #[trigger]
            lists(self.ids@, id) == stubbed_id(all, self.cfg, id)
    }

    fn build(
        messages: &'a Vec<Json>,
        index: &'a PairingIndex,
        cfg: &'a SlidingWindowConfig,
    ) -> (r: Window<'a>)
        requires
            index.describes(views(messages@)),
        ensures
            r.good(),
            r.messages == messages,
            r.cfg == cfg,
    {
        let ghost all = views(messages@);
        let keep: usize = if cfg.keep_recent_turns == 0 {
            1
        } else {
            cfg.keep_recent_turns
        };
        let test = OutsideTest { messages, cfg, cut: assistant_cutoff(messages, keep) };
        let list = find_sites(messages, &test);
        let ghost s = outside_calls(all, cfg);
        proof {
            let f = |mi: int, ci: int, b: JsonView| outside(all, cfg, mi, ci, b);
            assert((|mi: int, ci: int, b: JsonView| test.holds(mi, ci, b)) =~= f);
            lemma_sites(all, f);
        }
        let ids = ids_of(messages, &list);
        proof {
            assert forall|id: Seq<char>| #[trigger] lists(ids@, id) == stubbed_id(all, cfg, id) by {
                if lists(ids@, id) {
                    let i = choose|i: int| 0 <= i < ids@.len() && (#[trigger] ids@[i])@ == id;
                    assert(id_at(all, s[i]) == Some(id));
                }
                if stubbed_id(all, cfg, id) {
                    let i = choose|i: int|
                        0 <= i < s.len() && id_at(all, #[trigger] s[i]) == Some(id);
                    assert(ids@[i]@ == id);
                }
            }
        }
        Window { messages, index, cfg, ids }
    }

    fn is_stubbed_call(&self, mi: usize, ci: usize, block: &Json) -> (r: bool)
        requires
            self.good(),
        ensures
            r == stubbed_call(views(self.messages@), self.cfg, mi as int, ci as int, block@),
    {
        let ghost all = views(self.messages@);
        let named = match self.index.last_use_of(mi, ci, block, Ghost(all)) {
            Some(id) => has_name(&self.ids, id),
            None => false,
        };
        named && match block.get_str("name") {
            Some(name) => !is_authoring(name),
            None => true,
        }
    }
}

/// The input that says that its arguments were elided.
fn make_elided_input() -> (r: Json)
    ensures
        r@ == elided_input(),
{
    let mut m = JsonMap::new();
    m.insert(
        "_trimwire".to_owned(),
        Json::text("[trimwire: input elided — older than the sliding window]"),
    );
    Json::Object(m)
}

fn is_empty_input(input: &Json) -> (r: bool)
    ensures
        r == (input@ == empty_input()),
{
    match input {
        Json::Object(m) => m.is_empty(),
        _ => false,
    }
}

fn is_elided_input(input: &Json) -> (r: bool)
    ensures
        r == (input@ == elided_input()),
{
    match input {
        Json::Object(m) => match m.sole_member("_trimwire") {
            Some(v) => {
                proof {
                    let want = JsonView::String(
                        "[trimwire: input elided — older than the sliding window]"@,
                    );
                    if v@ != want {
                        let a = Map::<Seq<char>, JsonView>::empty().insert("_trimwire"@, v@);
                        let b = Map::<Seq<char>, JsonView>::empty().insert("_trimwire"@, want);
                        assert(a["_trimwire"@] != b["_trimwire"@]);
                    }
                }
                v.is_str("[trimwire: input elided — older than the sliding window]")
            },
            None => false,
        },
        _ => false,
    }
}

fn stub_of_input(block: &Json) -> (r: Option<Json>)
    ensures
        opt_json(r) == input_stub(block@),
{
    match block.get("input") {
        Some(input) => {
            let elided = make_elided_input();
            let empty = Json::Object(JsonMap::new());
            if is_empty_input(input) || is_elided_input(input) {
                None
            } else if value_len(&elided) < value_len(input) {
                Some(elided)
            } else {
                Some(empty)
            }
        },
        None => None,
    }
}

fn stub_of_content(cfg: &SlidingWindowConfig, block: &Json) -> (r: Option<Json>)
    ensures
        opt_json(r) == content_stub(cfg, block@),
{
    let content = copy_member(block, "content");
    if has_stub(&content, &cfg.stub) || is_already_cleared(&content) {
        None
    } else {
        Some(elision_marker(&cfg.stub, &content))
    }
}

impl<'a> BlockRule for Window<'a> {
    closed spec fn ready(&self) -> bool {
        self.good()
    }

    closed spec fn rule(&self, mi: int, ci: int, block: JsonView) -> Option<JsonView> {
        window_edit(views(self.messages@), self.cfg, mi, ci, block)
    }

    fn decide(&self, mi: usize, ci: usize, block: &Json) -> (r: Option<Json>) {
        let ghost all = views(self.messages@);
        if self.is_stubbed_call(mi, ci, block) {
            return match stub_of_input(block) {
                Some(v) => Some(block_with(block, "input", v)),
                None => None,
            };
        }
        match self.index.id_for(mi, ci, block, Ghost(all)) {
            Some(id) => if has_name(&self.ids, id) {
                match stub_of_content(self.cfg, block) {
                    Some(v) => Some(block_with(block, "content", v)),
                    None => None,
                }
            } else {
                None
            },
            None => None,
        }
    }
}

struct Pairs<'a> {
    window: &'a Window<'a>,
}

impl<'a> BlockRule for Pairs<'a> {
    closed spec fn ready(&self) -> bool {
        self.window.good()
    }

    closed spec fn rule(&self, mi: int, ci: int, block: JsonView) -> Option<JsonView> {
        pair_rule(views(self.window.messages@), self.window.cfg)(mi, ci, block)
    }

    fn decide(&self, mi: usize, ci: usize, block: &Json) -> (r: Option<Json>) {
        let ghost all = views(self.window.messages@);
        let id = match self.window.index.last_use_of(mi, ci, block, Ghost(all)) {
            Some(id) => id,
            None => return None,
        };
        if !has_name(&self.window.ids, id) {
            return None;
        }
        if self.window.is_stubbed_call(mi, ci, block) && stub_of_input(block).is_some() {
            return Some(Json::Null);
        }
        match block.get_str("id") {
            Some(id) => match self.window.index.result_at(id) {
                Some(p) => match get_block(self.window.messages, p.0, p.1) {
                    Some(res) => if stub_of_content(self.window.cfg, res).is_some() {
                        Some(Json::Null)
                    } else {
                        None
                    },
                    None => None,
                },
                None => None,
            },
            None => None,
        }
    }
}

/// Stubs the pairs of a transcript that lie outside the window and says how many changed.
pub fn apply_counted(messages: &mut Vec<Json>, cfg: &SlidingWindowConfig) -> (r: Result<
    usize,
    PairingError,
>)
    ensures
        ({
            let before = views(old(messages)@);
            let after = views(final(messages)@);
            match r {
                Ok(n) => paired(before) && after == rewrite(before, window_rule(before, cfg)) && n
                    == machine(count_changes(before, pair_rule(before, cfg))),
                Err(e) => refused(before, e) && after == before,
            }
        }),
{
    let ghost all = views(messages@);
    let index = PairingIndex::build(messages);
    proof {
        lemma_describes_paired(index, all);
    }
    index.validate()?;
    let ghost rule = window_rule(all, cfg);
    let ghost marks = pair_rule(all, cfg);
    let n: usize;
    let plan = {
        let window = Window::build(messages, &index, cfg);
        let pairs = Pairs { window: &window };
        assert(rule =~= |mi: int, ci: int, b: JsonView| window.rule(mi, ci, b));
        assert(marks =~= |mi: int, ci: int, b: JsonView| pairs.rule(mi, ci, b));
        n = plan(messages, &pairs).count_of(Ghost(all), Ghost(marks));
        plan(messages, &window)
    };
    plan.carry_out(messages, Ghost(rule));
    Ok(n)
}

/// Stubs the pairs of a transcript that lie outside the window.
pub fn apply(messages: &mut Vec<Json>, cfg: &SlidingWindowConfig) -> (r: Result<
    Stats,
    PairingError,
>)
    ensures
        ({
            let before = views(old(messages)@);
            let after = views(final(messages)@);
            match r {
                Ok(stats) => paired(before) && after == rewrite(before, window_rule(before, cfg))
                    && stats.stubbed == machine(count_changes(before, pair_rule(before, cfg)))
                    && stats.original_bytes == transcript_len(before) && stats.final_bytes
                    == transcript_len(after),
                Err(e) => refused(before, e) && after == before,
            }
        }),
{
    let original_bytes: usize = serialized_len(messages);
    let stubbed: usize = apply_counted(messages, cfg)?;
    let final_bytes: usize = serialized_len(messages);
    Ok(Stats { stubbed, original_bytes, final_bytes })
}

/// The window sets nothing but the input of calls and the content of results, never of a tool that
/// writes files, and cannot part a result from its call.
pub proof fn law_sliding_window_scope(messages: Seq<JsonView>, cfg: &SlidingWindowConfig)
    ensures
        forall|mi: int, ci: int, b: JsonView|
            #![trigger window_edit(messages, cfg, mi, ci, b)]
            window_edit(messages, cfg, mi, ci, b) matches Some(new) ==> {
                ||| has_type(b, "tool_use"@) && new == b.with("input"@, new.get("input"@)->0) && !(
                b.get_str("name"@) matches Some(name) && authoring(name))
                ||| has_type(b, "tool_result"@) && new == b.with("content"@, new.get("content"@)->0)
            },
        paired(rewrite(messages, window_rule(messages, cfg))) <==> paired(messages),
{
    let rule = window_rule(messages, cfg);
    assert forall|mi: int, ci: int, b: JsonView|
        #![trigger rule(mi, ci, b)]
        rule(mi, ci, b) is Some implies use_id(rule(mi, ci, b)->0) == use_id(b) && result_id(
        rule(mi, ci, b)->0,
    ) == result_id(b) by {
        let new = rule(mi, ci, b)->0;
        if stubbed_call(messages, cfg, mi, ci, b) {
            lemma_set_keeps_ids(b, "input"@, new.get("input"@)->0);
        } else {
            lemma_set_keeps_ids(b, "content"@, new.get("content"@)->0);
        }
    }
    law_pairing_kept(messages, rule);
}

/// A stubbed pair has its call.
proof fn lemma_stubbed_has_call(messages: Seq<JsonView>, cfg: &SlidingWindowConfig, id: Seq<char>)
    requires
        stubbed_id(messages, cfg, id),
    ensures
        use_positions(messages).contains_key(id),
        ({
            let p = use_positions(messages)[id];
            block_at(messages, p.0, p.1) matches Some(b) && use_id(b) == Some(id)
        }),
{
    let s = outside_calls(messages, cfg);
    let i = choose|i: int| 0 <= i < s.len() && id_at(messages, #[trigger] s[i]) == Some(id);
    lemma_sites(messages, |mi: int, ci: int, b: JsonView| outside(messages, cfg, mi, ci, b));
    assert(block_at(messages, s[i].0, s[i].1) matches Some(b) && use_id(b) == Some(id));
    lemma_positions(messages, false, id);
}

/// Where no pair is counted as changed, nothing has changed.
pub proof fn law_sliding_window_no_change(messages: Seq<JsonView>, cfg: &SlidingWindowConfig)
    requires
        count_changes(messages, pair_rule(messages, cfg)) == 0,
    ensures
        rewrite(messages, window_rule(messages, cfg)) == messages,
{
    let none: Rule = |mi: int, ci: int, b: JsonView| None;
    lemma_no_count(messages, pair_rule(messages, cfg));
    assert forall|mi: int, ci: int|
        #![trigger block_at(messages, mi, ci)]
        block_at(messages, mi, ci) matches Some(b) implies window_edit(
        messages,
        cfg,
        mi,
        ci,
        block_at(messages, mi, ci)->0,
    ) is None by {
        let b = block_at(messages, mi, ci)->0;
        assert(pair_rule(messages, cfg)(mi, ci, b) is None);
        if let Some(id) = stands_for(messages, mi, ci, b) {
            if stubbed_id(messages, cfg, id) {
                lemma_stubbed_has_call(messages, cfg, id);
                let p = use_positions(messages)[id];
                let call = block_at(messages, p.0, p.1)->0;
                assert(pair_rule(messages, cfg)(p.0, p.1, call) is None);
            }
        }
    }
    assert(agree(messages, window_rule(messages, cfg), none));
    lemma_agree(messages, window_rule(messages, cfg), none);
    lemma_none(messages, none);
    law_no_change(messages, none);
}

} // verus!
