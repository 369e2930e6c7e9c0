//! Who is asked for a summary, what is sent, and what is read from the answer.

use crate::config::{SummarizerConfig, SummarizerLocalConfig, SummarizerProviderConfig};
use crate::json::{json_number, JsonView};
use crate::strategies::purpose::opens_with;
use crate::summarizer::api::{
    anthropic_outcome, api_payload, blank, choice_content, debug_text, first_choice, headers_for,
    joined_text, obstacle, openai_outcome, reasoning_model, style_named, url_of, ApiStyle,
};
use crate::summarizer::cascade::{
    chain_of, chained, kind_of, named, next_of, provider_from, step_at, CascadeStep,
};
use crate::summarizer::local::{
    asked_ctx, chat_url, local_outcome, local_payload, options_text, unthought, PLAIN_OPTIONS,
    THINKING_OPTIONS,
};
use crate::summarizer::{disqualified, succeeded, CompactorError, SUMMARY_SYSTEM_PROMPT};
use crate::text::{first_at, lowercase, strip_end, trim, utf8_len, white};
use crate::text_laws::{holds_word, law_begins, law_occurs, law_stands_at, word_from};
use vstd::prelude::*;

verus! {

/// Whether a word stands in a text first at a place.
pub open spec fn first_from(s: Seq<char>, word: Seq<char>, i: int) -> bool {
    word_from(s, word, i) && forall|k: int| 0 <= k < i ==> !#[trigger] word_from(s, word, k)
}

proof fn lemma_first_from(s: Seq<char>, word: Seq<char>, i: int)
    ensures
        first_from(s, word, i) <==> first_at(s, word) == Some(i),
        !holds_word(s, word) <==> first_at(s, word) is None,
{
    crate::text::lemma_first_at(s, word);
    law_occurs(s, word);
    if let Some(j) = first_at(s, word) {
        law_stands_at(s, word, j);
        assert forall|k: int| 0 <= k < j implies !#[trigger] word_from(s, word, k) by {
            law_stands_at(s, word, k);
        }
        if first_from(s, word, i) {
            if i < j {
                assert(!word_from(s, word, i));
            }
        }
    } else {
        if word_from(s, word, i) {
            assert(holds_word(s, word));
        }
    }
}

/// Thinking goes from an answer: from the first opening tag to the first closing tag behind it, both
/// with them, and so again with what is left. A text in which no opening tag comes first stays.
pub proof fn law_unthought(s: Seq<char>, open: int, close: int)
    ensures
        first_from(s, "<think>"@, open) && first_from(s, "</think>"@, close) && open < close
            ==> unthought(s) == unthought(s.take(open) + s.skip(close + 8)),
        first_from(s, "<think>"@, open) && first_from(s, "</think>"@, close) && close < open
            ==> unthought(s) == s,
        !holds_word(s, "<think>"@) || !holds_word(s, "</think>"@) ==> unthought(s) == s,
{
    lemma_first_from(s, "<think>"@, open);
    lemma_first_from(s, "</think>"@, close);
}

/// The answer of a local summarizer is the text of its message, without thinking and without white
/// characters at its ends; one without text is an error.
pub proof fn law_local_answer(reply: JsonView, r: Result<String, CompactorError>)
    ensures
        ({
            let text = if reply.get("message"@) is Some && (reply.get("message"@)->0.get(
                "content"@,
            ) matches Some(JsonView::String(_))) {
                reply.get("message"@)->0.get("content"@)->0->String_0
            } else {
                Seq::empty()
            };
            let said = trim(unthought(text));
            local_outcome(reply, r) <==> if said.len() == 0 {
                r is Err && r->Err_0 is EmptyResponse
            } else {
                r is Ok && r->Ok_0@ == said
            }
        }),
{
    reveal_strlit("");
    assert(""@ =~= Seq::<char>::empty());
}

/// The local summarizer is asked at its address, without slashes at its end, for a chat.
pub proof fn law_chat_url(endpoint: Seq<char>)
    ensures
        chat_url(endpoint) == strip_end(endpoint, '/') + "/api/chat"@,
{
}

/// The context that is asked for is two fifths of the bytes of the prompt, rounded up, but 4096 at
/// least and no more than the settings allow, which is 4096 at least and 131072 at most.
pub proof fn law_asked_ctx(cfg: &SummarizerLocalConfig, prompt: Seq<char>)
    ensures
        ({
            let most = if cfg.max_num_ctx < 4096 {
                4096int
            } else if cfg.max_num_ctx > 131072 {
                131072int
            } else {
                cfg.max_num_ctx as int
            };
            let n = asked_ctx(cfg, prompt);
            &&& 4096 <= n <= most
            &&& 4096 < n < most ==> 5 * (n - 1) < 2 * utf8_len(prompt) <= 5 * n
            &&& n == most ==> 2 * utf8_len(prompt) > 5 * (most - 1) || most == 4096
            &&& n == 4096 ==> 2 * utf8_len(prompt) <= 5 * 4096 || most == 4096
        }),
{
}

/// What is sent to the local summarizer: its model, the instruction and then the prompt, that the
/// answer is to come whole, how long to stay ready, and in the options the context and a quarter of
/// it, from 200 to 4096, for the answer. A model that thinks is told not to.
pub proof fn law_local_payload(cfg: &SummarizerLocalConfig, prompt: Seq<char>, options: JsonView)
    requires
        options is Object,
    ensures
        ({
            let p = local_payload(cfg, prompt, options);
            let ctx = asked_ctx(cfg, prompt);
            let room = ctx / 4;
            let answer = if room < 200 {
                200
            } else if room > 4096 {
                4096
            } else {
                room
            };
            &&& p.get("model"@) == Some(JsonView::String(cfg.model@))
            &&& p.get("stream"@) == Some(JsonView::Bool(false))
            &&& p.get("keep_alive"@) == Some(JsonView::Number(json_number(cfg.keep_alive_secs as int)))
            &&& p.get_array("messages"@) matches Some(m) && m.len() == 2 && m[0].get("role"@) == Some(
                JsonView::String("system"@),
            ) && m[0].get("content"@) == Some(JsonView::String(SUMMARY_SYSTEM_PROMPT@)) && m[1].get(
                "role"@,
            ) == Some(JsonView::String("user"@)) && m[1].get("content"@) == Some(
                JsonView::String(prompt),
            )
            &&& p.get("options"@) matches Some(o) && o.get("num_ctx"@) == Some(
                JsonView::Number(json_number(ctx)),
            ) && o.get("num_predict"@) == Some(JsonView::Number(json_number(answer)))
            &&& p.get("think"@) == if opens_with(cfg.model@, "qwen3"@) {
                Some(JsonView::Bool(false))
            } else {
                None
            }
        }),
{
    lemma_keys();
    law_begins(cfg.model@, "qwen3"@);
}

/// A model that thinks is run with one set of options, any other with another.
pub proof fn law_options(model: Seq<char>)
    ensures
        options_text(model) == if opens_with(model, "qwen3"@) {
            THINKING_OPTIONS@
        } else {
            PLAIN_OPTIONS@
        },
{
    law_begins(model, "qwen3"@);
}

proof fn lemma_keys()
    ensures
        "model"@ != "stream"@ && "model"@ != "keep_alive"@ && "model"@ != "messages"@ && "model"@
            != "options"@ && "model"@ != "think"@ && "stream"@ != "keep_alive"@ && "stream"@
            != "messages"@ && "stream"@ != "options"@ && "stream"@ != "think"@,
        "keep_alive"@ != "messages"@ && "keep_alive"@ != "options"@ && "keep_alive"@ != "think"@
            && "messages"@ != "options"@ && "messages"@ != "think"@ && "options"@ != "think"@,
        "num_ctx"@ != "num_predict"@ && "role"@ != "content"@,
        "system"@ != "model"@ && "system"@ != "stream"@ && "system"@ != "messages"@ && "system"@
            != "max_tokens"@,
        "max_tokens"@ != "model"@ && "max_tokens"@ != "stream"@ && "max_tokens"@ != "messages"@,
        "max_completion_tokens"@ != "model"@ && "max_completion_tokens"@ != "stream"@
            && "max_completion_tokens"@ != "messages"@ && "max_completion_tokens"@ != "max_tokens"@,
{
    reveal_strlit("model");
    reveal_strlit("stream");
    reveal_strlit("keep_alive");
    reveal_strlit("messages");
    reveal_strlit("options");
    reveal_strlit("think");
    reveal_strlit("num_ctx");
    reveal_strlit("num_predict");
    reveal_strlit("role");
    reveal_strlit("content");
    reveal_strlit("system");
    reveal_strlit("max_tokens");
    reveal_strlit("max_completion_tokens");
    assert("model"@[0] == 'm' && "stream"@[0] == 's' && "keep_alive"@[0] == 'k' && "options"@[0]
        == 'o' && "think"@[0] == 't' && "messages"@[0] == 'm' && "system"@[0] == 's' && "role"@[0]
        == 'r' && "content"@[0] == 'c' && "max_tokens"@[0] == 'm');
    assert("model"@.len() == 5 && "messages"@.len() == 8 && "stream"@[1] == 't' && "system"@[1] == 'y'
        && "max_tokens"@.len() == 10 && "max_completion_tokens"@.len() == 21 && "num_ctx"@.len() == 7
        && "num_predict"@.len() == 11 && "max_completion_tokens"@[0] == 'm');
}

/// Whether every character of a text is white.
pub open spec fn all_white(s: Seq<char>) -> bool {
    forall|i: int| 0 <= i < s.len() ==> white(#[trigger] s[i])
}

/// A text is blank exactly where it has nothing but white characters.
pub proof fn law_blank(s: Seq<char>)
    ensures
        blank(s) <==> all_white(s),
{
    crate::text_laws::law_trim(s);
    let (i, j) = choose|i: int, j: int| #[trigger]
        crate::text_laws::trims_to(s, i, j) && trim(s) == s.subrange(i, j);
    if i < j {
        assert(!white(s[i]));
    } else {
        assert forall|k: int| 0 <= k < s.len() implies white(#[trigger] s[k]) by {}
    }
}

/// Whether a provider has an address of its own that is not blank.
pub open spec fn own_address(api: &SummarizerProviderConfig) -> bool {
    api.full_url is Some && !all_white(api.full_url->0@)
}

/// A provider can be asked exactly where it names the variable of its key, that is set and not blank,
/// it has an address, a model, and an interface that is known. What is said else is the first of
/// these that is missing.
pub proof fn law_obstacle(api: &SummarizerProviderConfig, key: Option<Seq<char>>)
    ensures
        obstacle(api, key) is None <==> api.api_key_env@.len() > 0 && key is Some && !all_white(key->0)
            && (!all_white(api.base_url@) || own_address(api)) && !all_white(api.model@) && (
        api.style@ == "anthropic"@ || api.style@ == "openai"@),
        api.api_key_env@.len() == 0 ==> obstacle(api, key) == Some(
            "summarizer provider api_key_env is not set"@,
        ),
        api.api_key_env@.len() > 0 && key is None ==> obstacle(api, key) == Some(
            "env var "@ + api.api_key_env@ + " is not set"@,
        ),
        api.api_key_env@.len() > 0 && key is Some && all_white(key->0) ==> obstacle(api, key) == Some(
            "env var "@ + api.api_key_env@ + " is set but empty"@,
        ),
        api.api_key_env@.len() > 0 && key is Some && !all_white(key->0) && all_white(api.base_url@)
            && !own_address(api) ==> obstacle(api, key) == Some(
            "summarizer provider "@ + debug_text(api.id@)
                + ": base_url is not set (or set full_url)"@,
        ),
        api.api_key_env@.len() > 0 && key is Some && !all_white(key->0) && (!all_white(api.base_url@)
            || own_address(api)) && all_white(api.model@) ==> obstacle(api, key) == Some(
            "summarizer provider "@ + debug_text(api.id@) + ": model is not set"@,
        ),
        api.style@ == "anthropic"@ ==> style_named(api.style@) == Some(ApiStyle::Anthropic),
        api.style@ == "openai"@ ==> style_named(api.style@) == Some(ApiStyle::OpenAi),
{
    reveal_strlit("anthropic");
    reveal_strlit("openai");
    assert("anthropic"@.len() == 9 && "openai"@.len() == 6);
    if key is Some {
        law_blank(key->0);
    }
    law_blank(api.base_url@);
    law_blank(api.model@);
    if api.full_url is Some {
        law_blank(api.full_url->0@);
    }
}

/// A provider is asked at its own address where it has one, as that is written; else below its base,
/// without slashes at its end, at the place of its interface.
pub proof fn law_url(api: &SummarizerProviderConfig)
    ensures
        own_address(api) ==> url_of(api, ApiStyle::Anthropic) == api.full_url->0@ && url_of(
            api,
            ApiStyle::OpenAi,
        ) == api.full_url->0@,
        !own_address(api) ==> url_of(api, ApiStyle::Anthropic) == strip_end(api.base_url@, '/')
            + "/v1/messages"@ && url_of(api, ApiStyle::OpenAi) == strip_end(api.base_url@, '/')
            + "/v1/chat/completions"@,
{
    if api.full_url is Some {
        law_blank(api.full_url->0@);
    }
}

/// A model reasons where its name, in small letters and without white characters at its ends, begins
/// with one of four beginnings.
pub proof fn law_reasoning_model(model: Seq<char>)
    ensures
        ({
            let m = lowercase(trim(model));
            reasoning_model(model) <==> opens_with(m, "o1"@) || opens_with(m, "o3"@) || opens_with(
                m,
                "o4"@,
            ) || opens_with(m, "gpt-5"@)
        }),
{
    let m = lowercase(trim(model));
    law_begins(m, "o1"@);
    law_begins(m, "o3"@);
    law_begins(m, "o4"@);
    law_begins(m, "gpt-5"@);
}

/// What is sent to a provider: its model, that the answer is to come whole, the instruction and the
/// prompt, each where the interface has it, and the limit of 4096 tokens under the name that the
/// model wants.
pub proof fn law_api_payload(api: &SummarizerProviderConfig, prompt: Seq<char>)
    ensures
        ({
            let a = api_payload(api, ApiStyle::Anthropic, prompt);
            let o = api_payload(api, ApiStyle::OpenAi, prompt);
            let limit = Some(JsonView::Number(json_number(4096)));
            let model = Some(JsonView::String(api.model@));
            let instruction = Some(JsonView::String(SUMMARY_SYSTEM_PROMPT@));
            let asks = |m: JsonView|
                m.get("role"@) == Some(JsonView::String("user"@)) && m.get("content"@) == Some(
                    JsonView::String(prompt),
                );
            &&& a.get("model"@) == model && o.get("model"@) == model
            &&& a.get("stream"@) == Some(JsonView::Bool(false)) && o.get("stream"@) == Some(
                JsonView::Bool(false),
            )
            &&& a.get("system"@) == instruction && a.get("max_tokens"@) == limit
            &&& a.get_array("messages"@) matches Some(m) && m.len() == 1 && asks(m[0])
            &&& o.get_array("messages"@) matches Some(m) && m.len() == 2 && m[0].get("role"@) == Some(
                JsonView::String("system"@),
            ) && m[0].get("content"@) == instruction && asks(m[1])
            &&& reasoning_model(api.model@) ==> o.get("max_completion_tokens"@) == limit && o.get(
                "max_tokens"@,
            ) is None
            &&& !reasoning_model(api.model@) ==> o.get("max_tokens"@) == limit && o.get(
                "max_completion_tokens"@,
            ) is None
        }),
{
    lemma_keys();
}

/// The key goes in the header that the interface has for it, and a router is told who asks.
pub proof fn law_headers(url: Seq<char>, key: Seq<char>)
    ensures
        ({
            let a = headers_for(ApiStyle::Anthropic, url, key);
            let o = headers_for(ApiStyle::OpenAi, url, key);
            let json = ("content-type"@, "application/json"@);
            &&& a == seq![("x-api-key"@, key), ("anthropic-version"@, "2023-06-01"@), json]
            &&& o.len() == if holds_word(url, "openrouter.ai"@) {
                4int
            } else {
                2int
            }
            &&& o[0] == ("authorization"@, "Bearer "@ + key)
            &&& o[1] == json
            &&& holds_word(url, "openrouter.ai"@) ==> o[3] == ("X-Title"@, "trimwire"@) && o[2].0
                == "HTTP-Referer"@
        }),
{
    law_occurs(url, "openrouter.ai"@);
}

/// The text of a reply is that of all its text blocks, one behind the other.
pub proof fn law_joined_text(blocks: Seq<JsonView>, b: JsonView)
    ensures
        joined_text(Seq::empty()) == Seq::<char>::empty(),
        joined_text(blocks.push(b)) == joined_text(blocks) + if b.get("type"@) == Some(
            JsonView::String("text"@),
        ) && (b.get("text"@) matches Some(JsonView::String(_))) {
            b.get("text"@)->0->String_0
        } else {
            Seq::empty()
        },
{
    assert(blocks.push(b).drop_last() =~= blocks);
    assert(joined_text(blocks) + Seq::<char>::empty() =~= joined_text(blocks));
}

/// What a reply of the one interface gives: the joined text of its blocks without white characters
/// at its ends; an error where that is blank, or where it has no blocks.
pub proof fn law_anthropic_reply(reply: JsonView, r: Result<String, CompactorError>)
    ensures
        reply.get("content"@) matches Some(JsonView::Array(blocks)) ==> (anthropic_outcome(reply, r)
            <==> if all_white(joined_text(blocks)) {
            r is Err && r->Err_0 is EmptyResponse
        } else {
            r is Ok && r->Ok_0@ == trim(joined_text(blocks))
        }),
        !(reply.get("content"@) matches Some(JsonView::Array(_))) && anthropic_outcome(reply, r)
            ==> r is Err && r->Err_0 is Malformed && r->Err_0->Malformed_0@
            == "missing or non-array 'content' field"@,
{
    if let Some(blocks) = reply.get_array("content"@) {
        law_blank(joined_text(blocks));
    }
}

/// What the first choice of a reply says, where it has one and that says something; else null.
pub open spec fn first_said(reply: JsonView) -> JsonView {
    if (reply.get("choices"@) matches Some(JsonView::Array(c)) && c.len() > 0 && c[0].get(
        "message"@,
    ) is Some && c[0].get("message"@)->0.get("content"@) is Some) {
        reply.get_array("choices"@)->0[0].get("message"@)->0.get("content"@)->0
    } else {
        JsonView::Null
    }
}

/// Whether the first choice of a reply ended otherwise than usual, and how.
pub open spec fn ended_oddly(reply: JsonView, why: Seq<char>) -> bool {
    reply.get("choices"@) matches Some(JsonView::Array(c)) && c.len() > 0 && c[0].get(
        "finish_reason"@,
    ) == Some(JsonView::String(why)) && why != "stop"@
}

/// What a reply of the other interface gives: the text of its first choice without white characters
/// at its ends. Where that is null and the choice ended oddly, how it ended is told; where there is
/// no text for another reason, or a blank one, the answer is empty.
pub proof fn law_openai_reply(reply: JsonView, why: Seq<char>, r: Result<String, CompactorError>)
    ensures
        first_said(reply) matches JsonView::String(text) ==> (openai_outcome(reply, r) <==> if all_white(
            text,
        ) {
            r is Err && r->Err_0 is EmptyResponse
        } else {
            r is Ok && r->Ok_0@ == trim(text)
        }),
        first_said(reply) is Null && ended_oddly(reply, why) ==> (openai_outcome(reply, r) <==> r is Err
            && r->Err_0 is Malformed && r->Err_0->Malformed_0@
            == "OpenAI response: choices[0].message.content is null/missing (finish_reason = "@
            + debug_text(why)
            + "); likely a content-filter refusal or context-length truncation — check model, prompt, or max_tokens"@),
        first_said(reply) is Null && (forall|w: Seq<char>| !#[trigger] ended_oddly(reply, w)) ==> (
        openai_outcome(reply, r) <==> r is Err && r->Err_0 is EmptyResponse),
        !(first_said(reply) is Null) && !(first_said(reply) is String) ==> (openai_outcome(reply, r)
            <==> r is Err && r->Err_0 is EmptyResponse),
{
    reveal_strlit("");
    assert(""@ =~= Seq::<char>::empty());
    law_blank(""@);
    assert(all_white(""@));
    let choice = first_choice(reply);
    assert(choice_content(choice) == first_said(reply));
    if let JsonView::String(text) = first_said(reply) {
        law_blank(text);
    }
    if choice.get_str("finish_reason"@) is Some {
        let w = choice.get_str("finish_reason"@)->0;
        assert(w != "stop"@ ==> ended_oddly(reply, w));
    }
}

/// An answer succeeded where its status is one of the hundred from 200 on.
pub proof fn law_succeeded(status: u16)
    ensures
        succeeded(status) <==> status / 100 == 2,
{
}

/// Each further name is asked behind the others, unless it is among them already or they end with the
/// one that says to do without.
pub proof fn law_chained(names: Seq<Seq<char>>, name: Seq<char>)
    ensures
        chained(Seq::empty()) == Seq::<Seq<char>>::empty(),
        chained(names.push(name)) == if (exists|i: int|
            0 <= i < chained(names).len() && (#[trigger] chained(names)[i] == name || chained(names)[i]
                == "model-free"@)) {
            chained(names)
        } else {
            chained(names).push(name)
        },
{
    assert(names.push(name).drop_last() =~= names);
    let c = chained(names);
    if c.contains("model-free"@) || c.contains(name) {
        let i = choose|i: int| 0 <= i < c.len() && (c[i] == "model-free"@ || c[i] == name);
        assert(c[i] == name || c[i] == "model-free"@);
    }
}

/// The names are that of the engine and those of the fallbacks, in order.
pub proof fn law_named(s: &SummarizerConfig, i: int)
    ensures
        named(s).len() == s.fallback@.len() + 1,
        named(s)[0] == s.engine@,
        0 <= i < s.fallback@.len() ==> named(s)[i + 1] == s.fallback@[i]@,
        chained(named(s)).contains("model-free"@) ==> chain_of(s) == chained(named(s)),
        !chained(named(s)).contains("model-free"@) ==> chain_of(s) == chained(named(s)).push(
            "model-free"@,
        ),
{
}

/// Whether a name of a chain is one that can be asked: the local one, if its model is not
/// disqualified, or that of a provider of the settings.
pub open spec fn askable(s: &SummarizerConfig, name: Seq<char>) -> bool {
    if name == "local"@ {
        !disqualified(s.local.model@)
    } else {
        exists|k: int| 0 <= k < s.providers@.len() && (#[trigger] s.providers@[k]).id@ == name
    }
}

proof fn lemma_provider(providers: Seq<SummarizerProviderConfig>, id: Seq<char>, i: int)
    requires
        0 <= i,
    ensures
        match provider_from(providers, id, i) {
            Some(k) => i <= k < providers.len() && providers[k].id@ == id && forall|j: int|
                i <= j < k ==> (#[trigger] providers[j]).id@ != id,
            None => forall|j: int| i <= j < providers.len() ==> (#[trigger] providers[j]).id@ != id,
        },
    decreases providers.len() - i,
{
    if i < providers.len() && providers[i].id@ != id {
        lemma_provider(providers, id, i + 1);
    }
}

/// The next step is the first name of the chain, from a place on, that can be asked, and of several
/// providers with its name the first. It stops at the one that says to do without, and at the end.
pub proof fn law_step(s: &SummarizerConfig, chain: Seq<Seq<char>>, at: int, x: int)
    requires
        0 <= at,
        chain.len() < usize::MAX,
        s.providers@.len() <= usize::MAX,
    ensures
        match step_at(s, chain, at) {
            CascadeStep::Local { next } => {
                &&& at < next <= chain.len() && chain[next - 1] == "local"@ && askable(s, "local"@)
                &&& at <= x < next - 1 ==> !askable(s, chain[x]) && chain[x] != "model-free"@
            },
            CascadeStep::Provider { index, next } => {
                &&& at < next <= chain.len() && chain[next - 1] != "local"@ && index < s.providers@.len()
                    && s.providers@[index as int].id@ == chain[next - 1]
                &&& 0 <= x < index ==> s.providers@[x].id@ != chain[next - 1]
                &&& at <= x < next - 1 ==> !askable(s, chain[x]) && chain[x] != "model-free"@
            },
            CascadeStep::Stop => {
                at <= x < chain.len() && (forall|y: int| at <= y < x ==> #[trigger] chain[y]
                    != "model-free"@) && chain[x] != "model-free"@ ==> !askable(s, chain[x])
            },
        },
    decreases chain.len() - at,
{
    reveal_strlit("model-free");
    reveal_strlit("local");
    assert("model-free"@.len() == 10 && "local"@.len() == 5);
    if at < chain.len() && chain[at] != "model-free"@ {
        if chain[at] == "local"@ {
            if disqualified(s.local.model@) {
                law_step(s, chain, at + 1, x);
            }
        } else {
            lemma_provider(s.providers@, chain[at], 0);
            if provider_from(s.providers@, chain[at], 0) is None {
                law_step(s, chain, at + 1, x);
            }
        }
    }
}

/// A step that asks someone leads on to its own next place where it fails, and says who was asked;
/// the last leads nowhere.
pub proof fn law_kinds(index: usize, next: usize)
    ensures
        next_of(CascadeStep::Local { next }) == Some(next),
        next_of(CascadeStep::Provider { index, next }) == Some(next),
        next_of(CascadeStep::Stop) is None,
        kind_of(CascadeStep::Local { next }) == "local"@,
        kind_of(CascadeStep::Provider { index, next }) == "api"@,
{
}

} // verus!
