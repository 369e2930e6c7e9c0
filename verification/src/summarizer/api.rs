//! What a summarizer behind a provider's interface is asked, and what is taken from its answer.

use super::local::{chat_message, chat_messages, make_chat_message, make_chat_messages, number};
use super::{CompactorError, SUMMARY_SYSTEM_PROMPT};
use crate::config::SummarizerProviderConfig;
use crate::json::{
    json_text, lemma_views, parse_complaint, parsed_json, views, Json, JsonMap, JsonView,
};
use crate::pairing::has_type;
use crate::text::{
    begins, contains, is_blank, lowercase, occurs, same_text, starts_with, strip_end, strip_end_of,
    trim, trim_of,
};
use vstd::prelude::*;
use vstd::string::StringExecFns;

verus! {

/// How long a summary is asked to be at most, in tokens.
pub const API_MAX_TOKENS: u64 = 4096;

/// What the `Debug` format makes of a text.
pub uninterp spec fn debug_text(s: Seq<char>) -> Seq<char>;

/// `format!` with the `Debug` format of a string: the text in quotes and with escapes, which
/// depends on the text alone. Which characters are escaped is not stated.
#[verifier::external_body]
fn quoted(s: &str) -> (r: String)
    ensures
        r@ == debug_text(s@),
{
    format!("{s:?}")
}

/// The interfaces that are known.
#[derive(Debug, Clone, Copy, PartialEq, Eq, Structural)]
pub enum ApiStyle {
    Anthropic,
    OpenAi,
}

/// The interface with a name.
pub open spec fn style_named(name: Seq<char>) -> Option<ApiStyle> {
    if name == "anthropic"@ {
        Some(ApiStyle::Anthropic)
    } else if name == "openai"@ {
        Some(ApiStyle::OpenAi)
    } else {
        None
    }
}

/// Whether a text is empty but for whitespace.
pub open spec fn blank(s: Seq<char>) -> bool {
    trim(s).len() == 0
}

/// Whether a provider has an address of its own for requests.
pub open spec fn has_full_url(api: &SummarizerProviderConfig) -> bool {
    api.full_url matches Some(u) && !blank(u@)
}

/// Why a provider cannot be asked, given the key that its variable holds; none where it can.
pub open spec fn obstacle(api: &SummarizerProviderConfig, key: Option<Seq<char>>) -> Option<
    Seq<char>,
> {
    if api.api_key_env@.len() == 0 {
        Some("summarizer provider api_key_env is not set"@)
    } else if key is None {
        Some("env var "@ + api.api_key_env@ + " is not set"@)
    } else if blank(key->0) {
        Some("env var "@ + api.api_key_env@ + " is set but empty"@)
    } else if blank(api.base_url@) && !has_full_url(api) {
        Some(
            "summarizer provider "@ + debug_text(api.id@)
                + ": base_url is not set (or set full_url)"@,
        )
    } else if blank(api.model@) {
        Some("summarizer provider "@ + debug_text(api.id@) + ": model is not set"@)
    } else if style_named(api.style@) is None {
        Some(
            "summarizer provider "@ + debug_text(api.id@) + ": unknown style "@ + debug_text(
                api.style@,
            ) + " (expected \"anthropic\" or \"openai\")"@,
        )
    } else {
        None
    }
}

/// Where a provider is asked: at its own address, if it has one, else at the usual place below its
/// base.
pub open spec fn url_of(api: &SummarizerProviderConfig, style: ApiStyle) -> Seq<char> {
    if has_full_url(api) {
        api.full_url->0@
    } else {
        match style {
            ApiStyle::Anthropic => strip_end(api.base_url@, '/') + "/v1/messages"@,
            ApiStyle::OpenAi => strip_end(api.base_url@, '/') + "/v1/chat/completions"@,
        }
    }
}

/// Whether a model reasons, by its name, and so wants its limit under another name.
pub open spec fn reasoning_model(model: Seq<char>) -> bool {
    let m = lowercase(trim(model));
    begins(m, "o1"@) || begins(m, "o3"@) || begins(m, "o4"@) || begins(m, "gpt-5"@)
}

/// Whether a model reasons, by its name.
pub fn is_openai_reasoning_model(model: &str) -> (r: bool)
    ensures
        r == reasoning_model(model@),
{
    let m = trim_of(model).as_str().to_lowercase();
    starts_with(&m, "o1") || starts_with(&m, "o3") || starts_with(&m, "o4") || starts_with(
        &m,
        "gpt-5",
    )
}

/// The request to a provider.
pub open spec fn api_payload(
    api: &SummarizerProviderConfig,
    style: ApiStyle,
    prompt: Seq<char>,
) -> JsonView {
    let empty = Map::<Seq<char>, JsonView>::empty();
    let common = empty.insert("model"@, JsonView::String(api.model@)).insert(
        "stream"@,
        JsonView::Bool(false),
    );
    let limit = number(API_MAX_TOKENS as int);
    JsonView::Object(
        match style {
            ApiStyle::Anthropic => common.insert(
                "system"@,
                JsonView::String(SUMMARY_SYSTEM_PROMPT@),
            ).insert("messages"@, JsonView::Array(seq![chat_message("user"@, prompt)])).insert(
                "max_tokens"@,
                limit,
            ),
            ApiStyle::OpenAi => common.insert("messages"@, chat_messages(prompt)).insert(
                if reasoning_model(api.model@) {
                    "max_completion_tokens"@
                } else {
                    "max_tokens"@
                },
                limit,
            ),
        },
    )
}

/// How large a reply may be, in bytes.
pub const API_MAX_RESPONSE_BYTES: usize = 8388608;

/// A request that is ready to be sent.
pub struct ApiCall {
    pub style: ApiStyle,
    pub url: String,
    /// The headers, each with its name.
    pub headers: Vec<(&'static str, String)>,
    pub body: String,
}

/// The headers of a request: the key, what the body is, and, where the receiver asks for it, which
/// application asks.
pub open spec fn headers_for(style: ApiStyle, url: Seq<char>, key: Seq<char>) -> Seq<
    (Seq<char>, Seq<char>),
> {
    match style {
        ApiStyle::Anthropic => seq![
            ("x-api-key"@, key),
            ("anthropic-version"@, "2023-06-01"@),
            ("content-type"@, "application/json"@),
        ],
        ApiStyle::OpenAi => {
            let usual = seq![
                ("authorization"@, "Bearer "@ + key),
                ("content-type"@, "application/json"@),
            ];
            if occurs(url, "openrouter.ai"@) {
                usual + seq![
                    ("HTTP-Referer"@, "https://github.com/AZagatti/trimwire"@),
                    ("X-Title"@, "trimwire"@),
                ]
            } else {
                usual
            }
        },
    }
}

/// What headers say.
pub open spec fn header_views(headers: Seq<(&'static str, String)>) -> Seq<(Seq<char>, Seq<char>)> {
    Seq::new(headers.len(), |i: int| (headers[i].0@, headers[i].1@))
}

fn make_headers(style: ApiStyle, url: &str, key: &str) -> (r: Vec<(&'static str, String)>)
    ensures
        header_views(r@) == headers_for(style, url@, key@),
{
    let mut r: Vec<(&'static str, String)> = Vec::new();
    match style {
        ApiStyle::Anthropic => {
            r.push(("x-api-key", key.to_owned()));
            r.push(("anthropic-version", "2023-06-01".to_owned()));
            r.push(("content-type", "application/json".to_owned()));
        },
        ApiStyle::OpenAi => {
            let mut bearer = "Bearer ".to_owned();
            bearer.append(key);
            r.push(("authorization", bearer));
            r.push(("content-type", "application/json".to_owned()));
            if contains(url, "openrouter.ai") {
                r.push(("HTTP-Referer", "https://github.com/AZagatti/trimwire".to_owned()));
                r.push(("X-Title", "trimwire".to_owned()));
            }
        },
    }
    assert(header_views(r@) =~= headers_for(style, url@, key@));
    r
}

fn why_not(api: &SummarizerProviderConfig, key: Option<&str>) -> (r: Option<String>)
    ensures
        crate::text::opt_string(r) == obstacle(api, crate::json::opt_text(key)),
{
    if api.api_key_env.as_str().is_empty() {
        return Some("summarizer provider api_key_env is not set".to_owned());
    }
    match key {
        Some(k) => if is_blank(k) {
            let mut s = "env var ".to_owned();
            s.append(&api.api_key_env);
            s.append(" is set but empty");
            return Some(s);
        },
        None => {
            let mut s = "env var ".to_owned();
            s.append(&api.api_key_env);
            s.append(" is not set");
            return Some(s);
        },
    }
    let own_url = match &api.full_url {
        Some(u) => !is_blank(u),
        None => false,
    };
    let mut s = "summarizer provider ".to_owned();
    s.append(&quoted(&api.id));
    if is_blank(&api.base_url) && !own_url {
        s.append(": base_url is not set (or set full_url)");
        return Some(s);
    }
    if is_blank(&api.model) {
        s.append(": model is not set");
        return Some(s);
    }
    if !same_text(&api.style, "anthropic") && !same_text(&api.style, "openai") {
        s.append(": unknown style ");
        s.append(&quoted(&api.style));
        s.append(" (expected \"anthropic\" or \"openai\")");
        return Some(s);
    }
    None
}

fn make_url(api: &SummarizerProviderConfig, style: ApiStyle) -> (r: String)
    ensures
        r@ == url_of(api, style),
{
    if let Some(u) = &api.full_url {
        if !is_blank(u) {
            return u.clone();
        }
    }
    let mut s = strip_end_of(&api.base_url, '/');
    match style {
        ApiStyle::Anthropic => s.append("/v1/messages"),
        ApiStyle::OpenAi => s.append("/v1/chat/completions"),
    }
    s
}

fn make_payload(api: &SummarizerProviderConfig, style: ApiStyle, prompt: &str) -> (r: Json)
    ensures
        r@ == api_payload(api, style, prompt@),
{
    let mut m = JsonMap::new();
    m.insert("model".to_owned(), Json::text(&api.model));
    m.insert("stream".to_owned(), Json::Bool(false));
    let limit = Json::number(API_MAX_TOKENS);
    match style {
        ApiStyle::Anthropic => {
            m.insert("system".to_owned(), Json::text(SUMMARY_SYSTEM_PROMPT));
            let mut v: Vec<Json> = Vec::new();
            v.push(make_chat_message("user", prompt));
            proof {
                lemma_views(v@);
                assert(views(v@) =~= seq![chat_message("user"@, prompt@)]);
            }
            m.insert("messages".to_owned(), Json::Array(v));
            m.insert("max_tokens".to_owned(), limit);
        },
        ApiStyle::OpenAi => {
            m.insert("messages".to_owned(), make_chat_messages(prompt));
            let key = if is_openai_reasoning_model(&api.model) {
                "max_completion_tokens"
            } else {
                "max_tokens"
            };
            m.insert(key.to_owned(), limit);
        },
    }
    Json::Object(m)
}

/// Puts together the request to a provider, given the key that its variable holds.
pub fn api_request(api: &SummarizerProviderConfig, key: Option<&str>, prompt: &str) -> (r: Result<
    ApiCall,
    CompactorError,
>)
    ensures
        match r {
            Ok(call) => obstacle(api, crate::json::opt_text(key)) is None && style_named(api.style@)
                == Some(call.style) && call.url@ == url_of(api, call.style) && call.body@
                == json_text(api_payload(api, call.style, prompt@)) && header_views(call.headers@)
                == headers_for(call.style, call.url@, key->0@),
            Err(e) => obstacle(api, crate::json::opt_text(key)) matches Some(why) && (
            e matches CompactorError::Unreachable(said) && said@ == why),
        },
{
    if let Some(why) = why_not(api, key) {
        return Err(CompactorError::Unreachable(why));
    }
    let style = if same_text(&api.style, "anthropic") {
        ApiStyle::Anthropic
    } else {
        ApiStyle::OpenAi
    };
    let url = make_url(api, style);
    let headers = match key {
        Some(k) => make_headers(style, &url, k),
        None => Vec::new(),
    };
    let body = make_payload(api, style, prompt).to_text();
    Ok(ApiCall { style, url, headers, body })
}

/// The text of the text blocks among some, in order.
pub open spec fn joined_text(blocks: Seq<JsonView>) -> Seq<char>
    decreases blocks.len(),
{
    if blocks.len() == 0 {
        Seq::empty()
    } else {
        let before = joined_text(blocks.drop_last());
        match blocks.last().get_str("text"@) {
            Some(t) => if has_type(blocks.last(), "text"@) {
                before + t
            } else {
                before
            },
            None => before,
        }
    }
}

/// Takes the text from a reply of the first kind of interface.
pub fn extract_anthropic_text(v: &Json) -> (r: Result<String, CompactorError>)
    ensures
        match v@.get_array("content"@) {
            Some(blocks) => r matches Ok(t) && t@ == joined_text(blocks),
            None => r matches Err(CompactorError::Malformed(e)) && e@
                == "missing or non-array 'content' field"@,
        },
{
    let content = match v.get_array("content") {
        Some(content) => content,
        None => return Err(
            CompactorError::Malformed("missing or non-array 'content' field".to_owned()),
        ),
    };
    let ghost all = views(content@);
    let mut out = String::new();
    let mut i: usize = 0;
    assert(all.take(0) =~= Seq::empty());
    while i < content.len()
        invariant
            i <= content@.len(),
            all == views(content@),
            out@ == joined_text(all.take(i as int)),
        decreases content@.len() - i,
    {
        proof {
            lemma_views(content@);
            assert(all.take(i + 1).drop_last() =~= all.take(i as int));
            assert(all.take(i + 1).last() == all[i as int]);
        }
        if content[i].member_is("type", "text") {
            if let Some(t) = content[i].get_str("text") {
                out.append(t);
            }
        }
        i = i + 1;
    }
    proof {
        lemma_views(content@);
        assert(all.take(i as int) =~= all);
    }
    Ok(out)
}

/// Takes the whitespace off a summary, and refuses one that is empty then.
pub fn finalize_text(text: String) -> (r: Result<String, CompactorError>)
    ensures
        if blank(text@) {
            r matches Err(CompactorError::EmptyResponse)
        } else {
            r matches Ok(t) && t@ == trim(text@)
        },
{
    let t = trim_of(&text);
    if t.as_str().is_empty() {
        Err(CompactorError::EmptyResponse)
    } else {
        Ok(t)
    }
}

/// Whether a result is what a reply of the first kind of interface gives.
pub open spec fn anthropic_outcome(reply: JsonView, r: Result<String, CompactorError>) -> bool {
    match reply.get_array("content"@) {
        Some(blocks) => if blank(joined_text(blocks)) {
            r matches Err(CompactorError::EmptyResponse)
        } else {
            r matches Ok(t) && t@ == trim(joined_text(blocks))
        },
        None => r matches Err(CompactorError::Malformed(e)) && e@
            == "missing or non-array 'content' field"@,
    }
}

/// The first choice of a reply of the second kind of interface.
pub open spec fn first_choice(reply: JsonView) -> JsonView {
    match reply.get_array("choices"@) {
        Some(choices) => if choices.len() > 0 {
            choices[0]
        } else {
            JsonView::Null
        },
        None => JsonView::Null,
    }
}

/// The content of a choice; null where it has none.
pub open spec fn choice_content(choice: JsonView) -> JsonView {
    match choice.get("message"@) {
        Some(m) => match m.get("content"@) {
            Some(c) => c,
            None => JsonView::Null,
        },
        None => JsonView::Null,
    }
}

/// Why a choice ended.
pub open spec fn finish_reason(choice: JsonView) -> Seq<char> {
    match choice.get_str("finish_reason"@) {
        Some(s) => s,
        None => "stop"@,
    }
}

/// What is said of a choice without content that did not end as usual.
pub open spec fn refusal(reason: Seq<char>) -> Seq<char> {
    "OpenAI response: choices[0].message.content is null/missing (finish_reason = "@ + debug_text(
        reason,
    )
        + "); likely a content-filter refusal or context-length truncation — check model, prompt, or max_tokens"@
}

/// Whether a result is what a reply of the second kind of interface gives.
pub open spec fn openai_outcome(reply: JsonView, r: Result<String, CompactorError>) -> bool {
    let choice = first_choice(reply);
    let content = choice_content(choice);
    let text = match content.as_str() {
        Some(s) => s,
        None => ""@,
    };
    if content == JsonView::Null && finish_reason(choice) != "stop"@ {
        r matches Err(CompactorError::Malformed(e)) && e@ == refusal(finish_reason(choice))
    } else if blank(text) {
        r matches Err(CompactorError::EmptyResponse)
    } else {
        r matches Ok(t) && t@ == trim(text)
    }
}

/// Takes the summary from a reply of the second kind of interface.
pub fn openai_text(v: &Json) -> (r: Result<String, CompactorError>)
    ensures
        openai_outcome(v@, r),
{
    let null = Json::Null;
    let choice = match v.get_array("choices") {
        Some(choices) => {
            proof {
                lemma_views(choices@);
            }
            if choices.len() > 0 {
                &choices[0]
            } else {
                &null
            }
        },
        None => &null,
    };
    assert(choice@ == first_choice(v@));
    let content = match choice.get("message") {
        Some(m) => match m.get("content") {
            Some(c) => c,
            None => &null,
        },
        None => &null,
    };
    assert(content@ == choice_content(choice@));
    let reason = match choice.get_str("finish_reason") {
        Some(s) => s,
        None => "stop",
    };
    if content.is_null() && !same_text(reason, "stop") {
        let mut e =
            "OpenAI response: choices[0].message.content is null/missing (finish_reason = ".to_owned();
        e.append(&quoted(reason));
        e.append(
            "); likely a content-filter refusal or context-length truncation — check model, prompt, or max_tokens",
        );
        return Err(CompactorError::Malformed(e));
    }
    let text = match content.as_str() {
        Some(s) => s,
        None => "",
    };
    finalize_text(text.to_owned())
}

/// Takes the summary from a reply of a provider.
pub fn api_reply(style: ApiStyle, body: &[u8]) -> (r: Result<String, CompactorError>)
    ensures
        match parsed_json(body@) {
            Some(reply) => match style {
                ApiStyle::Anthropic => anthropic_outcome(reply, r),
                ApiStyle::OpenAi => openai_outcome(reply, r),
            },
            None => r matches Err(CompactorError::Malformed(why)) && why@ == parse_complaint(body@),
        },
{
    let v = match Json::read(body) {
        Ok(v) => v,
        Err(e) => return Err(CompactorError::Malformed(e)),
    };
    match style {
        ApiStyle::Anthropic => match extract_anthropic_text(&v) {
            Ok(t) => finalize_text(t),
            Err(e) => Err(e),
        },
        ApiStyle::OpenAi => openai_text(&v),
    }
}

} // verus!
