//! What a local summarizer is asked, and what is taken from its answer.

use super::{num_ctx_for, num_predict_for, CompactorError, SUMMARY_SYSTEM_PROMPT};
use super::{clamp, MAX_NUM_CTX_CEILING, MAX_NUM_PREDICT};
use crate::config::SummarizerLocalConfig;
use crate::json::{
    json_number, json_text, lemma_views, parse_complaint, parsed_json, views, Json, JsonMap,
    JsonView,
};
use crate::text::{
    begins, byte_len, chars_of, find_first, first_at, lemma_first_at, starts_with, string_of,
    strip_end, strip_end_of, trim, trim_of, utf8_len,
};
use vstd::prelude::*;
use vstd::string::StringExecFns;
use vstd::utf8::encode_utf8;

verus! {

/// A text without its thinking: each `<think>` with all up to the first `</think>` goes, as long as
/// the first of the one stands before the first of the other.
pub open spec fn unthought(s: Seq<char>) -> Seq<char>
    decreases s.len(),
    via unthought_decreases
{
    match (first_at(s, "<think>"@), first_at(s, "</think>"@)) {
        (Some(a), Some(b)) => if b > a {
            unthought(s.take(a) + s.skip(b + 8))
        } else {
            s
        },
        _ => s,
    }
}

proof fn lemma_close_tag()
    ensures
        "</think>"@.len() == 8,
        "<think>"@.len() == 7,
{
    reveal_strlit("</think>");
    reveal_strlit("<think>");
}

#[via_fn]
proof fn unthought_decreases(s: Seq<char>) {
    lemma_first_at(s, "<think>"@);
    lemma_first_at(s, "</think>"@);
    lemma_close_tag();
}

/// Takes the thinking out of an answer.
pub fn strip_think_blocks(text: String) -> (r: String)
    ensures
        r@ == unthought(text@),
{
    let mut s = chars_of(&text);
    let ghost want = unthought(text@);
    loop
        invariant
            unthought(s@) == want,
        ensures
            s@ == want,
        decreases s@.len(),
    {
        proof {
            lemma_close_tag();
        }
        let a = find_first(&s, "<think>");
        let b = find_first(&s, "</think>");
        match (a, b) {
            (Some(a), Some(b)) => {
                if b <= a {
                    break;
                }
                let mut rest: Vec<char> = Vec::new();
                let ghost all = s@;
                let mut i: usize = 0;
                while i < s.len()
                    invariant
                        i <= s@.len(),
                        s@ == all,
                        a < b,
                        b + 8 <= all.len(),
                        rest@ == if i <= a {
                            all.take(i as int)
                        } else if i <= b + 8 {
                            all.take(a as int)
                        } else {
                            all.take(a as int) + all.subrange(b + 8, i as int)
                        },
                    decreases s@.len() - i,
                {
                    if i < a || i >= b + 8 {
                        rest.push(s[i]);
                    }
                    i = i + 1;
                    proof {
                        if i <= a {
                            assert(rest@ =~= all.take(i as int));
                        } else if i <= b + 8 {
                            assert(rest@ =~= all.take(a as int));
                        } else {
                            assert(rest@ =~= all.take(a as int) + all.subrange(b + 8, i as int));
                        }
                    }
                }
                assert(rest@ =~= all.take(a as int) + all.skip(b + 8));
                s = rest;
            },
            _ => break,
        }
    }
    let n: usize = s.len();
    assert(s@.subrange(0, n as int) =~= s@);
    string_of(&s, 0, n)
}

/// What is left of an answer has no thinking that could go.
pub proof fn law_unthought_once(s: Seq<char>)
    ensures
        unthought(unthought(s)) == unthought(s),
    decreases s.len(),
{
    lemma_first_at(s, "<think>"@);
    lemma_first_at(s, "</think>"@);
    lemma_close_tag();
    if let (Some(a), Some(b)) = (first_at(s, "<think>"@), first_at(s, "</think>"@)) {
        if b > a {
            law_unthought_once(s.take(a) + s.skip(b + 8));
        }
    }
}

/// Where the local summarizer is asked.
pub open spec fn chat_url(endpoint: Seq<char>) -> Seq<char> {
    strip_end(endpoint, '/') + "/api/chat"@
}

/// Where the local summarizer is asked.
pub fn local_url(cfg: &SummarizerLocalConfig) -> (r: String)
    ensures
        r@ == chat_url(cfg.endpoint@),
{
    let mut s = strip_end_of(&cfg.endpoint, '/');
    s.append("/api/chat");
    s
}

/// How a model of the family that thinks is to be run: nearly greedy, always the same.
pub const THINKING_OPTIONS: &'static str =
    "{\"temperature\":0.1,\"top_k\":20,\"min_p\":0,\"repeat_penalty\":1.1,\"repeat_last_n\":64,\"seed\":42,\"stop\":[\"<|im_end|>\",\"\\n\\n---\",\"\\nNote:\",\"\\nSummary:\",\"\\nConclusion:\"],\"top_p\":0.8}";

/// How any other model is to be run.
pub const PLAIN_OPTIONS: &'static str =
    "{\"temperature\":0.1,\"top_k\":20,\"min_p\":0,\"repeat_penalty\":1.1,\"repeat_last_n\":64,\"seed\":42,\"stop\":[\"<|im_end|>\",\"\\n\\n---\",\"\\nNote:\",\"\\nSummary:\",\"\\nConclusion:\"],\"top_p\":0.9}";

/// The text that says how a model is to be run.
pub open spec fn options_text(model: Seq<char>) -> Seq<char> {
    if begins(model, "qwen3"@) {
        THINKING_OPTIONS@
    } else {
        PLAIN_OPTIONS@
    }
}

/// The context that is asked for.
pub open spec fn asked_ctx(cfg: &SummarizerLocalConfig, prompt: Seq<char>) -> int {
    clamp(
        (2 * utf8_len(prompt) + 4) as int / 5,
        4096,
        clamp(cfg.max_num_ctx as int, 4096, MAX_NUM_CTX_CEILING as int),
    )
}

/// A message of a chat.
pub open spec fn chat_message(role: Seq<char>, text: Seq<char>) -> JsonView {
    JsonView::Object(
        Map::<Seq<char>, JsonView>::empty().insert("role"@, JsonView::String(role)).insert(
            "content"@,
            JsonView::String(text),
        ),
    )
}

/// What is asked: the instruction, and the prompt.
pub open spec fn chat_messages(prompt: Seq<char>) -> JsonView {
    JsonView::Array(
        seq![chat_message("system"@, SUMMARY_SYSTEM_PROMPT@), chat_message("user"@, prompt)],
    )
}

/// A whole number as JSON.
pub open spec fn number(n: int) -> JsonView {
    JsonView::Number(json_number(n))
}

/// The request to the local summarizer, given how the model is to be run.
pub open spec fn local_payload(
    cfg: &SummarizerLocalConfig,
    prompt: Seq<char>,
    options: JsonView,
) -> JsonView {
    let ctx = asked_ctx(cfg, prompt);
    let full = options.with("num_ctx"@, number(ctx)).with(
        "num_predict"@,
        number(clamp(ctx / 4, 200, MAX_NUM_PREDICT as int)),
    );
    let plain = Map::<Seq<char>, JsonView>::empty().insert(
        "model"@,
        JsonView::String(cfg.model@),
    ).insert("stream"@, JsonView::Bool(false)).insert(
        "keep_alive"@,
        number(cfg.keep_alive_secs as int),
    ).insert("messages"@, chat_messages(prompt)).insert("options"@, full);
    if begins(cfg.model@, "qwen3"@) {
        JsonView::Object(plain.insert("think"@, JsonView::Bool(false)))
    } else {
        JsonView::Object(plain)
    }
}

pub(crate) fn make_chat_message(role: &str, text: &str) -> (r: Json)
    ensures
        r@ == chat_message(role@, text@),
{
    let mut m = JsonMap::new();
    m.insert("role".to_owned(), Json::text(role));
    m.insert("content".to_owned(), Json::text(text));
    Json::Object(m)
}

pub(crate) fn make_chat_messages(prompt: &str) -> (r: Json)
    ensures
        r@ == chat_messages(prompt@),
{
    let mut v: Vec<Json> = Vec::new();
    v.push(make_chat_message("system", SUMMARY_SYSTEM_PROMPT));
    v.push(make_chat_message("user", prompt));
    proof {
        lemma_views(v@);
        assert(views(v@) =~= seq![
            chat_message("system"@, SUMMARY_SYSTEM_PROMPT@),
            chat_message("user"@, prompt@),
        ]);
    }
    Json::Array(v)
}

/// Puts together the request to the local summarizer.
pub fn local_request(cfg: &SummarizerLocalConfig, prompt: &str) -> (r: Result<
    String,
    CompactorError,
>)
    ensures
        match r {
            Ok(body) => parsed_json(encode_utf8(options_text(cfg.model@))) matches Some(options)
                && body@ == json_text(local_payload(cfg, prompt@, options)),
            Err(e) => parsed_json(encode_utf8(options_text(cfg.model@))) is None && (
            e matches CompactorError::Malformed(why) && why@ == parse_complaint(
                encode_utf8(options_text(cfg.model@)),
            )),
        },
{
    let thinks = starts_with(&cfg.model, "qwen3");
    let text = if thinks {
        THINKING_OPTIONS
    } else {
        PLAIN_OPTIONS
    };
    let mut options = match Json::read(text.as_bytes()) {
        Ok(v) => v,
        Err(e) => return Err(CompactorError::Malformed(e)),
    };
    let num_ctx: u64 = num_ctx_for(byte_len(prompt), cfg.max_num_ctx);
    options.set("num_ctx", Json::number(num_ctx));
    options.set("num_predict", Json::number(num_predict_for(num_ctx)));
    let mut m = JsonMap::new();
    m.insert("model".to_owned(), Json::text(&cfg.model));
    m.insert("stream".to_owned(), Json::Bool(false));
    m.insert("keep_alive".to_owned(), Json::number(cfg.keep_alive_secs));
    m.insert("messages".to_owned(), make_chat_messages(prompt));
    m.insert("options".to_owned(), options);
    if thinks {
        m.insert("think".to_owned(), Json::Bool(false));
    }
    Ok(Json::Object(m).to_text())
}

/// The answer in a reply of the local summarizer, without its thinking and the whitespace at its
/// ends.
pub open spec fn local_answer(reply: JsonView) -> Seq<char> {
    let raw = match reply.get("message"@) {
        Some(m) => match m.get_str("content"@) {
            Some(t) => t,
            None => ""@,
        },
        None => ""@,
    };
    trim(unthought(raw))
}

/// Whether a result is what a reply of the local summarizer gives.
pub open spec fn local_outcome(reply: JsonView, r: Result<String, CompactorError>) -> bool {
    if local_answer(reply).len() == 0 {
        r matches Err(CompactorError::EmptyResponse)
    } else {
        r matches Ok(t) && t@ == local_answer(reply)
    }
}

/// Takes the summary from a reply of the local summarizer that has been read.
pub fn local_text(v: &Json) -> (r: Result<String, CompactorError>)
    ensures
        local_outcome(v@, r),
{
    let raw = match v.get("message") {
        Some(m) => match m.get_str("content") {
            Some(t) => t,
            None => "",
        },
        None => "",
    };
    let text = trim_of(&strip_think_blocks(raw.to_owned()));
    if text.as_str().is_empty() {
        Err(CompactorError::EmptyResponse)
    } else {
        Ok(text)
    }
}

/// Takes the summary from a reply of the local summarizer.
pub fn local_reply(body: &[u8]) -> (r: Result<String, CompactorError>)
    ensures
        match parsed_json(body@) {
            Some(reply) => local_outcome(reply, r),
            None => r matches Err(CompactorError::Malformed(why)) && why@ == parse_complaint(body@),
        },
{
    match Json::read(body) {
        Ok(v) => local_text(&v),
        Err(e) => Err(CompactorError::Malformed(e)),
    }
}

} // verus!
