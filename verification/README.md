# trimwire

Trimwire makes the requests of a coding agent smaller before they go to a model. It works on the
`messages` of a request: it elides what later messages have made redundant, caps what is oversized,
and can put a summary in the place of old turns. It never parts a tool result from its call, and a
request in which nothing is to be done goes out byte for byte as it came.

The library under `src/` is verified with [Verus](https://github.com/verus-lang/verus): every public
function states what it returns or changes, and the properties that relate several functions are
proved as `law_…` proof functions.

## Layout

- `src/json.rs`: JSON values and their model; reading and writing go through `serde_json`.
- `src/size.rs`: how many bytes the text of a value takes.
- `src/text.rs`, `src/assoc.rs`: texts as sequences of characters, and small tables keyed by text.
- `src/pairing.rs`: which tool result answers which call.
- `src/rewrite.rs`, `src/sites.rs`: rules that change blocks one by one, and blocks in their order.
- `src/config/`: what a user can set.
- `src/strategies/`: the strategies, their order (`run`) and what becomes of a body
  (`apply_to_body`). `laws.rs`, `dedup_laws.rs` and `depth.rs` hold what is proved of them: that a
  second pass changes nothing, what is left alone, what is always kept, what never grows, and that
  what is written can be read.
- `src/summarizer/`: which messages are summarized (`slice.rs`), whether and when (`gate.rs`), who
  is asked (`cascade.rs`), what is sent and what is read from the reply (`local.rs`, `api.rs`), how
  a summarizer is tried out (`probe.rs`, `harm_check.rs`), and what a transcript with summaries
  keeps (`laws.rs`).
- `src/sweep/`: the cleanup of the record of a session on disk, on bytes.
- `app/`: files, sockets, tasks and floating point around the library.
- `tests/`: tests that run the library with the crates it calls.

## What is trusted

What `serde_json`, `sha2` and `hex` return, and a few functions of the standard library on
characters and texts. Each trusted item says in its comment what is believed of it and what is left
unsaid.
