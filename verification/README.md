# codex_state

What a proxy in front of Codex remembers of conversations between requests, and
how it decides what of it may be used again. The library is written in Verus:
every function carries a contract, and the contracts are proved.

- `continuation`: which stored response a request may continue, per conversation
  owner, and who may publish one.
- `context_management`: compaction items that Codex emits while it answers, put in
  place of exactly the history that they cover.
- `compaction`: server compaction, from the request for it to its use in place of
  the client's own summary.
- `rate_limits`: quota telemetry, handed on in response headers.
- `openai_compat`: the limits and the errors of the OpenAI-compatible routes.

These rest on `request` (requests, items and owners), `canonical` (the form in
which items are compared, and prompt signatures), `history` (envelopes, summaries,
what is kept of a conversation), `json` with its two modules of laws, `sse`,
`table` (entries under distinct keys that drop what is old), `text` and `model`.

`outside` holds what is taken on trust: the calls into `serde_json`, `sha2`,
`http` and the standard library, each with what is claimed of it.

The registries are plain values, and the time is an argument. `app/` holds what
lives as long as a process: the clock, the registries behind locks, the request to
Codex and the types of `axum`.
