# express_trainer

A speaking-practice trainer: live transcripts are checked sentence by
sentence for filler words, vague wording, hedging, repetition, missing
conclusions and examples, emotion words and golden quotes; sessions end with
an AI report (or a local one without a backend), a history of past sessions
and a lexicon that grows from what the user says.

## Layout

- `src/` — the library, verified with Verus against its `requires` /
  `ensures`. Where a result comes from outside (the credential store, a JSON
  parser, the clock), the function that makes the call states what holds
  whatever came back, and a verified function one step down takes that
  result as an argument and states exactly what is made of it.
  - `rules/` — the rule engine and its rules, the lexicons and language
    routing.
  - `report.rs`, `json.rs` — transcripts, the report requests (as JSON text)
    and the local report.
  - `checkin.rs` — the periodic AI check-in: payload, reply protocol,
    cooldowns and the failure breaker.
  - `session.rs`, `audio.rs`, `decode.rs` — session bookkeeping, WAV
    writing and parsing, the audio-format choice.
  - `history.rs`, `growth.rs`, `export.rs`, `settings.rs`, `secrets.rs`,
    `downloader.rs`, `interview.rs`, `interview_bank.rs`, `sse.rs`,
    `paniclog.rs`, `text.rs` — history order and cleanup, lexicon growth,
    export names, settings parsing, key storage, model downloads, mock
    interviews, server-sent events, log lines and text helpers.
- `app/` — the shell around the library: files and network, float rates
  and audio samples, audio decoding.
- `tests/` — tests of the library.
