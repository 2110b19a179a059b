# vaktum

The logic of Vaktum, a local-first voice dictation tool, as a Verus-verified
library, with the desktop shell around it in `app/`.

- `src/` — the verified library:
  - `text`, `words`: characters, Unicode whitespace, trimming, ASCII case,
    whitespace-separated words and their single-space join.
  - `cleanup`: transcript cleanup (whitespace collapsing, punctuation spacing),
    with its laws: the result is well spaced, keeps every non-whitespace
    character, is empty exactly for blank input, and cleaning is idempotent.
  - `streaming`: the streaming commit protocol (`stable_prefix`,
    `delta_after_committed`, `reconcile_final`, `join_delta`) and the per-pass
    decisions of a streaming session (`StreamingState`).
  - `context`: classifying the target application by its executable.
  - `config`, `history`: configuration validity and defaults, the bounded
    history, and the parts of the paths of the files they live in.
  - `insertion`, `transcription`, `audio`: the checks around inserting text,
    running Whisper and saving recordings.
- `app/` — the Tauri shell: microphone capture (cpal), WAV files (hound),
  Whisper (whisper-rs), the Windows clipboard and input API, JSON files
  (serde_json), environment variables and the streaming worker thread.
- `tests/` — tests of the library.
