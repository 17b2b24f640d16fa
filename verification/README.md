# voyna-i-mir

A Russian study tool built around excerpts from *War and Peace*: each
sentence comes with a word-by-word gloss (Russian, IPA transcription, English
meaning), which can be printed as JSON, explored word by word, or listened to
clause by clause.

## Layout

- `src/` — the verified library (Verus):
  - `excerpts/sentences.rs` — sentences, the parse of the gloss text into
    words and punctuation, clauses, clause text, titles;
  - `egui/select_word.rs`, `egui/page2.rs` — the state of the two study
    pages and how keys and clicks change it;
  - `clause_audio.rs` — where the clause recordings live;
  - `cli.rs` — command line and page URL parameters;
  - `mp3s.rs` — where the voice models are installed;
  - `text.rs`, `egui/cycle.rs` — character and wrap-around helpers.
- `app/` — the program: reading the YAML data, drawing the pages with
  egui, audio with rodio, and rendering recordings with `piper` and `ffmpeg`.
- `tests/` — tests of the library.

The program reads its data (`src/excerpts/*.yaml`, `src/ru-mp3s/`,
`assets/fonts/`) under `$VOYNA_DATA_DIR`, or under the directory it was built
from.
