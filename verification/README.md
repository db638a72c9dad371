# IureTranscribe — verified core

The logic of IureTranscribe (local transcription of audio and video with
whisper.cpp, summaries and minutes, recording, and the connection with an
Iurefficient instance over WebDAV) as a Verus library, with the desktop glue
around it.

- `src/` — the verified library. Each module states its behaviour in
  `requires`/`ensures` over spec functions and proves it:
  - `text`: character classes, trimming, words, joining, decimal formatting;
  - `subtitles`: SRT, WebVTT, plain text;
  - `vocab`: the user's corrections (whole words, case-insensitive, longest
    variant first) and whisper's initial prompt;
  - `transcribe`: non-speech markers, wrong-script noise, trimming of
    repetition loops, decoding plans and the segments kept;
  - `diarize`: the sidecar's output and the assignment of speakers;
  - `models`: the catalog, model files, downloads and their decisions;
  - `iurefficient`: PROPFIND listings, uploads, statuses, content types and
    the account's fields;
  - `gpu`, `settings`, `llm`, `recorder`, `outputs`: the decisions of the
    app around probes, settings, OpenRouter, recording and output files.
  Public proof functions state the laws that hold across calls (sorted
  listings, longest-first rules, number round trips, speaker numbering, …).
- `tests/` — tests on concrete values.
- `app/` — ordinary Rust around the library: audio decoding and resampling,
  processes, HTTP requests, the settings file and the JSON copies of the
  library's types.
