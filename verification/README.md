# solflow

The core of Sol Flow, a dictation and meeting-transcription tool, as a
library verified with Verus, with a small command-line program around it.

- `src/` — the verified library: text cleanup, exports (text, markdown,
  HTML, docx, the non-layout parts of PDF), the TrueType reader, the
  meeting and project records, the model catalog and its downloads, the
  history rules, settings, hotkeys, the dictation and keeper state
  machines, audio bookkeeping (WAV header, resampling windows, cutting
  speech into pieces), LLM summary and translation jobs as state machines,
  and the decisions and merges of cloud sync. Every public function states
  in its contract what it returns; the laws of the library are public proof
  functions next to the code they speak of.
- `tests/` — tests on concrete values.
- `app/` — the command-line program: files, network, the downloader, PDF
  layout in floating point, and the serde copies of the library's records.

Calls into other crates (flate2, md5, parts of std) go through a few
trusted wrappers whose doc comments say what is assumed of them.
