# maacoc_engine

The engine library of a MaaFramework-based auto-battle client for Clash of
Clans, written in Verus: the functions in `src/` carry contracts that Verus
proves. The exceptions are the few wrappers marked
`#[verifier::external_body]` that call `serde_json`, `similar` and std
(in `src/json.rs`, `src/diff.rs`, `src/text.rs` and `src/frames.rs`): their
contracts are assumed, and their doc comments say what is claimed of the
outside function.

## Layout

| Path | What it holds |
| --- | --- |
| `src/jsonc.rs` | Blanking comments and trailing commas out of a JSONC pipeline file, byte for byte |
| `src/scan.rs` | The scanner that reads a blanked document's value and records where each key and value sits |
| `src/pipeline.rs` | Reading pipeline documents and patching node fields at byte offsets; unified diffs of a patch |
| `src/diff.rs` | Hunks of a line diff (from `similar`) rendered in unified form, each with its `@@` range line |
| `src/json.rs` | JSON values as plain data (`Json`), and the calls into `serde_json` that read and write them |
| `src/events.rs` | Classifying framework notifications, reading their details, building node events, the bounded event queue |
| `src/trial.rs` | Which parts of a node definition a one-frame recognition trial uses |
| `src/runner.rs` | Choosing the device a session drives |
| `src/frames.rs` | The recorded frame corpus: PNG sizes, index lines, frame file names |
| `src/session.rs` | Settings, connection phase, status and the running tally of the desktop shell |
| `src/text.rs` | String and character helpers shared by the modules |
| `app/` | The command-line probes, the framework glue (devices, tasks, callbacks), file I/O and the desktop shell's command layer |
| `tests/` | Tests of the library on concrete values |

The laws the library keeps (what blanking preserves, that a one-line edit
changes one line, that a refused patch is never returned, what the event
queue accounts for) are public proof functions next to the code they speak
of, named `lemma_*`.
