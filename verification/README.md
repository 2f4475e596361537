# gene

A local-first toolkit for chatting with, evaluating, and fine-tuning open LLMs.

- `src/` is the engine, `gene_core`: a library written in Verus. What each function does
  is stated in its contract and proved. Public proof functions named `law_…` state what
  holds of the engine as a whole.
- `tests/` runs the engine on concrete values.
- `app/` is the program around it: the CLI, the desktop window, files, subprocesses and
  the network.

| Module | What it holds |
| --- | --- |
| `llm` | the incremental `<think>` / run-block parser of streamed replies, wire types |
| `provider` | endpoints, model discovery, a reply frame by frame |
| `chat`, `commands`, `transcript` | personas, requests, and what one-shot chats come to |
| `session` | the desktop session as a state machine |
| `tools` | the denylist and what a command's output is told as |
| `model`, `persist`, `render` | conversations, how they are kept, listed and shown |
| `dataset` | JSONL records, statistics, deduplication, splits, format conversion |
| `eval` | requests, grading and reports of eval sets |
| `train` | command templates, deployment plans, the training split |
| `runs` | tracked runs, dataset provenance, snapshots |
| `config`, `doctor` | configuration, and the check of prerequisites |
| `text`, `order`, `numerals`, `sorting`, `name_map`, `hash` | strings, digits, ordered collections |
| `json`, `clock`, `ids` | what the engine has from `serde_json`, `chrono` and `uuid` |
