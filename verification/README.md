# karma

The verified core of an on-device PII redactor, and the desktop shell
around it.

`src/` is a Verus library. Its functions carry `requires`/`ensures`
contracts that Verus proves:

- `decode`: BIOES tags, the label space of a token classifier (built from
  the model's `id2label`), the transition rules the decoder obeys, the
  back-pointer walk of a Viterbi pass, and span extraction from a label
  path.
- `redaction`, `pipeline`: byte offsets to character offsets, trimming of
  spans, placeholders, the redacted text and the per-entity summary.
- `tokenize`: tokenization through the `tokenizers` crate, with the byte
  offsets it reports.
- `config`, `model_files`: placeholder table, model configuration values,
  model directory resolution, which files of a model directory are loaded.
- `sidecar`: the JSON line protocol spoken with the inference sidecar.
- `server_state`, `server_control`, `model_state`, `engine`, `settings`,
  `history`, `quick_panel`, `schemas`: the state machines and decisions of
  the application.
- `text`: characters, white space, numbers and upper-casing.

`app/` is ordinary Rust: the sidecar process, SQLite history, the axum HTTP
API, the settings file, the ONNX Runtime backend and the floating-point
Viterbi scoring. It reaches the desktop toolkit through the `Host` trait.

`tests/` exercises the library on concrete values.
