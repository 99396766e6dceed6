# lsp_core

The language-server side of an editor: finding a server for a language,
talking to it over LSP, keeping its view of open documents in step with the
editor, and turning its answers into usage lists, goto targets and renames.

The library in `src/` is verified with Verus. Every public function states in
its contract what it returns or changes, and the properties that span several
calls stand as proof functions named `law_*`.

- `text`, `positions`: character and UTF-16 arithmetic, line/column conversion.
- `framing`, `json`, `jsonrpc`: `Content-Length` frames, the JSON values the
  library reads, and the classification of incoming JSON-RPC messages.
- `protocol`: the LSP messages in use and the decoders of their answers
  (goto, document symbols, capabilities, workspace edits, prepare-rename).
- `documents`, `client`: the per-server document mirror and the client's
  decisions (capability gates, readiness watching, version counting).
- `edits`, `rename`: planning text edits and applying a workspace edit whole
  or not at all.
- `registry`, `settings`, `uri`, `paths`: which server serves which language
  and where its program lives.
- `results`, `model`, `session`: the shapes handed to the editor and the
  session's routing, restart policy and status.
- `logs`: which server logs a log directory keeps.

Where the library asks the machine or the editor (the `Probe`, `Files` and
`TextProvider` traits), each question and its answer is recorded in a ghost
transcript; the `*_traced` functions take that transcript and their
contracts say which questions are put, in which order, and what the answers
lead to.

`app/` holds what the library leaves to ordinary Rust: spawning processes,
async plumbing, file and directory I/O, serde types for the frontend.
`tests/` runs the library against concrete inputs.
