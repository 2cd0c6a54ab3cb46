# Qingluan 青鸾

Agent task platform: a local daemon, the `qingluan` CLI and a desktop shell.
The decisions they make are a library verified with Verus; the programs
around it only read, write and talk to the network.

## Layout

- `src/` — the verified library.
  - `time`, `calendar`: UTC ISO-8601 timestamps to epoch milliseconds and
    back; formatting then parsing gives the same instant.
  - `sessions`: Pi session files, given line by line as a small model of
    their JSON entries: header validation, title, message count and the
    modified-time fallback chain.
  - `workspace`: `jj workspace list` output and its errors.
  - `paths`: lexical path normalization used to associate sessions with
    workspaces.
  - `catalog`: the workspace/session catalog; sessions go to the first
    workspace with the same key, never to another one, most recent first.
  - `cli`: selector labels (unique), human-readable listing, task requests
    and the machine-readable error payload.
  - `protocol`, `daemon`, `sandbox`: messages and responses of the daemon
    and the parts of the sandbox providers that decide.
  - `text`, `json`: strings, decimal numbers and JSON text through
    `serde_json`.
- `tests/` — tests of the library on concrete values.
- `app/` — the `qingluan` binary (also `qingluan-daemon` when invoked under
  that name): argument parsing, filesystem scans, `jj` and `pi` processes,
  HTTP, and JSON decoding of session lines.
