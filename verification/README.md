# banto

An append-only, hash-chained, evidence-carrying event ledger with a
command-line front end (`banto`), whose core is verified with Verus.

Every event is a JSON envelope written as one canonical line of a JSONL
file. Its `id` is the SHA-256 of its canonical form without the `id`, and
its `prev` names the id of the event before it, so any edit, deletion,
duplication or reordering of lines shows up in `verify`.

## Layout

- `src/` — the verified library (`banto_kernel`):
  - `json.rs` — the JSON value the envelopes carry, its canonical text, and
    reading JSON through `serde_json`;
  - `hash.rs` — SHA-256 as lowercase hex, of bytes at once or fed in
    chunks (`sha2`, `hex`);
  - `time.rs` — RFC 3339 timestamps and day counts (`chrono`);
  - `event.rs` — the envelope: building it, its id, its line, reading a
    line back and the structural rules it must follow;
  - `ledger.rs` — the ledger file: reading its events, what an append adds,
    the full `verify`, and the laws that tie them together;
  - `fold.rs` — loops, the morning brief and the health bells;
  - `config.rs` — the workspace and `banto.toml` (`toml`);
  - `commands.rs` — what each command appends or why it refuses, and the
    report of `gate check`;
  - `render.rs` — the texts and JSON values the views print.
- `app/` — the `banto` program: arguments (`clap`), files, the lock,
  and hashing evidence files as they are read.
- `tests/` — the library's tests, on in-memory ledger text.

The library never touches the file system: callers hand it the text of the
ledger file and what they found at evidence paths, and write back the text
an append returns.
