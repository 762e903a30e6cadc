# dlog

An agent-first decision log that sits alongside Git. Git records what changed; dlog records
the decisions behind it: the rationale, the rejected alternatives, the invariants and the
original instruction. The unit of record is a decision, not a commit.

The library in `src/` is verified with Verus: every function states what it returns or
changes, and Verus proves it. The program in `app/` is ordinary Rust around it: the command
line, JSON, git, files and the SQLite database on disk.

## Layout

- `text`, `paths`, `table`: text as sequences of characters, lexical paths, rows in ascending
  order of a unique key.
- `model`, `log`: the domain types with their ghost views; the log as a value, and what each
  write makes of it.
- `store`: the tables in memory, every query and every write. Writes are noted, and the noted
  writes are what the program carries out on disk.
- `laws`: what holds of the log whatever is done to it: append-only, idempotent and
  order-independent import.
- `ids`, `fts`, `syntax`: ULIDs, full-text search through SQLite's FTS5, syntax trees through
  tree-sitter. What is trusted of those crates is stated on the functions that call them.
- `anchor`, `structural`, `resolve`: definitions observed in source text, what their
  structural hash does not see, and how a query is matched against recorded anchors.
- `commands`: what each subcommand decides, from plain values to plain values.

## Concepts

- **Staging and seal.** A decision is recorded into staging and sealed later, to a commit or to
  none. A sealed decision never changes; a reversed one is superseded by a new one.
- **Task.** Finishing a task seals exactly that task's decisions.
- **Anchors.** Decisions anchor to named definitions. Identity is judged at query time, as
  `exact`, `drifted`, `relocated` or `file_fallback`.
- **Budget.** Lists are bounded by a number of characters, and report what they leave out.
