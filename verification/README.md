# daw

The core of a desktop data-agent workbench, written in Verus: every
function under `src/` carries a contract that Verus proves.

## Layout

- `src/okf/` — the knowledge base. Frontmatter (`frontmatter.rs`), heading
  blocks and deduplication (`markdown.rs`), storage rules for documents
  (`store.rs`), duplicate detection (`similarity.rs`), the catalog outline,
  summary and search (`catalog.rs`), and the facts behind the
  read-after-write law (`rewrite.rs`).
- `src/okf_files.rs` — the single-file block layout of the knowledge base.
- `src/agent/` — decisions of the agent runtime: error classification and
  diagnosis, retries and back-off, the confirmation step of write tools,
  provider and model selection, leave-request dates.
- `src/chat_log.rs` — how a conversation log is compacted on load.
- `src/image.rs` — images handed over as base64 text (payload and bytes).
- `src/duckdb/` — SQL texts of the analytical engine (attach statements, the
  lake, row caps) and the order in which extensions are loaded and sources
  attached (`steps.rs`).
- `src/usage.rs` — the token estimate that budgets the knowledge outline.
- `src/text.rs`, `src/dates.rs` — text and calendar primitives with their
  specifications.
- `app/` — the application around the library: file system, SQLite, git,
  settings and brand files. It reads and writes what the library decides,
  and keeps the brand defaults a partial `brand.json` falls back to.
- `tests/` — executable tests of the library.

## Laws

Besides the contract of each function, the library proves laws that
relate several operations, for example: a block written into a document
reads back as written (when the heading after it is not deeper); writing
one block leaves the others alone; a frontmatter entry set is the entry read; parsing
serialized frontmatter gives it back; the last line of each message id is
what a conversation log keeps; a write tool runs only after approval when
confirmation is required; retries are bounded and their waits double.
