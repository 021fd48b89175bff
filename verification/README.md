# sort_gitignore

Sorts the entries of a `.gitignore` file alphabetically within its sections,
and holds the logic of the editor tooling around it: a language server that
offers the sort as a formatting edit or code action, and a Zed extension
that finds or downloads that server.

Sections are separated by blank lines. Comment lines directly above the
patterns of a section stay on top; a comment between patterns travels with
the pattern below it. Patterns are ordered by their text with surrounding
white space and leading `!` removed, ASCII letters compared without case;
the sort is stable.

## Layout

- `src/`: the library, written in Verus. Every function carries a contract;
  all are verified except four small wrappers around `dashmap::DashMap`
  (`src/documents.rs`), whose contracts are trusted. The laws of the sort
  are proved as proof functions: lines kept, blank lines in place, order,
  stability, final line feed, and sorting twice is sorting once (for line
  lists always; for whole texts, for every text that `sorts_stably`
  admits: a text ending in two empty lines after another line, or with a
  carriage return that a line feed will follow, is not).
  The language server's answers after any run of opens, changes and closes
  are proved too, and so are the steps of the binary lookup (a release
  without an asset for the platform falls back to the binary on `PATH`).
- `app/`: the programs around it: `main.rs` is the language server (LSP
  over stdin/stdout, built on `tower-lsp`); `extension.rs` is the Zed
  extension glue (host calls and file system access). Both are in one
  crate here; the extension is meant to be built on its own for the
  `wasm32-wasip1` target.
- `tests/`: tests of the library.
