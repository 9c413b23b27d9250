# rasc

APK and DEX analysis: a class index, a string listing, a reference search, class lookup, field
layouts and index lookups over every root DEX of an archive, or over a bare DEX file.

- `src/` is the library, verified with Verus. Every function states what it returns, and each
  failure with the inputs it comes on. Left open is only what the decoder decides of a malformed
  deflate stream: which of two errors it gives, and what a prefix of it holds.
  - `zip`, `bytes`, `search`, `text`, `order`, `seqs`: archives, byte and text primitives.
  - `dex`: one DEX file read in place: tables, strings, members, containers, prefixes, code.
  - `apk`: an archive's DEX entries, and each command's walk over them.
  - `rusty_dex`: a whole DEX image decoded into tables, classes, code and annotations.
  - `outline`, `json`, `query`, `cli`, `command`, `skill`: documents, records, queries, arguments,
    payloads, and the bundled skill.
- `app/` is the program around it: arguments, files, standard output.
- `tests/` run the library against the outside crates it calls.

Functions of other crates that the library calls are declared where they are used, each with a
comment that says what is taken on trust. Laws that relate several functions are the public proof
functions named `law_*`.
