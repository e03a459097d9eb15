# reading_log

A command-line log of the books being read: each reading keeps its
bookmarks (the page reached, and when), earlier bookmark runs put aside by a
reset, and the statistics drawn from them.

- `src/` is the library, verified with Verus: the records (`structs`), the
  command language (`parser`, `commands`, `text`), the state machine that
  applies actions to the readings and says what to show (`readings`,
  `stores`), the listings and statistics (`views`), and the laws that hold
  across actions (`laws`). `clock` and `chance` hold the calls into `chrono`
  and `rand`.
- `app/` is the program around it: the prompt loop, the store file (JSON via
  `serde_json`), and the printing (colours via `colored`, dates via `chrono`).
- `tests/` runs the library on concrete values.
