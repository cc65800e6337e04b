# uu_grep

The decision logic of a GNU-compatible `grep` front end, written in Verus
and proved against its contracts.

## Layout

- `src/shorthand.rs` — the `-NUM` shorthand: `-5` becomes `-C5`, `-a12b`
  becomes `-a -C12 -b`, with option values and everything after `--` left
  alone.
- `src/color.rs` — `GREP_COLOR` / `GREP_COLORS` parsing into a
  `ColorConfig`.
- `src/globset.rs` — `--include` / `--exclude` / `--exclude-dir` globs,
  compiled and matched with the `glob` crate, and the lines of an
  `--exclude-from` file.
- `src/patterns.rs` — collecting patterns from `-e`, `-f` and the first
  operand; the usage checks on them.
- `src/config.rs` — decoding the options into the `Config` that the search
  uses, and the list of inputs.
- `src/modes.rs` — the mode enums.
- `src/text.rs` — byte-level string cutting shared by the above.
- `app/lib.rs` — the clap command line, the files and environment that are
  read, and the hand-over of the plan to the search.
