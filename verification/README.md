# jsonl_peek

Single-pass profiling of newline-delimited JSON, verified with Verus.

* `Stats::from_reader` counts lines, records, top level keys, line lengths and
  the values of chosen field paths.
* `Schema::from_reader` walks the shape of every record and lists the paths it
  finds, how many records have them and with which types.
* `FieldPath` is the selector syntax: `meta.source`, `messages[0].role`,
  `messages[].role`.

`src/` is the verified library. Every pass is specified by what it finds in a
sequence of lines (`summary.rs`, `walk.rs`); `laws.rs`, `depth.rs`,
`agreement.rs`, `spelling.rs` and `roundtrip.rs` state what holds whatever the
input. Rates and means are exact quotients, and a report keeps them as figures
among its text. A number that is no `i64` is kept by its decimal normal form, so
that equal numbers are one value however they are written.

`app/` is the plain Rust around it: it streams lines from a reader, rounds such
numbers to floating point, prints the figures with one decimal place, and
applies a floating point threshold.

`tests/` runs the library from outside.
