# toml_edit

A format-preserving TOML library, written in Verus: documents are parsed into
tables that keep their whitespace, comments and the way each value was
written, can be edited, and are written back.

Layout:

- `src/parser/`: the TOML grammar as functions on characters, each proved to
  match a spec function that reads the same text (`stmt_at`, `value_at`,
  `string_at`, `integer_at`, `date_time_at`, ...), and the document builder
  `TomlParser`, whose `parse` states what it builds and, for plain documents,
  that writing the result gives back the text.
- `src/value.rs`, `src/array.rs`, `src/inline_table.rs`, `src/table.rs`,
  `src/array_of_tables.rs`, `src/document.rs`, `src/index.rs`, `src/sort.rs`:
  the data model (each type with a view into `TomlValue` / `TomlItem` /
  `TomlTable`) and its editing operations.
- `src/display.rs`, `src/encode.rs`, `src/string.rs`, `src/integer.rs`,
  `src/datetime.rs`, `src/key.rs`, `src/write.rs`: writing TOML text.
- `src/roundtrip.rs`: what is written reads back (integers, keys, strings,
  date-times).
- `app/`: what stays outside the verified library (floating point values,
  byte input, `Display` wrappers).
- `tests/`: the test suite.
