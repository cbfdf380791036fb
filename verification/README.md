# traduz

A library for translating the prose of LaTeX course material while keeping
every formula, command and environment intact, verified with Verus.

- `src/parser/`: the scanner that splits a source into editable prose and
  protected LaTeX, the segmenter that turns the pieces into translation
  segments with `{{KIND_n}}` tokens, and the reconstruction that puts the
  LaTeX back; `coverage.rs` proves that the pieces of every successful scan
  join back to the source, and `roundtrip.rs` that, without translation,
  every segment rebuilds to exactly the bytes of the source it spans,
  wherever the source holds no text shaped like a token (`{{NAME_123}}`),
  which the rebuild would take for one.
- `src/export.rs`: rebuilding a stored file with its finished translations;
  with none finished, an imported file comes back byte for byte.
- `src/reader.rs`, `src/activities.rs`, `src/ximera.rs`: what the reader
  shows of a translated activity.
- `src/importer.rs`, `src/layout.rs`: the decisions of an import — parsing and
  checking files, carrying translations over, ordering files and chapters.
- `src/forms.rs`, `src/store.rs`: what the forms send and what the store's
  rows become.
- `app/`: the web translator and the import and export commands, with the
  SQLite store, the HTTP routes and the Ximera compiler run.
