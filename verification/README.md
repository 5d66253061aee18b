# pandia

The document core of a JSON editor, written in Verus. Every function in
`src/` is checked by Verus against its contract, except the small trusted
wrappers around calls into `serde_json`, `sonic-rs` and `std` (see below),
whose contracts are taken on trust.

## Modules

- `format` — recovery of JSON dialects that strict parsing refuses: leading
  invisible characters, quoted documents, NDJSON / JSON Lines (`format::spans`),
  JSONC / JSON5 (`format::relaxed`, with number rewriting in `format::number`),
  and the dialect a file extension announces.
- `scan` — the structural scan behind large documents: the root's kind, the
  byte range of every element of an array root, and `LazyDoc`, a document
  kept as source text.
- `search` — the places a search of a large document looks at (member
  keys and string values, in the depth-first order of `sonic-rs`'s
  iterators, with their paths), the
  first hits among them up to a cap, and the one-line previews of values.
- `lookup` — values of a large document found by path: `sonic-rs` resolves
  the path (inside the element the root index gives, for a path into a
  root array); their kind, child count, children in a window and tree;
  `Document` reads values, children and rows by path the same way.
- `window` — the children of a collection in a window of positions, found by
  scanning, and the previews of collections.
- `document` — size limits, the record of an open document (paths, versions,
  dirty state), and `Document`: opening text with dialect recovery, summary,
  serialization (JSON or NDJSON) and saving.
- `diagnose` — a plain-language explanation of why a text is not JSON, with
  an excerpt and a caret on the failing character.
- `tree` — JSON trees as `serde_json` builds them, known by the text they
  were parsed from.
- `rows` — array rows as the grid view receives them.
- `grid` — the rows the grid view shows: those that pass the column filters
  and the quick filter, stably ordered by a sort column, windowed; and the
  quick-filter text of a member across a lazily read array.
- `menu` — the entries of the "Open Recent" submenu.
- `json`, `text` — the strict JSON check and character helpers.

## Trusted boundary

Calls into `serde_json`, `sonic-rs` and a few `std` functions stand behind
`#[verifier::external_body]` wrappers. Each wrapper's contract either states
what the documentation gives (as for `serde_json`'s string quoting and
`Path::extension`) or ties the result to its arguments through an
uninterpreted spec function (`json_parse`, `value_parse_error`, `tree_kind`,
`tree_len`, `tree_pretty`, `tree_compact`, `tree_element_compact`,
`sonic_parse`, `sonic_value`, `sonic_lookup`, `sonic_elements`, `sonic_members`,
`array_items`, `object_items`, `sonic_string`, `sonic_member`,
`serde_string`, `char_debug`, `unicode_alphabetic`, `unicode_alphanumeric`,
`unicode_lowercase`). A `Tree` is known by the text it was parsed from;
copying one (`Value::clone`) keeps that text.

## Layout

- `src/` — the verified library.
- `tests/` — tests run against the compiled library.
- `app/` — a command-line front end that opens the files it is given and
  prints their summaries or diagnoses.
