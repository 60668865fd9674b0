# lab

The verified core of a knowledge-base linter: notes are markdown files with
YAML frontmatter, checked against a schema that is data rather than code.

- `src/schema.rs` — the schema's fields, rules and sections, and `validate`.
- `src/note.rs` — splitting a note into frontmatter and body, and loading it.
- `src/links.rs` — masking code spans and fenced blocks, and finding
  `[[wiki-links]]` with their file line numbers.
- `src/fields.rs` — checking frontmatter values against the schema's fields.
- `src/lint.rs` — a whole run: every note against every rule, sorted by path
  and line.
- `src/order.rs`, `src/text.rs`, `src/date.rs`, `src/yaml.rs` — path order,
  character-level helpers, calendar dates and frontmatter values.
- `app/` — the `kb lint` command: reading the schema file, walking the source,
  reading notes, and printing the report.

YAML parsing (`serde_yaml_ng`), date parsing and arithmetic (`jiff`) and the
link pattern (`regex`) are called from the library through small trusted
wrappers whose contracts are stated in their doc comments.
