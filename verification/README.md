# anonit

A data anonymizing tool. It walks a JSON document, gives every path of a
scalar value a producer of fake values (chosen interactively or read from a
configuration file) and writes the document with its values replaced.
Replacements can be kept consistent inside one document (internal mapping)
and across documents (a record of the replacements made for chosen paths).

The library under `src/` is verified with Verus:

- `data/key.rs` — paths of values, their text form and its parser.
- `data/json.rs` — documents, the walk over their scalars, grouping of
  values by path, and the replacement of values (`json_update_data`).
- `data/mapping.rs` — replacement maps and the per-path record.
- `config.rs` — producers by path, output paths, options.
- `fake/` — the producers (UUIDs, names, e-mail addresses, lorem ipsum,
  word lists, numbers) and the registry of producer kinds.
- `json.rs`, `faker.rs` — the walk that collects path items and builds a
  new document, and the kinds of fake values offered per scalar.
- `prompt_utils.rs` — the checks behind the prompts.

`app/` holds the command-line program: argument handling, file I/O,
interactive prompts and the serialized forms of configurations.
