# vlsp

The core of a language server for delimited data files (tab-separated tables with a header
row), written and proved in Verus.

A schema describes the columns of each file: their descriptions, their types, and which
column of which file a reference points at. The server validates documents against it,
shows column descriptions on hover, and finds the cell that defines a referenced value.

- `src/` is the verified library.
  - `text`, `number`, `paths`: text primitives, numbers as text, file names and URIs.
  - `description`: schema descriptions as Markdown.
  - `schema`: the schema, the search for a column's definition, reference targets.
  - `document`: parsing a data file, and what stands at a position.
  - `symbols`: where the values that references may name are defined.
  - `diagnostics`: validation of a document.
  - `workspace`, `navigation`: the state behind the server, hover and go-to-definition.
  - `report`: the one-shot check of a directory.
  - `loader`, `settings`, `messages`: script order, settings, messages to the client.
- `tests/` runs the library on concrete values.
- `app/` is the program around it: command line, configuration, file access, the protocol,
  and the JavaScript engine that evaluates schema scripts.

Each module states its contracts over mathematical views of its types; the proof functions
named `law_*` state what holds across functions.
