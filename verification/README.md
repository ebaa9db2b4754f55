# Shiori

Shiori is a search workbench for flashcard decks and study materials. It imports `.apkg` decks,
reads uploaded documents, indexes everything in Qdrant, searches cards by terms and by nearness, and
exports a selection as a new deck.

The logic is a Verus library under `src/`: every function states what it returns, and Verus proves
it of all but the trusted items, whose contracts it believes. Those are the declarations marked
`external_body`, `external_type_specification` and `assume_specification`: thin wrappers around
`ammonia`, `html2text`, `sha2`, `chrono`, `sanitize_filename`, `serde_json` and `genanki_rs`, and
around functions of the standard library. A comment above each says what is claimed of the code behind it.

Some markup is refused rather than laid out: lists that start at a number near the limit of 64 bits,
tables that span more columns than can be counted, and nesting deeper than a line is wide. Where the
layout could not split a long word with emoji in it, it is given other characters of no width in
place of the emoji selectors, which are put back afterwards.

- `chars`, `strings`, `numbers`: text as sequences of characters
- `text`, `markup`: markup to plain text, chunks, digests, sentences; which markup can be laid out
- `order`, `scroll`: stable ranking, reading page by page
- `models`, `db`, `detail`, `lexical`: records, what is asked of the store, what the pages show
- `paths`, `deck`, `media`, `material`: reading archives, decks, their media, and materials
- `query`, `candidates`, `search`: the query of a search, its candidates, and its run step by step
- `external`, `shim`, `rerank`: answers of the index, and the ranking service in front of a language
  model, step by step
- `export`, `config`, `routes`, `json`: decks for export, settings, forms, JSON texts

Scores are kept as integer keys that order as the scores do. `app/` is the program around the
library: HTTP, files, the vector database and floating-point arithmetic.

- `shiori` serves the application
- `shiori tei-shim` serves the embedding and ranking service in front of Ollama
- `shiori make-fixture [path]` writes the example deck

`tests/` runs the library.
