# typdiff

A diff tool for [Typst](https://typst.app/) documents, verified with Verus.
It compares two Typst sources and produces a Typst document in which added
text is marked with `#diff-added[...]` and deleted text with
`#diff-deleted[...]`.

## Layout

- `src/lib.rs` — block types, their signatures and texts, and
  `diff_sources`, the whole pipeline from two sources to diff markup.
- `src/parse.rs` — grouping the top-level expressions that `typst-syntax`
  parses into blocks (headings, paragraphs, list, enum and term items, raw
  blocks, equations, code).
- `src/diff.rs` — block-level alignment (Patience diff of block signatures
  through `similar`) and the similarity-based pairing of replaced blocks.
- `src/words.rs`, `src/tokens.rs` — word-level diff of paired blocks over a
  tokenizer that keeps Typst code, references and labels whole.
- `src/render.rs` — rendering the results as Typst markup, with escaping.
- `src/ops.rs`, `src/label.rs`, `src/text.rs` — edit scripts from `similar`,
  Typst labels, and character-level helpers.
- `app/main.rs` — the command-line program (`typdiff OLD NEW [-o OUTPUT]`).

Every function in `src/` carries a contract that Verus checks; the calls
into `similar`, `typst-syntax` and a few std functions are trusted wrappers
whose contracts are documented where they are declared.
