# snipx_core

A verified library for SnipX, a text annotation language. SnipX statements
(`[Alice] friend [Bob].`) live in their own files (commentaria), in `///`
comment lines and fences of host files (marginalia), or in `{{ ... }}` blocks
inside prose (intralinea). The library parses them into a lossless tree,
expands them into facts, resolves snippets against a target's visible text,
lints fragile anchors, formats sources, and builds the canonical JSON
document.

Every function in `src/` is checked by Verus against its `requires` and
`ensures`. Calls into pulldown-cmark (Markdown events) and
unicode-normalization (NFC) go through small trusted wrappers in
`src/visible_text.rs`, whose contracts name what those crates compute.

## Layout

- `src/text.rs`, `src/scan.rs`, `src/number.rs`: characters, UTF-8 offsets,
  the scanners the parser relies on, number literals.
- `src/syntax.rs`, `src/tree.rs`: syntax kinds and the event tree that the
  parser builds, with its queries.
- `src/parser.rs`: the parser for the three input forms.
- `src/ast.rs`, `src/directives.rs`, `src/snippet.rs`: typed views of nodes,
  header directives, snippet values.
- `src/expand.rs`, `src/resolve.rs`, `src/matching.rs`, `src/fragility.rs`:
  facts, snippet resolution and matching, the fragility lint.
- `src/visible_text.rs`, `src/format.rs`, `src/json.rs`, `src/cli.rs`: visible
  text of targets, the formatter, the JSON document, the command line's
  decisions.
- `app/`: the `snipx` command (argument handling, files, JSON output).
- `tests/`: tests of the library on concrete sources.

## What the contracts fix

- Parsing (`parse`, `parsed_from`): the tokens spell the source and the
  root spans all of it; the warnings are exactly those of unclosed
  marginalia fences; the unterminated-block error comes exactly for the
  first unclosed intralinea block. Below the root, the parser's functions
  state which node each construct opens (statement, subject, decoration,
  snippet, string, URI, number, name, error, predicate, object list,
  quantifier), the flags a value or a predicate yields, and exactly where
  each construct ends: strings, captures, URIs, backtick chunks, numbers,
  snippets with their quantifiers, values, decorations, object lists,
  predicate chains and whole statements (`statement_end`). What is not
  stated is the grammar as a whole: the complete tree and the complete list
  of parse errors that a given source gets.
- Everything after parsing is stated exactly over the tree: expansion into
  facts and errors, resolution, snippet matching, the fragility lint, the
  visible text of targets, formatting (`format_tree`), the ambient subject
  of a parse and the document's facts, resolutions and profile. `format`,
  `parse_ambient` and `export_json` are stated over the parse that `parse`
  gives, as far as `parsed_from` describes it.
