# block_parser_wasm

A parser for serialized block markup: HTML in which comments such as
`<!-- wp:name {"key": "value"} -->` ... `<!-- /wp:name -->`, or the void form
`<!-- wp:name /-->`, delimit named blocks that may nest. Text outside any block
comes out as free-form blocks; a missing closer is tolerated; attribute text that
is not JSON gives null attributes.

The library is written in Verus and verified:

- `src/grammar.rs` states the grammar as parsing expressions over the characters
  of the markup, and `parse_document`, what parsing a document gives.
- `src/lexer.rs` and `src/parser.rs` implement it; each rule's function is
  proved to give what the grammar says, and `parse_blocks_internal` to give
  `parse_document` of its input.
- `src/laws.rs` proves properties of the parser as a whole: every parsed
  block is well formed (content, placeholders, non-empty and non-adjacent
  texts, named inner blocks, namespaced names), blank documents give no
  blocks, surrounding whitespace is ignored; a void block and an empty
  balanced block give the same document for every name, with or without an
  attribute text (one that the grammar reads to its closing brace), and a
  block missing its closer gives the same document as the closed form for
  every name and well-formed content (texts without `<`, void blocks and
  closed blocks without attributes, at any depth). General forms of both
  laws hold wherever the opener and the content read alike in both texts.
- `src/json.rs` holds the calls into `serde_json` that read attribute text.
- `app/` is the command-line driver and the JSON serialization of blocks, in
  which free-form blocks are named `core/freeform` (`Block::name_or_freeform`).
