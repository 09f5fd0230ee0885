# typeset

Tokenization and parsing of a small markup language into syntax trees, verified
with Verus.

A text is cut at its Unicode word boundaries. The tokenizer turns the words into
tokens, the parser turns the tokens into a syntax tree. `[name]` invokes a
function, `[name][body]` invokes it with a body. Functions are found in a scope,
and each parses its own body, by `parse_body` if it likes. A function that does so
is ordinary Rust: Verus refuses an implementation of `Function` that calls the
parser, which calls it, as a cyclic definition. What is proved of parsed bodies
holds of such a function as far as it keeps to the contract of `Function::parse`.

- `src/text.rs`: characters and words
- `src/syntax.rs`: tokens and syntax trees
- `src/tokens.rs`: the tokenizer; `tokenize` says what the tokens of a text are
- `src/stream.rs`: token streams, lookahead and function bodies
- `src/func.rs`: functions and scopes
- `src/parsing.rs`: the parser; `parse_items` says what parsing comes to, and
  `parse_reads` how much of the tokens it takes
- `src/token_laws.rs`, `src/stream_laws.rs`, `src/parse_laws.rs`: what holds of
  every text
- `app/lib.rs`: standard traits around the library

Not proved, and so taken on trust, are the word boundaries of
`unicode-segmentation`, two character tables of the standard library, and that a
function keeps to its contract: it returns what it says it may return, and does no
more to its body than to read from it.
