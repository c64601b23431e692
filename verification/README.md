# neomark

A markup language in which everything is a block, compiled to HTML, with its
parser, expander and renderer verified by Verus.

* `src/parse` splits a document into natural blocks and `::name params:` call
  blocks (bodies delimited by indentation, dedented and parsed again) and plants
  them, unexpanded, in a tree kept in an `indextree` arena (`src/ast`).
* `src/inline` turns text into inline nodes: emphasis, code, math, entities,
  shortcodes, links and typographic punctuation.
* `src/dispatch` hands each unexpanded block to the expander a `Registry` names
  for it (exact names, then regular-expression patterns, then the fallback);
  `src/handlers` and `src/stdlib` hold the built-in expanders.
* `src/html` writes the tree out, escaped, as a fragment or a whole page.
* `app/main.rs` is the command-line program around the library.

Contracts are stated over spec models. The dispatcher's run is stated only in
part, since what it does depends on expanders its users write: among the
properties proved:

* a completed dispatch leaves no block under the document unexpanded, and
  dispatching a fully expanded tree changes nothing;
* each block goes to the expander the registry names for it (its exact name,
  else the last pattern that matches it, with the capture groups; the
  natural-block expander for a natural block; else the fallback), and what
  that expander returns is what takes the block's place;
* with no expander registered, every top-level block of a tree, a call block
  with its body under it, gives its place, in order, to an error node that holds
  its source, every other top-level node keeps its place, and the run succeeds;
  a parsed document has only blocks at its top level. This is proved when the
  nodes under the document number at most half of `usize::MAX`, the budget of
  the walk, or, for a tree with only blocks at its top level, when the blocks
  alone do;
* what an expander returns is put in the place of the block it expanded, in
  order, and placing fails exactly when one of the returned nodes does not exist;
* every expander of the library touches only the block it expands and its
  children;
* the parser, the inline scanner and the renderer give exactly what their spec
  functions define, and every span the parser records cuts the input between
  characters;
* a text whose line breaks mix `\n` and `\r\n` parses into the same blocks as
  with `\n` alone, byte offsets aside;
* the lines a text is cut into are its runs between line breaks, numbered from
  1; every natural block, at every depth, is a run of lines neither blank nor
  call headers, and white space alone gives no block;
* pairing delimiters keeps every text of the inline layer, in order, and
  accounts for every delimiter character;
* escaped text and attributes hold no markup characters.

The calls into `indextree`, `regex` and the few functions of `std` that vstd
does not describe are the trusted base: each is a small wrapper (in
`src/ast/arena.rs`, `src/dispatch/key.rs`, `src/text.rs` and `src/ast/span.rs`)
whose contract states what the called code does.
