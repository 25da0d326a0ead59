# visdom

A html parsing, node selecting and mutation library with a jQuery-like api,
written in Verus: css selectors are parsed and matched, and documents are
queried and changed, by verified code whose contracts state what each call
gives back or changes. The tree that the parser builds of a text and the
text that the renderer writes of a tree are named (`parsed`, `rendered` in
`src/html.rs`), not restated: loading and `set_html` are stated over the
parsed tree, and the html and text functions over what is rendered.

Documents are arenas: `Document` holds every node by position, and a set of
nodes (`Elements`, `Texts`) is a list of positions. Methods that read take
`&Document`, methods that change take `&mut Document`. A selector that does
not parse gives an empty set; `find_catch`, `filter_catch` and
`check_selector` also hand its error to a handler.

- `src/` the verified library; `src/laws.rs` holds properties that relate
  several operations. The html parser and renderer of `rphtml`, its entity
  encoder and the `regex` crate are called through a few trusted wrappers
  (`src/html.rs`, `src/settext.rs`, `src/pattern.rs`, `src/dom.rs`,
  `src/chars.rs`).
- `tests/` the tests, run against the compiled library.
- `app/` a timing program for the selectors, and the library's errors with
  `Display`.
