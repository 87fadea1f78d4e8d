# yaml_gear

A small YAML reader and writer whose core is verified with Verus.

- `src/lexer/` turns text into tokens (`Lexer::new`, `tokenize`, `next`);
  `model.rs` states what each step yields.
- `src/parser/` reads values from the tokens (`parse`, `parse_all`);
  `model.rs` states the grammar as recursive functions over the token sequence.
- `src/scalar.rs` decides what a plain scalar stands for (null, boolean,
  integer, floating-point text, string).
- `src/emitter/` writes values as YAML text (`stringify`, `serialize`).
- `src/laws.rs` proves properties that span these parts: the shape and
  positions of tokens, the limits on nesting, what errors can say, that blank
  text reads as null, and which written values read back as themselves. Those
  are null, booleans and integers; strings on one line that must be quoted;
  plain words that read as strings; sequences of such values; and mappings of
  such values whose keys are distinct plain words in JavaScript key order.
  Other values (floating-point text, strings that span lines, nested
  collections) are not claimed to read back.
- `app/` is the JavaScript interface built with `wasm-bindgen`: it converts
  between JavaScript values and the library's `YamlValue`.
