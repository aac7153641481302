# irc_tui

A terminal IRC client with a small scripting language for chat commands.

- `src/` is the library: the scripting language (reading and running
  commands, aliases, `if` and `load`), IRC protocol lines and connections,
  word wrap, and the state of the screen. It is written in Verus, and every
  function is proved to meet its contract. The modules whose names end in
  `_laws` prove what holds of the others as a whole.
- `app/` is the program round it: the terminal, the network and the file
  system.
- `tests/` runs the library on concrete values.

What the proofs rest on besides the verifier: that `String::push` appends a
character (`src/text.rs`), and that the text in which `pest` shows an error
depends on nothing but the script, the place and the message, and gives the
line, the column and a caret at the place (`src/parser.rs`).
