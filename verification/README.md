# yamlito

A lossless YAML library: a lexer, a parser whose tree keeps every byte of its
input, typed views of the tree, edits that leave the rest of a text alone, and
passes that fix indentation, quotes and trailing whitespace. The code under
`src/` is verified with Verus.

- `src/lexer.rs`, `src/grammar.rs`, `src/parser/`: text to tree. `grammar` says
  which tree a text has; the parser is proved to build it.
- `src/syntax/`: trees, on top of rowan's green nodes.
- `src/ast/`: mappings, sequences, scalars, comments.
- `src/edit/`, `src/fixers/`, `src/builder.rs`: changing and making trees.
- `src/scripting/`: what scripts do with a tree.
- `src/laws/`: what holds of the library as a whole. A value that was written is
  read back. A scalar that was written plain is scanned back whole, and escapes
  are undone. An entry that was put in can be read, and taking it out of a tree
  that was parsed gives the tree back. Comments are read as they were set. Places
  outlast edits of tokens. Trimming leaves nothing to trim, and counts what it
  does. The fixes of scalars and of line ends, done twice, are the fixes done once.
  That of indentation is so where an entry has at most one block on a line and each
  entry on a line of its own has its indentation in it:
  `laws::indenting::is_regular`.
- `app/`: scripts in Rhai, files, serde.
