# fmt_rs

A small, dependency-free formatter for shell commands, written in Rust and
verified with Verus. It pretty-prints commands so that they are easy to review
before they run.

```text
cd /repo&&npm ci&&npm run build&&npm test
```

becomes, at a width of 20 columns,

```text
cd /repo &&
  npm ci &&
  npm run build &&
  npm test
```

## Layout

- `src/` is the verified library: lexer, parser, syntax tree, printer, layout
  engine, JSON reader and writer, and the entry points in `format.rs`. Every
  function has a contract over mathematical forms of its arguments.
- `tests/` runs the library on concrete commands.
- `app/` is the command-line front end: it reads a command, or with `--hook` a
  hook payload, on standard input and writes the result to standard output.
  `FMTRS_WIDTH` sets the target width.

## What is proved

- Tokenizing loses nothing: token slices and the gaps around them rebuild the
  source, only blanks lie in the gaps, and the bodies of here-documents are
  skipped where they stand (`lexer.rs`).
- A group lies flat if it fits and breaks if it does not; a hard line breaks
  every group around it (`doc.rs`). Every layout is one of the renderings of its
  document (`render.rs`).
- The formatter never alters a word, never empties a command, and returns
  whatever it is not sure of unchanged: here-documents, wherever they stand, and
  commands that it does not support, wherever a command can stand (`format.rs`,
  `untouched.rs`).
- What it prints parses into the tree that it was printed from, so formatting
  twice is formatting once, for every command and width (`idempotence.rs`).
- Source positions play no part in printing (`positions.rs`).
- A hook response is a JSON document that asks about exactly the formatted
  command (`format.rs`, `json.rs`).

Three functions of the standard library are specified by hand and trusted:
`String::push`, `Rc::clone` and `char::from_u32`.
