# loxcraft

Language tooling for Lox, verified with Verus.

- `src/` is the library, verified with Verus: the lexer and
  parser, the resolver and the tree-walking interpreter (`interpreter`), the
  bytecode compiler, the chunk and its disassembler (`debug`), the garbage
  collector (`gc`) and the virtual machine (`vm`), what compiled code of
  simple expressions computes when the machine runs it (`semantics`), and
  the pieces of the
  playground that compute: colored HTML output (`html`) and media types
  (`playground`). The calls into `hashbrown`, `arrayvec`, `askama_escape`
  and a few std functions are behind trusted wrappers, whose contracts state
  what those libraries document; everything else is proved.
- The arithmetic of doubles, the clock and output are the embedding
  program's: the library reaches them through the `Host` trait and carries
  numbers as the bits of a double.
- `app/` is the `loxcraft` command around it: running scripts, the REPL, the
  language server, the playground server and the WebAssembly engine.
- `tests/` exercises the library from outside.
