# yaiwr

A small calculator language: integers, booleans, `+`, `*`, `<`, `>`,
variables (`let`), `println`, and functions (`fun`, `return`, calls).
Programs are lexed and parsed, compiled to a stack bytecode, and run by an
interpreter whose behaviour is specified and verified with Verus.

Layout of `src/`:

- `lexer.rs`, `parser.rs`, `grammar.rs` — tokens, the parser, and the
  grammar as derivations; the parser returns exactly the statements the
  tokens derive.
- `ast.rs`, `bytecode.rs` — syntax trees and their compilation.
- `instruction.rs`, `error.rs`, `semantics.rs` — the bytecode, errors, and
  the definitional interpreter the executable one is proved to follow.
- `scope.rs` — nested variable scopes.
- `calc.rs` — the interpreter, and evaluation of `;`-separated lines.
- `lines.rs`, `text.rs`, `display.rs` — splitting program files into lines,
  and the text of values, instructions and errors.

`app/` holds the command-line program: it reads a `.yaiwr` file, an
argument, or lines typed at a prompt, and prints what the library returns.
