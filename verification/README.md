# arcturus

The ARCTURUS toolchain as a verified library: the ARC compiler stages
(preprocessor, lexer, parser, serializer), the AVM assembler and
disassembler, and the AVM interpreter. Every function in `src/` carries a
contract that Verus proves, except two trusted wrappers in `src/text.rs`:
`is_numeric` and `is_alphabetic` call std's `char::is_numeric` and
`char::is_alphabetic`, and their contracts are taken on trust. `app/`
holds the command-line tools around the library.

## Layout

- `src/text.rs`, `src/number.rs`, `src/encoding.rs` — lines, words, decimal
  numbers and UTF-8, as `str` and `char` handle them.
- `src/preproc.rs` — `%scope` directives and the exit block.
- `src/define.rs` — `%define` directives and the compiler's lexing stage
  (`lex_stage`): the substitution table is built from the whole source, and
  every identifier of the token stream that it names is replaced, wherever
  the directive stands in the text; the end marker `HYD_EOF` is added
  after substitution and never replaced.
- `src/lexer.rs` — the character-by-character lexer, with `#` comments
  (`lex`) or backslash comments (`lex_backslash`).
- `src/parser.rs`, `src/serializer.rs` — tokens to the flat node list, and
  the node list to AVM assembly text.
- `src/bytecode.rs`, `src/assembler.rs`, `src/disassembler.rs` — the
  instruction set, assembly text to bytecode, and bytecode back to text.
- `src/table.rs`, `src/vm.rs`, `src/basic_vm.rs` — the interpreter: one
  `step` at a time; printing, reading a line and reading or writing a float
  are handed to the caller and resumed with `resume_*`.
- `src/round_trip.rs` — disassembled bytecode, listed and assembled again,
  is the same bytecode.
- `src/pipeline.rs` — what the serializer writes, the compiler's assembler
  reads as the instructions of the nodes.
- `tests/` — scenarios on concrete programs.
- `app/` — the tools: `hydrae` and `Hydrae` (compilers), `muphrid` and
  `muphrid-basic` (interpreters), `spica` and `assembler`.

## Floats

The library never computes with floating point: a float literal keeps its
text, a float value is its IEEE 754 bit pattern, and the tools read and
write floats where the library asks for them.
