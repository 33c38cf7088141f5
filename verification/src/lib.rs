//! The ARCTURUS toolchain: the ARC compiler stages, the AVM assembler and
//! disassembler, and the AVM interpreter.
pub mod assembler;
pub mod basic_vm;
pub mod bytecode;
pub mod define;
pub mod disassembler;
pub mod encoding;
pub mod lexer;
pub mod number;
pub mod parser;
pub mod pipeline;
pub mod preproc;
pub mod round_trip;
pub mod serializer;
pub mod table;
pub mod text;
pub mod vm;
