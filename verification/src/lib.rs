//! A small compiler from a C subset to 64-bit RISC-V assembly.
//!
//! The pipeline is `lexer::lex`, then `parser::parse`, then `sema::analyze`,
//! then `codegen::generate`. Each stage is specified by spec functions over
//! mathematical views of its input and output.
pub mod text;
pub mod lexer;
pub mod ast;
pub mod parser;
pub mod ir;
pub mod sema;
pub mod codegen;
pub mod compiler;
pub mod printer;
pub mod stack_effect;
