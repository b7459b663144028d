//! Front end of the uff scripting language, with its proofs.
//!
//! A source is read line by line. The tokenizer ([`lexer`]) searches each
//! line with the patterns of the language ([`patterns`]) and gives an
//! ordered stream of tokens; [`stream`] proves what holds of every such
//! stream. The parser ([`parser`]) turns the tokens of a line into one
//! statement ([`ast`]) or one syntax error, and the program builder
//! ([`builder`]) does so for a whole source. Lowering ([`codegen`]) turns
//! statements into instructions for a backend and keeps the symbol table;
//! [`machine`] says what these instructions mean. The driver ([`compiler`])
//! puts the steps together.
//!
//! Matching is done by the `regex` crate. Floating-point numbers are kept as
//! the text of their literals.

pub mod ast;
pub mod builder;
pub mod codegen;
pub mod compiler;
pub mod lexer;
pub mod machine;
pub mod parser;
pub mod patterns;
pub mod stream;
pub mod text;
