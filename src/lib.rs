//! An interactive command shell: a lexer and parser that turn a line of text
//! into pipelines, and the decisions that drive their execution.
pub mod error;
pub mod text;
pub mod parser;
pub mod shell;
pub mod executor;
pub mod completer;
