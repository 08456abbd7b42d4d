//! A small Unix shell: tokenizer, command parser and the decisions that the
//! interactive front end acts on, each stated by its contract.

pub mod text;
pub mod tokenizer;
pub mod parser;
pub mod builtins;
pub mod executor;
pub mod completer;
