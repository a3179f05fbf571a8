//! Core of a small browser engine: an HTML tokenizer, a tree constructor driven
//! by insertion modes, and the arena-backed document tree they build.
//!
//! Every executable function carries a contract over a mathematical view of
//! its data: a document is a sequence of node records, the tokenizer is a
//! position in a character sequence plus a scanning state, and the parser is
//! the pair of both together with the stack of open elements.

pub mod text;
pub mod dom;
pub mod token;
pub mod parser;
pub mod http;
