//! A small desktop search engine: documents are split into terms by a
//! lexer, normalised by a term processor, counted into a term-frequency
//! model, and searched by ranking functions built on that model.
pub mod text;
pub mod index;
pub mod search;
pub mod command;
