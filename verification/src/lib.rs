//! Locates, in a raw sequence of command-line tokens, the byte spans that an
//! occurrence of a named parameter takes up: its leading hyphens, its name,
//! its delimiter and its value.

pub mod alias;
pub mod index;
pub mod laws;
pub mod lex;
pub mod mapper;
pub mod offsets;
pub mod order;
pub mod parse;
pub mod raw;
pub mod scan;
pub mod schema;
pub mod table;
pub mod text;
