//! A parser for serialized block markup: HTML in which comments of the form
//! `<!-- wp:name {"json": "attributes"} -->` ... `<!-- /wp:name -->` (or the
//! void form `<!-- wp:name /-->`) delimit named blocks, which may nest.

pub mod grammar;
pub mod json;
pub mod laws;
pub mod lexer;
pub mod parser;
pub mod text;
pub mod types;

pub use parser::{block_list, block_list_inner, parse_blocks_internal};
pub use types::Block;
