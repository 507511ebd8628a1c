//! Front end of the helix language: indentation-structured source text is
//! segmented into a block tree, scanned into tokens, flattened into one token
//! stream with nested-block tokens, and parsed into an abstract syntax tree.
//!
//! - `block_tree`: lines with their indentation, and the tree of levels.
//! - `tokenizer`: the scanner, the token cursor, and the tokenizing and
//!   flattening of a block tree.
//! - `grammar`: the grammar as functions over token lists.
//! - `ast`: the syntax tree and the parser that builds it.
//! - `pipeline`: all stages, from source text to statements.
//! - `token`, `error`, `text`: tokens, errors, and character helpers.

pub mod ast;
pub mod block_tree;
pub mod error;
pub mod grammar;
pub mod pipeline;
pub mod text;
pub mod token;
pub mod tokenizer;
