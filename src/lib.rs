//! Shorthand bookkeeping expressions turned into double-entry transactions.

pub mod error;
pub mod text;
pub mod price;
pub mod expr;
pub mod trie;
pub mod parser;
pub mod date;
pub mod transaction;
pub mod tokmap;
pub mod tokmap_example;
pub mod many;
pub mod rule;
pub mod tokmap_rule;
pub mod dispatch;
pub mod executor;
pub mod datagen;
