//! A reconciliation engine for tax records: it resolves the reference
//! relations between 44-digit document keys, builds the transitive
//! closure of the complementary-document graph, matches a ledger's keys
//! against fiscal-document files, and merges and reports the outcome.

pub mod errors;
pub mod graph;
pub mod keymap;
pub mod keys;
pub mod keyset;
pub mod ledger;
pub mod loader;
pub mod matcher;
pub mod merge;
pub mod metadata;
pub mod report;
pub mod schema;
pub mod text;
pub mod trusted;
