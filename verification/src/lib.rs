//! Core of an input-method matching engine.
//!
//! A dictionary of code-sequence/text entries is loaded once into a
//! persistent (structurally shared) prefix tree.  A per-session input
//! context walks that tree as code characters arrive, tracks the codes
//! typed past the last match (the overflow), and ranks the candidate
//! completions under the current position.  Every operation is specified
//! and verified; file loading and the editor RPC transport live outside
//! this crate.

pub mod candidate;
pub mod code_table;
pub mod engine;
pub mod input_context;
pub mod keymap;
pub mod path;
pub mod pinyin;
pub mod persistent_trie;
pub mod text;
pub mod tree;
pub mod trie;
