//! JSON / JSONL structure-aware diff.

pub mod align;
pub mod align_laws;
pub mod alignment;
pub mod cover;
pub mod grammar;
pub mod grammar_laws;
pub mod insert_laws;
pub mod jsonl;
pub mod jsonl_laws;
pub mod lcs;
pub mod merge_laws;
pub mod parse;
pub mod shape_laws;
pub mod shift_laws;
pub mod show_laws;
pub mod source;
