//! Per-key statistics over a log of `<key>;<decimal>` lines: a branchless
//! fixed-point number decoder, a word-folding key hash, and the fold and merge
//! steps that build the final table.

pub mod hash;
pub mod laws;
pub mod local;
pub mod order;
pub mod parse;
pub mod pipeline;
pub mod record;
pub mod render;
pub mod table;
pub mod word;
