//! A small backtracking pattern matcher for line-oriented text search.
//!
//! - `syntax`: atoms and quantifiers as they are read from pattern text;
//! - `semantics`: what a pattern matches, as spec functions;
//! - `engine`: the executable matcher, proved equal to `semantics`;
//! - `search`: scanning a line for every match, and the entry points;
//! - `validity`: which pattern texts are well formed;
//! - `laws`: properties of the search, proved.

pub mod syntax;
pub mod semantics;
pub mod engine;
pub mod search;
pub mod validity;
pub mod laws;
