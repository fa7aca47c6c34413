//! Fuzzy ranking and hierarchical navigation of completion candidates.
//!
//! - `scoring`: whether a candidate matches a query, and how well.
//! - `completion`: the traits of completions and of their sources.
//! - `model`: levels, stacks of levels and tabs, with their listings kept
//!   in order as queries change and batches of candidates arrive.
//! - `line`: the query's place in the command line, and the line after a
//!   completion is chosen.
//! - `git`, `numbers`: reading Git's output into completions, and a
//!   completer of numbers.
//! - `walk`: one step of the walk over a directory tree.
pub mod completion;
pub mod git;
pub mod line;
pub mod model;
pub mod numbers;
pub mod scoring;
pub mod walk;
