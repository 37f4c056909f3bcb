//! Scanner for task scripts of the nadi engine.
//!
//! The library tokenizes and parses script text through the engine crate
//! (`nadi_core`) and implements, with proofs, the scanning logic around
//! those primitives: a line-by-line syntax highlighter with error
//! recovery, and a task locator that finds the smallest line range
//! holding one complete statement under a cursor.

pub mod comment;
pub mod engine;
pub mod highlight;
pub mod locate;
pub mod markup;
pub mod text;
pub mod tokens;
