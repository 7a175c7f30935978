//! Finds the largest files and directories beneath a root: exact cumulative
//! directory sizes from a flat walk, and a ranked report that prefers the
//! most specific entries over their ancestors.

pub mod path;
pub mod text;
pub mod number;
pub mod args;
pub mod scanner;
pub mod rank;
pub mod display;
