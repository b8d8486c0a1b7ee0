//! Record-keeping for stacked and pooled git branches.
//!
//! A *stack* is a linear sequence of branches, each based on the one below; a
//! *pool* is a flat set of branches, each based on an upstream ref of its own.
//! This library holds what the `stack` and `pool` commands decide and compute:
//! the records they keep, how those records answer questions and change, what
//! is asked of git and GitHub, and the text that is shown. Running commands,
//! reading files and printing belong to the caller.

pub mod cli;
pub mod clock;
pub mod domain;
pub mod git;
pub mod github;
pub mod ops;
pub mod paths;
pub mod seqs;
pub mod store;
pub mod style;
pub mod text;
