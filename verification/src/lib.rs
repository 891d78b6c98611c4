//! Disk usage analysis, duplicate detection and safe deletion.

pub mod actions;
pub mod cli;
pub mod dedup;
pub mod error;
pub mod grouping;
pub mod index;
pub mod model;
pub mod order;
pub mod path;
pub mod report;
pub mod scanner;
pub mod seqs;
pub mod text;
pub mod tree;
pub mod tui;
