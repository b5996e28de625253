//! Keeps a plaintext working file and a fragment tracked in a git history in
//! step: both sides are read as sets of lines, the union of the two sets is
//! filtered by the link's rules, and each side that differs from that union is
//! handed the union, one line per row in byte order.
//!
//! The crate holds the rules only. Reading and writing files, the repository
//! and the command line belong to the program built on top of it.

pub mod age;
pub mod appender;
pub mod blob;
pub mod config;
pub mod convergence;
pub mod file;
pub mod filter;
pub mod git;
pub mod line;
pub mod line_set;
pub mod link;
pub mod pattern;
pub mod text;
