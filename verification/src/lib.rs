//! Semantic search for C and C++ code.
//!
//! A search pattern is a piece of code with wildcards and variables. This crate repairs and
//! checks patterns, reads the constraints on their variables, chooses the files to look at and
//! the matches to show, and words the messages. Parsing is left to tree-sitter, matching of text
//! to `regex`, and colours to `colored`.
pub mod chains;
pub mod files;
pub mod location;
pub mod matches;
pub mod paint;
pub mod pattern;
pub mod queries;
pub mod regexes;
pub mod session;
pub mod syntax;
pub mod text;
