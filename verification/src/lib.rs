//! A small configuration-file toolkit: a lexer and recursive-descent parser
//! for a minimal four-section, line-oriented record format, together with a
//! pull-request URL splitter. All logic is verified; the surrounding
//! command-line and network plumbing lives outside the library.

pub mod github;
pub mod lexer;
pub mod parser;
