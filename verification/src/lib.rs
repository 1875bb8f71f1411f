//! Parsing of Neomark documents: character normalisation, line splitting,
//! invocation-header parsing and block splitting.

pub mod parser;
