//! The stages of the Neomark parser.

pub mod block;
pub mod header;
pub mod line;
pub mod reader;
pub mod text;
