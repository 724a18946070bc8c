//! Relocate, duplicate or delete existing lines of text by reference.
//!
//! The library holds every decision of the tool and none of its input or
//! output: files arrive as bytes, and what is to be written leaves as bytes.

pub mod anchor;
pub mod candidate;
pub mod encoding;
pub mod error;
pub mod hook;
pub mod laws;
pub mod lines;
pub mod numeral;
pub mod ops;
pub mod outside;
pub mod path;
pub mod render;
pub mod search;
pub mod splice;
pub mod suggest;
pub mod text;
pub mod twin;
