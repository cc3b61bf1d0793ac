//! Reading a document into a tree, writing a tree as a document, and why the
//! one undoes the other.

pub mod reader;
pub mod round_trip;
pub mod writer;
