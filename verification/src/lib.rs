//! A small hierarchical text format for configuration and save data.
//!
//! A document is a tree of named nodes. Every node holds an ordered list of
//! text values and an ordered list of named children:
//!
//! ```text
//! name = token1, token2, "token, with separator"
//! container_name
//! {
//!     child_a = 1
//!     #a literal comment line
//! }
//! ```
//!
//! [`Datafile`] is a node of such a tree. [`Reader`] fills a tree from the
//! lines of a document, [`Writer`] renders a tree as the text of a
//! document, and the `lexical` module says how a stored text is read as a
//! typed value. Reading never fails: a line or a value that makes no sense
//! is passed over or read as a default.
//!
//! Every executable function is verified against a contract over
//! [`node::Node`], the mathematical value of a tree, and over sequences of
//! characters. The module `processor::round_trip` proves that a document is
//! read back as it was written.

pub mod datafile;
pub mod lexical;
pub mod node;
pub mod processor;
pub mod text;

pub use datafile::Datafile;
pub use processor::reader::Reader;
pub use processor::writer::Writer;
