//! A position-preserving query-and-edit engine for XML question documents.
//!
//! The engine locates substrings of a well-formed XML document by structural
//! query and replaces exactly those substrings, leaving every other character
//! of the document untouched.  Queries hand out versioned [`ContentRef`]
//! snapshots; edits are buffered as [`Change`] values and applied atomically
//! by a commit that bumps the document version.

pub mod changes;
pub mod classify;
pub mod parser;
pub mod refs;
pub mod text;
pub mod xml;

pub use changes::Change;
pub use parser::EditError;
pub use parser::QParser;
pub use refs::ContentRef;
pub use refs::ContentType;
pub use refs::Question;
