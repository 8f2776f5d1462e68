//! YAML parsing, emitting, and format-preserving edits.
pub mod edit;
pub mod emitter;
pub mod error;
pub mod parser;
pub mod patterns;
pub mod text;
pub mod value;

pub use edit::apply::{Applied, Change};
pub use edit::doc::{locate, Document, DocumentView};
pub use edit::edit_doc::Edit;
pub use edit::path::parse_path;
pub use edit::set::{set_with, SetOpts, SetOutcome};
pub use edit::{Located, NodeKind, Segment};
pub use emitter::emit;
pub use error::Error;
pub use parser::Parser;
pub use value::BorrowedValue;
pub mod laws;
