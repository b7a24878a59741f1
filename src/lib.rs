//! Reorganises audio files into an artist / album / track hierarchy.
//!
//! The library holds the decisions: how free text becomes a path component,
//! what happens to a file given its extension and its tag, where a tagged
//! file goes, and the breadth-first order in which a directory tree is walked.
//! The filesystem itself is driven by the caller.
pub mod format;
pub mod policy;
pub mod tag;
pub mod text;
pub mod walk;

pub use format::{push_decimal, push_signed_decimal, push_two_digits};
pub use policy::{classify, place, Destination, FileAction, PlaceError, Placement, TagRecord};
pub use tag::record_from_tag;
pub use text::{same_text, sanitize, sanitize_char, trim};
pub use walk::{EntryKind, Step, Walker};
