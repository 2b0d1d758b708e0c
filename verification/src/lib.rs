//! Changelog rendering and document splicing for a conventional-commit
//! release tool.
//!
//! Given a batch of pre-classified commit records, a revision pair with a
//! display date, and a registry mapping each commit-type tag to a section
//! title, the renderer produces a markdown fragment. The writer composes a
//! whole document (replace mode) or splices the fragment into an existing
//! document right after a `- - -` separator marker (prepend and append
//! modes). All of the text manipulation is verified; reading and writing
//! the file on disk is left to the caller.

pub mod marker;
pub mod render;
pub mod writer;

pub use render::Changelog;
pub use render::CommitRecord;
pub use render::RegistryEntry;

pub use writer::WriteError;
pub use writer::WriterMode;
pub use writer::footer;
pub use writer::header;
