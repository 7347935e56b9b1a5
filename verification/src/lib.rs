//! Turning the notes of Bear.app into plain Markdown files.
//!
//! The library decides everything about the export that does not touch the
//! disk or the database: which notes are exported, their file names,
//! directories, front matter and link destinations, the rewriting of
//! attachment references, and what happens to files that are already there.
//!
//! What it cannot do itself it asks for. The export of a note
//! ([`note_export::NoteExport`]) says at every step what has to be done on
//! disk, and goes on with the answer.
pub mod export;
pub mod front_matter;
pub mod import;
pub mod links;
pub mod note_export;
pub mod notes;
pub mod paths;
pub mod patterns;
pub mod placement;
pub mod rewriting;
pub mod tags;
pub mod text;
pub mod timestamps;
pub mod titles;
