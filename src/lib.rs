//! Shrinks an EPUB container: the decisions of the rewrite pipeline
//! (workspace naming, safe extraction, resource classification, the
//! regression guard, deterministic repacking) as verified functions.

mod text;
pub mod tempdir;
pub mod entry_path;
pub mod classify;
pub mod dispatch;
pub mod zip_codec;
pub mod archive;
pub mod pipeline;
