//! The data core of an image-collection tagger: a snapshot of entries, tags
//! and sequences keyed by durable identifiers, reconciliation of the entries
//! against a directory listing, a filter language over tags and file names,
//! and the snapshot's binary form.

pub mod db;
pub mod entry;
pub mod filter_spec;
pub mod query;
pub mod sequence;
pub mod tag;
pub mod text;
