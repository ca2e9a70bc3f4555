//! Consolidation of mod-compatibility notices gathered from several sources into one
//! catalog in which every entry answers to all of its identifiers.
//!
//! Sources hand raw records to a [`records::DatabaseBuilder`]: each record names a mod
//! by one or more identifiers and holds notices about it. The builder merges the
//! records that are connected through shared identifiers into the entries of a
//! [`records::Database`] and files every valid identifier in its lookup. What that
//! means is defined in [`records::consolidation`], and what follows from it is proved
//! in [`records::laws`] and [`records::reordering`].

pub mod connectivity;
pub mod records;
pub mod sources;
pub mod text;
pub mod time;
pub mod union_find;
