//! A personal absence ledger: a file-sharded record store keyed by calendar
//! date, time-sortable record identifiers, disambiguation of date-addressed
//! records, and a serialize/edit/validate/commit protocol for correcting a
//! record through an external text editor.
//!
//! The library itself is pure: it computes file paths, file contents and
//! decisions, and leaves reading and writing those files to its callers.

pub mod codec;
pub mod date;
pub mod editor;
pub mod ident;
pub mod record;
pub mod selection;
pub mod store;
pub mod text;
pub mod watson;
