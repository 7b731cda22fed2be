//! An in-memory, single-table record store with automatically maintained
//! secondary indices.
//!
//! A record is a row of integer fields. Every live record is identified by an
//! id that the slot allocator hands out and reuses after removal. A table is
//! configured with any number of unique indices (at most one live record per
//! key) and multi indices (all live records that share a key form one bucket,
//! kept as a circular doubly-linked list of ids).
pub mod slots;
pub mod keymap;
pub mod multi;
pub mod unique;
pub mod schema;
pub mod model;
pub mod table;
pub mod laws;

pub use model::{InsertError, TableModel};
pub use multi::MultiIndex;
pub use schema::Schema;
pub use slots::RecordStore;
pub use table::Table;
pub use unique::{Conflict, UniqueIndex};
