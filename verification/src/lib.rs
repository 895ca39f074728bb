//! A store for personal movement history: travels, the moves they are made
//! of, and the raw position fixes recorded along the way.
//!
//! [`store::MovementStore`] is the executable store. Its view is a
//! [`state::StoreState`], the mathematical content of the three tables and of
//! the schema version marker, and every operation is specified as a
//! transition of that state. [`laws`] holds what follows for every valid
//! state. [`migration`] orders the schema's migrations, and
//! [`snapshot::Snapshot`] carries a store's rows to and from durable
//! storage.
//!
//! Instants are milliseconds since the Unix epoch. Coordinates are whole
//! numbers of 1e-7 degree.

pub mod error;
pub mod identifier;
pub mod laws;
pub mod migration;
pub mod model;
pub mod sequences;
pub mod snapshot;
pub mod state;
pub mod store;
