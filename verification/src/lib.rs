//! A small columnar data store with typed columns, a versioned feature store
//! and content-addressed snapshots, verified with Verus.
pub mod feature_store;
pub mod laws;
pub mod ml;
pub mod models;
pub mod scalar;
mod clock;
mod keyed;
mod text;
