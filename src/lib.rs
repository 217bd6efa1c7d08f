//! An in-memory geospatial key-value store: named points and polygons, radius
//! search, a line protocol, write-ahead log records and snapshots, and the
//! leader/replica bookkeeping around them.
pub mod text;
pub mod decimal;
pub mod command;
pub mod keyed;
pub mod node;
pub mod persistence;
pub mod replica;
pub mod storage;
