//! An addressable-asset catalog: the registry of path strings, the key,
//! bucket and entry tables and the extra-data stream, with their binary
//! layouts, the queries and append operations on them, and the resolution of
//! dependencies. Every function is verified against a contract over the
//! mathematical model in `model`; the few calls that leave the crate stand in
//! `outside`.

pub mod bucket_table;
pub mod catalog;
pub mod edit;
pub mod entry_table;
pub mod export;
pub mod extra_stream;
pub mod key_table;
pub mod laws;
pub mod limits;
pub mod lookup;
pub mod model;
pub mod outside;
pub mod resolve;
pub mod text;
pub mod wire;
