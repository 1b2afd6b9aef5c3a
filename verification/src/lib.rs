//! Core of a distributed, content-addressed object store: CRDT metadata
//! primitives, the entities they compose into (API keys, objects, versions),
//! the chunking and reassembly of object payloads, and the decision logic of
//! the PUT and GET pipelines. Network and disk I/O live outside this crate;
//! everything here is pure logic over plain values, verified against the
//! contracts on each function.

pub mod api;
pub mod chunker;
pub mod crdt;
pub mod lww_map;
pub mod merge_list;
pub mod object_table;
pub mod data;
pub mod error;
pub mod key_table;
pub mod order;
pub mod table;
pub mod version_table;
