//! A sharder: the node of a data-flow graph that splits a stream of packets over the shards of
//! a downstream domain, and that keeps the provenance needed to resume after a failure.

pub mod assoc;
pub mod data;
pub mod filter;
pub mod hash;
pub mod ids;
pub mod laws;
pub mod model;
pub mod outside;
pub mod packet;
pub mod provenance;
pub mod sharder;
