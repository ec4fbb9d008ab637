//! A small replicated key-value store: a last-writer-wins in-memory store,
//! the text protocol spoken by its TCP clients, and the helpers that the
//! gossip layer uses to reach the other members of the cluster.

pub mod store_hashmap;
pub mod protocol;
pub mod store;
pub mod nodes;
