//! The nodes of a storage cluster.

pub mod kvs;
