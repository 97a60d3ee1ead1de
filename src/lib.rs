//! An in-memory, multi-version transactional key-value engine with
//! optimistic concurrency control, together with the byte codec it stores
//! values in and a small relational catalog built on top of it.

pub mod encode;

pub mod kvs;
pub mod rdbms;
