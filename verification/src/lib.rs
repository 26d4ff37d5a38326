//! A small Redis-like key-value server: a hash map with progressive
//! rehashing, a type-length-value response encoding and the request
//! protocol that ties them together.
pub mod common;
pub mod hashtable;
pub mod network;
pub mod redis;
pub mod transport;
pub mod tvl;
