//! A Redis-like in-memory cache: the wire protocol, the entries it stores and
//! their JSON form, and the shared store.
pub mod text;
pub mod protocol;
pub mod json;
pub mod store;
pub mod bench;
