//! Vectors in few bits: packing, the accounting of memory, and the choice of
//! precision.

pub mod binary;
pub mod butterfly;
pub mod choice_laws;
pub mod descent;
pub mod grid;
pub mod kitty;
pub mod kv_cache;
pub mod kv_codes;
pub mod kv_store;
pub mod lloyd;
pub mod metal;
pub mod packing;
pub mod precision;
pub mod products;
pub mod rotation_laws;
pub mod tmac;
pub mod turbo;
