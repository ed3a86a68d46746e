//! Caches: expert LRU, paged KV cache with disk spill, and a prompt prefix cache.

pub mod expert;
pub mod kv;
pub mod kv_laws;
pub mod lru_laws;
pub mod prompt;
pub mod sequence;
pub mod sequence_laws;
