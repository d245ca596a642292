//! User memory: anonymous mappings.
pub mod memory_map;
