//! Memory management: Sv39 addresses, physical frames, page tables and
//! the SLUB object caches.
pub mod addr;
pub mod frame;
pub mod list;
pub mod page_table;
pub mod slub;
pub mod allocators;
