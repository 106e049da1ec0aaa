//! Memory management: Sv39 addresses, physical memory and page tables.
pub mod address;
pub mod memory;
pub mod page_table;
pub mod heap_allocator;
