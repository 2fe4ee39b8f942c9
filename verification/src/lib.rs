//! Verified core tables of the Runic allocator: table capacities and heap
//! configuration, the extent table and the generic metadata arena, the
//! page-indexed owner map, and the benchmark workloads that drive them.

pub mod table_capacity;
pub mod heap_config;
pub mod slot;
pub mod extent;
pub mod extent_table;
pub mod slot_store;
pub mod arena;
pub mod memory;
pub mod page_map;
pub mod shared_buffer;
pub mod global_workload;
pub mod workload;
