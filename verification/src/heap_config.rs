use vstd::prelude::*;

use crate::table_capacity::TableCapacity;

verus! {

/// Slot count of both metadata tables when no capacity is injected.
pub const DEFAULT_TABLE_CAPACITY: usize = 65_536;

/// Capacities of a heap's run table and extent table.
#[derive(Clone, Copy, Debug, PartialEq, Eq)]
pub struct HeapConfig {
    run_capacity: TableCapacity,
    extent_capacity: TableCapacity,
}

impl HeapConfig {
    /// The configured run-table capacity.
    pub closed spec fn spec_run_capacity(self) -> TableCapacity {
        self.run_capacity
    }

    /// The configured extent-table capacity.
    pub closed spec fn spec_extent_capacity(self) -> TableCapacity {
        self.extent_capacity
    }

    /// Stores the two capacities unchanged.
    pub fn new(run_capacity: TableCapacity, extent_capacity: TableCapacity) -> (r: HeapConfig)
        ensures
            r.spec_run_capacity() == run_capacity,
            r.spec_extent_capacity() == extent_capacity,
    {
        HeapConfig { run_capacity, extent_capacity }
    }

    /// Both tables get `DEFAULT_TABLE_CAPACITY` slots.
    pub fn default() -> (r: HeapConfig)
        ensures
            r.spec_run_capacity().value() == DEFAULT_TABLE_CAPACITY,
            r.spec_extent_capacity().value() == DEFAULT_TABLE_CAPACITY,
    {
        let capacity = TableCapacity::new(DEFAULT_TABLE_CAPACITY).unwrap();
        Self::new(capacity, capacity)
    }

    /// The run-table capacity given at construction.
    pub fn run_capacity(self) -> (r: TableCapacity)
        ensures
            r == self.spec_run_capacity(),
    {
        self.run_capacity
    }

    /// The extent-table capacity given at construction.
    pub fn extent_capacity(self) -> (r: TableCapacity)
        ensures
            r == self.spec_extent_capacity(),
    {
        self.extent_capacity
    }
}

} // verus!
