# runic

The metadata core of the Runic allocator, written in Verus and verified.

- `table_capacity`, `heap_config`: validated table capacities and the heap's
  table configuration.
- `slot`: the abstract model of a reservation table (empty, reserved,
  occupied slots; circular first-fit scan) and the laws every table obeys.
- `extent`, `extent_table`: the extent table, whose slot storage is allocated
  on first reservation.
- `slot_store`, `arena`: fixed-capacity slot storage and the generic
  out-of-line metadata arena built on it.
- `memory`, `page_map`: page-indexed lookup from addresses to the run or
  extent that owns them, with overlap rejection and owner-checked removal.
- `global_workload`, `workload`: benchmark workloads; the allocation traces
  are proved sound (every free and resize names a live allocation) and
  balanced (nothing is left allocated).

`app/` holds what runs outside the verifier: the process-abort boundary, a
system-allocator target for the traces, and the workloads that touch raw
memory.
