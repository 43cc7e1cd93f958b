# foyer_block

The core of a block-based disk cache, verified with Verus.

A device is divided into blocks. Entries are written into clean blocks, and a block that is full is
evictable: its entries are read from it until it is evicted and cleaned again.

- `src/` is the verified library: what a disk cache decides and computes.
  - `engine`: the configuration, the steps to open the engine, and the decisions on writes, loads,
    deletions and live resizing
  - `manager`: the states of the blocks, eviction, cleaning, and blocks that go out of use
  - `eviction`: the pickers of the block to evict
  - `recover`: what is known after a restart
  - `indexer`: where each entry is, and which ones were deleted
  - `serde`: the entry header on disk
  - `device`, `combined`, `either`, `statistics`: devices, their partitions, devices that are joined,
    and the limits of their I/O
  - `range`, `bits`, `error`: ranges of integers, alignment, and errors
- `app/` is the runtime around it: tasks, clocks, locks and I/O.
- `tests/` runs the library.
