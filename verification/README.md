# algors

Data structures whose contracts are proved.

- `src/` is the verified library:
  - `union_find` — disjoint sets with union by size and path compression;
    contracts state the partition, set sizes and the number of sets.
  - `heap` — a binary min-heap ordered by a caller's comparison; pops
    come out in order whenever the comparison is a total preorder.
  - `bloom`, `hash` — a bloom filter over XXH3 (through `xxhash-rust`),
    its bit positions, insert and lookup, and its byte format with the
    serialization round trip.
  - `trie` — a compressed radix trie from byte strings to values; its
    view is a map, and insert, get, remove, prefix removal and the prefix
    walk are stated against that map.
  - `ring`, `steps`, `backoff` — the index arithmetic of ring buffers,
    the decisions of the queues' push and pop, and exponential backoff.
- `app/` holds what stays outside: sizing a bloom filter from a false
  positive rate (floating point), cache padding, and the concurrent
  queues themselves, whose shared counters and slots are atomics and
  cells; they take every decision from `steps`, `ring` and `backoff`.
- `tests/` runs the library on concrete values.
