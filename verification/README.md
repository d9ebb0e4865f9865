# tectonic

Generates workloads for key-value stores: sequences of inserts, updates,
merges, point and range deletes, and point and range queries, written one
operation per line (`I key value`, `U key value`, `M key value`, `D key`,
`P key`, `S key1 key2`, `R key1 key2`), following a JSON workload
specification.

The library under `src/` is verified with Verus:

- `order`: lexicographic order on byte-string keys, proved a total order.
- `sorting`: sorting keys and optional keys, and swapping items.
- `random`: the random draws made through `rand` on `Xoshiro256Plus`.
- `keyset`: the key sets that hold a section's valid keys (on a vector, a
  vector of optional slots, a vector with a hash set or a hash map beside it,
  a vector with a Bloom filter, and an ordered set), each with its invariant,
  and the hash tables and key tables they use.
- `format`: the ASCII lines of each operation.
- `strings`: character sets, random strings, hot keys and segmented strings.
- `workload`: the checks a group must pass, the operations it plans, and each
  operation's step on the valid keys.

`app/` holds what stays outside the verified library: the specification
types read with `serde` and described with `schemars`, the sampling of
floating-point distributions, the generation loop that joins them to the
library's steps, and file output.
