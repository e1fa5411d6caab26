# B+ tree map, verified with Verus

An arena-based B+ tree map (`BPlusTreeMap`), a variant whose nodes carry
one shared capacity (`GlobalCapacityBPlusTreeMap`), fixed-size compressed
leaf and branch nodes, and the arenas the trees keep their nodes in.

- `src/` is the library. Every function is verified by Verus against its
  `requires`/`ensures`; the maps the trees hold are stated as `Map`s and
  sequences of entries, and insertion, removal, rebalancing and range
  iteration are specified over them.
- `tests/` runs the library on concrete inputs.
- `app/` holds what stays outside the verified library: error messages for
  display, floating-point arena statistics, printing of a tree's shape and
  timing programs for deletions.
