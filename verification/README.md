# table_split

Regions are ranges of keys. A region that holds keys of more than one table is
split where a table begins. This library finds that key.

- `src/` decides, with contracts that Verus proves: `table` is the check,
  `keys` and `codec` say how keys look, `laws` holds what the check promises as a
  whole. Among the promises: no table is cut in two, a region that is not split
  holds at most one table, and, unless the last key of the region is too short
  to tell, a split key lies between the keys of the region.
- `app/` looks up the bounds of a region in RocksDB and hands them to the check.
- `tests/` runs the check on an ordered set of keys.

A check goes like this. `scan_range` names the range in which the first and the
last key of the region are looked up, unless the region is inside a table.
`bound_keys` puts together what was found. `new_split_check_status` begins the
check with it, and `on_split_check` takes the keys of the region in order until
it returns a split key.
