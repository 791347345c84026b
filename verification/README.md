# crustydb

The core of a small relational database, verified with Verus.

- `src/` is the library. Every function in it is verified against its contract.
  - `field`, `tuple`, `bytecode_expr`: values, rows and expressions over them.
  - `opiterator`: the query operators. `nested_loop_join` and `hash_join` join two inputs,
    `aggregate` groups an input (`average` computes averages as in double precision),
    `tuple_iterator` hands out given tuples. `laws` and
    `aggregate_laws` state what holds of them.
  - `page`, `heapfile`, `heapfileiter`, `storage_manager`: containers of values in heap files made
    of pages. `storage_laws` states what a read gives back after writes.
  - `key_table`: the hash table that the hash join and the aggregation look keys up in.
- `app/` puts the storage manager on disk: it hands the bytes of a heap file in when a container is
  opened, and writes every page that the library changes through to the file.
- `tests/` runs the library on concrete values.
