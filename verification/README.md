# sstable

Sorted string tables: an immutable, sorted mapping from byte-string keys to typed values, verified
with Verus.

A table is a run of blocks, an empty block that ends them, an index of the blocks, the offset of the
index and the number of terms. A block is its length in four bytes, the values, then the keys as
differences from one another.

- `writer`, `delta`, `sstable_index`, `cbor`: how a table is written.
- `reader`, `block_reader`: how it is read back.
- `merge`: how tables become one.
- `value`: values that are nothing, numbers that never decrease, or ranges that partition the space.
- `order`, `vint`, `fixed_int`: the order of keys and the encodings of numbers.
- `table`: a whole table as a function of its entries.
- `laws`: what holds of every table.

`app/` moves the bytes of tables through `std::io`.
