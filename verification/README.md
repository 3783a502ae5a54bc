# Persisted hash maps

A hash map that is written once, kept in a file, and read piece by piece: a perfect hash function
leads from a key to a bucket, the bucket to an entry, and the entry holds the key and its values.

- `src/` is the library, verified with Verus.
  - `bytes_buffer`, `rounds` — a producer-consumer FIFO that avoids copying, and what holds of it
    over several calls.
  - `native`, `align`, `aligned` — integers and bytes in memory, and where they lie.
  - `keys`, `values` — what a map is keyed by, and what it stores.
  - `entry`, `state` — an entry in bytes, read at once or little by little.
  - `phf` — the perfect hash function.
  - `file` — the header, ranges of a file, and what can be wrong with it.
  - `sparse`, `lookup`, `overlap` — looking up single entries, read by read, what comes of that, and
    what holds when many are looked up at once.
  - `scanner` — reading all entries, chunk by chunk.
  - `universal_hashmap` — the map itself. It asks for bytes by a function of its caller.
  - `batch`, `visit`, `entries` — its operations on many keys, on all keys and on all entries.
- `app/` binds the map to files of the operating system.
- `tests/` runs the library on concrete bytes.

A file looks like this:

```text
| header (24 bytes) | hash function | padding | bucket offsets (8 bytes each) | entries |
```

and an entry like this, each part behind padding:

```text
| key | number of values (4 bytes) | values |
```
