# nvram

A shared-memory NVRAM store, with its logic verified by Verus.

| Tier | What | Written by |
|---|---|---|
| Shared segment | The live store: values, seqlock counters, what the disk is owed | Any process, under the writer lock |
| Cache | Private copies of the keys that a process has read | That process |
| Store directory | One file per key | A commit |

A variable that is set is visible to every process at once, and durable after a
commit. A commit writes what the segment owes to the disk, for every process,
and holds no writer lock while it writes. Reads take no lock.

## Layout

- `src/` is the verified library. It holds no file and no lock: an operation is
  a value that says what is to be done next and is told what came of it, and a
  segment is a copy of the shared object, taken under the writer lock, with a
  list of the stores made into it.
  - `image`, `model`: the contents of the segment, and what each operation does
    to them; `shm`: the operations.
  - `peek`: reading a key without a lock, load by load.
  - `store`, `get`, `edit`, `commit`, `clear`, `getall`, `init`, `sem`: what a
    process does, step by step; `cache`, `disk`, `paths`, `api`, `hash`,
    `consts`: what they use.
  - `sound`, `compaction`, `update`, `laws`, `seqlock`, `window`, `history`,
    `coherence`, `pointers`, `durability`, `preload`, `locks`, `promises`: what
    holds of all that, and its proofs.
- `app/` is the shared library that C programs link: shared memory, semaphores,
  files, and the calls.
- `tests/` runs the library, several processes at a time, on a machine made of a
  few maps.
