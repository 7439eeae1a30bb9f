# algorithm

Common data structures with machine-checked contracts: caches (LRU, LRU-K,
LFU with expiry times, ARC, a slab of reusable values), bitmaps and a roaring
bitmap, a timer wheel and other timers, a circular buffer, a fixed-capacity
linked list over a vector, a skip list, a sorted set, byte buffers with
big- and little-endian reads, and quadsort.

Every function under `src/` is verified with Verus: the public functions
state in `requires` / `ensures` what they return and how they change their
arguments (the `hasher()` accessors, which hand out the caller's own hash
builder, state nothing), over a mathematical view of its type (`Seq`, `Map`, `Set`,
`Multiset`). Calls into `std` or `rand` that Verus cannot read go through
small wrappers whose contracts say only what the documentation of the
called function promises.

Layout:

- `src/`: the verified library.
  - `buf/`: `Binary`, `BinaryRef`, `BinaryMut` and the `Bt` reader trait.
  - `cache/`: `LruCache`, `LruKCache`, `LfuCache`, `ArcCache`, `Slab`.
  - `map/`: `BitMap`, `RoaringBitMap`, `ZSet`.
  - `timer/`: `TimerWheel`, `TimerRBTree`, `StampTimer`, `StepTimer`.
  - `circular_buffer.rs`, `fix_vec.rs`, `skip_list.rs`, `quadsort.rs`.
- `tests/`: tests run against the compiled library.
- `app/`: what reads the system clock or works with floating point, and
  the forms of the timers and caches that take the current time themselves.
