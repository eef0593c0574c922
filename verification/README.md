# moka

Caches that decide by frequency what they let in and by recency what they evict, written in Verus.
The functions of the library state what they do, and Verus proves it of all but the few that are
named below.

## Layout

- `src/` is the library.
  - `dash`: a cache with weights and expiration upon a concurrent hash table. `dash/state.rs` says
    what a cache is and what each operation makes of it; the files whose names end in `laws` say
    what holds however it is used.
  - `future`: the same cache with a weigher and with values that are computed when they are
    missing, entries that are got or made, and the rules by which many who ask for a missing
    value agree on one who computes it; `future/meeting.rs` says what holds of all of them.
  - `sync`, `builder`, `lfu`: caches that count their entries, also in segments.
  - `cht`: a hash table with open addressing.
  - `common`: frequency sketch, queues, timer wheel, admission, expiry, logs of operations, and
    numbers of double precision.
  - `stats`, `notification`, `policy`, `ops`: what is told of a cache.
- `tests/` runs the library.
- `app/` is ordinary Rust around it: locks, hashing of keys, the clock, thread pools and futures.

Keys are numbers. Whoever uses a cache gives the hash of each key and the current time.

## Trust

What is believed without proof stands behind small functions, each next to a comment that says what
is believed: `common/store.rs` (the hash table of `dashmap`), `common/op_log.rs` (the channels of
`crossbeam-channel`), `common/small_list.rs` (the short lists of `smallvec`), `common/count_min.rs`
(the sketch of `count-min-sketch`), `common/time.rs` (durations of the standard library) and
`common.rs` (shared strings and slices of the standard library).
