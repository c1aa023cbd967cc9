# bao_fsm

Verified streaming of blobs over a tree of hashes: encoding the chunks that a query selects,
decoding and checking them on the other side, computing and copying outboards, and finding the
valid parts of a file. The hasher is a parameter; the one that is included computes piece
commitments (SHA-256 cut to 254 bits).

- `src/` is the library. All of it is verified with Verus, except for the calls into `sha2`, `fr32`
  and `smallvec`, whose contracts are stated in `commp.rs` and `stack.rs`. The logic does no I/O: it
  consists of state machines that say what to read or write next, and of functions that run them on
  data in memory. `src/laws/` states what holds of the library as a whole, such as that decoding
  gives back what encoding wrote.
- `app/` puts the state machines to work on async readers and writers, and holds the command line
  program that computes the outboard of a file.
- `tests/` runs the library on concrete data.
