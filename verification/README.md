# raknet_rs

The core of the RakNet protocol, written in Rust and verified with Verus: what its functions
return and change is stated in contracts, and proved.

- `src/` is the library.
  - `packet/` holds the packets and their form on the wire, with proofs that what is written is
    read back.
  - `codec/` holds the layers that packets pass through: deduplication, fragmentation and
    defragmentation, ordering, and the bodies of frames; `codec/assembly.rs`,
    `codec/interleaving.rs` and `codec/repeats.rs` state how messages are put together, and
    `codec/delivery.rs` what holds of both ways together.
  - `guard/` holds the sending half of a connection: priorities, acknowledgements, and what is sent
    again when; `guard/flushing.rs` states what a whole flush does, and `guard/closing.rs` what
    closing a connection promises.
  - `link.rs` is what the two halves of a connection hand over to each other.
  - `client/` holds a client's settings and handshakes.
  - `buf.rs`, `handover.rs` and `codec/decoder/parts.rs` hold what is believed of the crates
    `bytes`, `concurrent-queue` and `lru`, one call at a time.
- `tests/` runs the library.
- `app/` puts it to work on tokio's sockets: tasks, clocks, logs, and errors that can be shown.

The library does no input or output and reads no clock. Datagrams and times are handed to it: all
times are in nanoseconds.
