# mydht-base

Base components of a distributed hash table, verified with Verus.

- `src/bytes_wr.rs`: framing of content of unknown length in a byte stream
  (escaped content with an end marker, or content cut in sized windows), with
  proofs that reading back what was written, in reads of any non-empty
  buffer until a read gives nothing, gives the content (followed by the zeros
  that pad the last window, for sized windows) and stops right after the
  frame.
- `src/kvcache/`: the key/value cache interface, its hash map and empty
  implementations, and the random choice of cached values (with a store of
  random bytes in `rand_cache.rs`).
- `src/peer.rs`: shadowing of what is exchanged with peers, and peer states.
- `src/tunnel.rs`: tunnel modes, error codes of the hops of a route and how
  the emitter identifies the hop that reported an error, and what tunnel
  writers, readers and proxies set up for a route; proxying of frames and
  error reports on bytes (the frame headers come encoded by the caller).
- `src/tunnel_new/`: the newer tunnel interfaces, the information each hop
  carries, and the decisions of the full tunnel.
- `tests/`: tests of the library; `app/`: std `Read`/`Write` streams framed
  by the library.
