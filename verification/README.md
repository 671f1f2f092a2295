# dht

A replicated key-value store. Every key belongs to a few consecutive nodes on a
ring; reads ask a quorum of them, and writes of one key or of several are
committed with Paxos-Commit, in which every node is an acceptor and every
participant finds out the outcome by itself.

- `src/` is the library, verified with Verus. A node (`node.rs`) is a state
  machine: each step takes a request, a message or the time, and hands back what
  is to be done. `model.rs` says what each step makes of a node, `laws.rs`
  what follows from that, and `agreement.rs` why the participants of a
  transaction agree on its outcome.
- `tests/` runs the library, among others as a cluster without a network.
- `app/` runs a node or a load-testing client over TCP.

Keys are 64-bit numbers. Besides the specifications that Verus gives to the
standard library, the proofs rest on four declared contracts: three of random
numbers from the `rand` crate (`random.rs`), and that of the standard library's
sort (`metrics.rs`).
