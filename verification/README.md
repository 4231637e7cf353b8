# peer_sync

Peer selection and synchronization targets for a blockchain node, verified with Verus.

- `src/selector.rs`: the known peers, their scores, and the choice of the one to ask next
  (`roster.rs` holds the vocabulary that its contracts use).
- `src/target.rs`: the block to synchronize to among those that the best peers offer.
- `src/search.rs`: the search for a target that more peers can help with.
- `src/full_sync.rs`: the course of a synchronization, as a state machine.
- `src/fetch.rs`, `src/task_error.rs`: requests, replies, and what a failed task costs a peer.
- `src/laws.rs`: what holds of all of these together.
- `src/random.rs`, `src/order.rs`: the calls into `rand`, `itertools` and the standard library's
  sort, whose contracts are believed.
- `app/`: locks, tasks, events and settings around the library.
