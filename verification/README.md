# libp2prs-kad

The Kademlia DHT behaviour of a libp2p node, verified with Verus.

- `src/` is the verified library.
  - `kad/` is the behaviour: `mod.rs` holds `Kademlia` and access to its queries, its routing table
    and its store, `lookup.rs` the operations of the local node, `serve.rs` the response to peers,
    events and commands, `outcome.rs` what happens when a query ends. `model.rs` says what the
    behaviour is and how it changes, `laws.rs` what holds of it as a whole.
  - `kbucket/` is the routing table, `query.rs` the pool of queries, `store.rs` the record store.
  - `config.rs`, `event.rs`, `info.rs`, `protocol.rs`, `record.rs`, `identity.rs` and the others
    hold the values that these work on.
- `app/` is the node around the library: the channels, the main loop and the swarm.
- `tests/` holds the tests.

Contracts are stated over views. `Kademlia` is seen as a `KademliaView`. What holds of it at any time
is `KademliaView::inv`. The operations ask for it and keep it, but for two kinds: a change of the
connection to a peer asks for it of all other peers only, and a mutable reference to a query or to the
store can be had at any time.

What is believed without proof is said where it is believed: the SHA-256 digest and the draw of
random peers (`libp2prs-core`), the hash tables (`fnv`, `smallvec`) and the monotonic clock of the
standard library. An operation that depends on the time comes in two forms, one that takes the time
as an argument and one that reads the clock. An operation that depends on chance comes in two forms
as well.
