# wasm_storage

A small replicated key-value store. Each storage node serves clients over a
plain TCP text protocol (`put <key>=<value>.`, `get <key>..`) and passes every
write on to the other members of its cluster over gRPC.

- `src/` is the verified library:
  - `store_hashmap`: an in-memory store whose values carry timestamps; a write
    to an existing key keeps the newer value (last writer wins). The laws of
    the merge and of `put` (read after write, idempotence, commutation of
    writes) are proof functions there.
  - `protocol`: taking client messages apart, building the replies, and what a
    node does, in order, for each message read from a connection; with
    round-trip laws for the messages that clients send.
  - `store`: what a lookup in the persistent store yields as text.
  - `nodes::kvs`: who a node is (its address and its cluster's members); in
    `gossip`, the gossip service type and the addresses that a write is
    passed on to.
- `app/` is the node program: sockets, RocksDB, the gRPC service and client.
- `tests/` runs the library on concrete values.
