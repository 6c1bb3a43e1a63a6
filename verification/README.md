# libtaurus

A verified core for the Taurus node: an event DAG whose vertices commit to ordering
constraints between their parents, with Avalanche-style voting on those constraints.

Layout:

- `src/` is the library, written in Verus. Each public function carries a contract over a
  mathematical view of its data, and the properties that span functions are stated and proved
  as public proof functions.
  - `hash.rs`: 32-byte hashes, hex rendering and byte order.
  - `collections.rs`: small vector-backed sets and maps with exact views. They stand where
    the node would use `HashSet` and `HashMap`: vstd's specifications of those give nothing to
    reason with when the key is a struct of this library with a derived `Hash` (such as a vertex
    hash), while these containers state exactly what each operation does to the set or map.
  - `consensus/`: vertices and their byte encoding, ordering constraints, the constraint graph,
    the DAG with its voting rules, and the consensus request handler.
  - `p2p/`: request/response and gossip message framing, and listen-port search.
  - `handler.rs`: how network requests and gossip are answered from consensus replies.
- `app/` is the `taurusd` daemon: argument parsing, the libp2p swarm, the async tasks that
  drive the library, and logging.
- `tests/` exercises the library on concrete values.
