# Gossipping

Feed notifications over a gossip network: a writer turns podpings into signed notifications,
a listener shows and verifies them, a monitor watches the peers and finds those that need
better connections.

- `src/` is the library, verified with Verus: notifications and their signatures, node ids and
  keys, the file of known peers, the reactions to gossip events, the graph of the swarm and the
  suggestions made from it. Calls into other crates stand behind small functions whose contracts
  are believed, each with a comment that says what is claimed.
- `tests/` runs the library, with those crates linked.
- `app/` is the programs: endpoints, sockets, files, the web view, and the betweenness scores,
  which are floating-point numbers.

The writer reads Cap'n Proto messages from a ZMQ socket; `app/podping_socket.rs` needs the
`zmq` and `podping-schemas` crates and the generated code of the Plexo schema for that.
