# dataflow_sharder

A sharder is the node of a data-flow graph that splits a stream of packets over the shards of the
domain below it. It numbers the messages it sends, keeps them together with their provenance, and
after a failure brings the domain back to the same order of messages before it sends new ones.

The library is verified with Verus.

- `src/sharder.rs`: the sharder.
- `src/model.rs`: what the sharder does, as functions on its state; the contracts speak of these.
- `src/provenance.rs`, `src/packet.rs`, `src/data.rs`, `src/ids.rs`: provenances, packets, records
  and addresses, each with the mathematical value it stands for.
- `src/assoc.rs`: lists that map replicas to values.
- `src/outside.rs`, `src/hash.rs`: what is relied on of the crates `vec_map` and `fnv`.
- `src/laws/`: what holds beyond a single call, such as that no record or packet is lost or sent
  twice, that labels count up, and that the packets of one parent keep their order over any number of
  calls.
- `app/`: the serialised form of a sharder, and the log of what it sends.
