# mencius

A replicated key-value store run by either of two protocols, with the logic verified
in Verus:

- `src/mencius/`: Mencius. Servers take the slots round-robin, propose clients'
  requests in their own slots, execute chosen slots in order, and cut each run of
  chosen slots into a trace whose cuts hold at most one request per key, so that a
  cut's requests may run in parallel. `trace.rs` proves that running a trace cut
  after cut is running its requests in slot order.
- `src/paxos/`: a leader numbering requests into consecutive slots, executed in
  order once accepted by more than one server.
- `src/kv.rs`: the key-value operations (a read of a key, or a write of a value).
- `src/store.rs`: the `dashmap` maps and sets the servers keep their state in, with
  trusted contracts for the operations used.
- `src/client.rs`, `src/worker.rs`: the workload client's random choices; the worker.
- `app/`: gRPC plumbing (tonic), command line (clap), encoding (serde, bincode).
