# entrouter-line

The core of a packet relay mesh between points of presence, written in Verus
with machine-checked contracts.

## Layout

- `src/relay/` — the tunnel packet layer: the 11-byte wire header
  (`wire`), ChaCha20-Poly1305 encryption keyed per tunnel with nonces derived
  from sequence numbers (`crypto`), adaptive Reed-Solomon forward error
  correction and the loss window that picks its ratio (`fec`), splitting
  blocks into framed shards (`blocks`) and the receiving side of a block
  transfer (`receiver`).
- `src/mesh/` — the latency matrix between nodes (`latency_matrix`), PING /
  PONG probing that feeds it (`probe`), and shortest-path routing over it,
  including the ranked alternatives through each neighbour (`router`). The
  prober owns the live matrix; `MeshRouter::next_hop_in` and `top_paths_in`
  route over it (`prober.matrix()`) as it is at the time of the call.
- `src/config.rs` — the node configuration and its validation.
- `src/admin.rs` — the bearer-token rule of the admin endpoints.
- `src/lossy_proxy.rs` — the decisions of the loss-simulating UDP proxy.
- `src/edge/` — which edge (TCP or QUIC) a flow's returning data goes to,
  and cutting a TCP client's data into relay payloads.
- `app/` — the command-line program: configuration checking, an end-to-end
  localhost test over UDP, and the lossy proxy. It does the I/O, the random
  draws and the floating-point rates, and leaves every decision to the
  library.
- `tests/` — tests of the library on concrete values.

Calls into `reed-solomon-erasure`, `chacha20poly1305`, `getrandom`, `base64`
and `dashmap` stand behind small trusted wrappers whose contracts are
documented next to them; everything else in `src/` is verified.
