# a1_switch

The control plane of a link-state switch program, verified with Verus.

- `src/protocol.rs` — the binary HELLO/LSA wire format: encoders, a decoder
  that rejects every malformed input, canonical advertisements, and round-trip
  laws.
- `src/routing.rs` — the mutual-adjacency graph, breadth-first distances, and
  the desired exact-host routes (lowest-origin ownership, lowest
  neighbor-then-port tie break), with the proof that following next hops
  strictly lowers the distance to the owner and so never loops.
- `src/switch.rs` — per-switch state: neighbor liveness, customer discovery,
  LSDB flooding and repair, and the budgeted route-table diff with its laws.
- `src/events.rs` — the punt and timer callbacks as whole steps of the state
  machine, their output budget, and the well-formedness every callback keeps.
- `src/ordered.rs` — ascending listings of the ordered std collections.
- `app/` — the host glue: table and program setup, and conversion between the
  host's event and action types and the library's.
