# quorum

A deterministic Raft consensus simulator, verified with Verus.

- `src/message.rs`, `src/node.rs`, `src/rng.rs`: the message types, a node
  with its role, term, vote and log, and the seeded xorshift64* generator.
- `src/model.rs`: the simulation as a mathematical state machine
  (`SimulationView`): every operation of `Simulation` is a spec function
  from one view to the next.
- `src/sim.rs`: the executable `Simulation`; each operation's contract is
  that its result is the model's next state. It also runs a scenario that
  feeds client commands to the leader as ticks go by, and picks the node
  with the most committed entries.
- `src/text.rs`: the event trace lines.
- `src/invariants.rs`: every operation keeps the simulation well formed,
  which is what keeps it free of panics.
- `src/safety.rs`: at most one leader per term, in every state that `new`
  and the public operations can produce, and, once a node has won a term,
  no other node ever leads it.
- `src/laws.rs`: the term rule (a higher term also clears a vote unless it
  came with a vote request), the vote rule, one vote per term across calls,
  one leader per term after a tick, the commit rule, leader bookkeeping in
  bounds, replays, and what a successful AppendEntries leaves in a
  follower's log.
- `app/main.rs`: the `quorum run` command line.
