# phase1-coordinator

A verified coordinator for a chunked, multi-party "powers of tau" setup ceremony.
Participants wait in a queue ordered by reliability; each round splits the chunks into
one bucket per contributor, every contributor walks all chunks starting at its own
bucket, locks one chunk at a time, hands in a contribution, and verifiers check the
contributions in order. Dropping a contributor withdraws its work, hands its tasks to the
coordinator's own contributor and restarts the contributors whose buckets come first.

The library is written in Verus. Every operation is specified by a function from the
coordinator's mathematical state to the next state (or the error it answers with), and
the executable code is proved to follow it and to keep the state well formed.

Layout of `src/`:

- `task.rs`: tasks and the per-bucket schedule of a round.
- `participant.rs`: participants, their names and keys.
- `environment.rs`: ceremony parameters and the number of chunks they give.
- `info.rs`: a contributor's record of assigned, pending, completed and withdrawn tasks.
- `locator.rs`: contribution file names, with a parser proved to invert them.
- `round.rs`: a snapshot of a round's chunks and contributions.
- `state.rs`: the coordinator's state, its well-formedness, and each operation.
- `coordinator.rs`: the public coordinator, whose type invariant is well-formedness.
- `laws.rs`: properties of the library as a whole.
