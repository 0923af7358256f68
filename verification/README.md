# faultline

A deterministic simulation tester for distributed systems, written and verified
in Verus. It runs a distributed system inside a fully simulated world -- one seed
drives all randomness and all execution -- injects faults (dropped and reordered
messages, network partitions, node crashes), checks consistency after every run,
and when it finds a violation it reproduces it exactly from the seed and shrinks
it to the essential operations.

Two systems are under test: a primary-backup key-value store, which is buggy when
backups serve reads, and Raft.

## What is proved

Every function of the library has a contract that names its result. On top of
these stand the laws of the library, among them:

- A run is a function of its seed and its configuration (`runner::run`,
  `raft_runner::run`).
- With reads from the primary only, no seed and no fault model makes the
  key-value store violate consistency, and its histories are linearizable
  (`runner::primary_reads_never_violate`, `runner::primary_reads_are_linearizable`).
- What the cheap consistency check reports is never linearizable
  (`runner::violations_are_real`).
- The full check decides linearizability exactly
  (`linearizability::is_linearizable`).
- A shrunk history still fails, and nothing more can be left out
  (`shrink::shrunk_is_minimal`).
- Raft is safe: without the injected bug, no run ever has two leaders in one term
  or committed logs that disagree (`raft_safety::raft_is_safe`), and what a node
  considers committed is never taken back (`raft_safety::commits_are_durable`).

## Layout

```
src/
  sim/rng.rs         the single seeded PRNG (SplitMix64)
  sim/scheduler.rs   logical-time event queue
  net.rs             simulated network: drop / delay / reorder / partition
  faults.rs          which fault a draw injects
  kv.rs              system under test: primary-backup replicated KV
  runner.rs          drives clients and faults, records an operation history
  checker.rs         monotonic-read check over the history
  linearizability.rs full linearizability check of a register
  shrink.rs          minimizes a failing history
  raft.rs            system under test: a Raft node
  raft_runner.rs     drives a Raft cluster and checks its safety
  raft_range.rs      a Raft run stays within the range of its counters
  raft_cluster.rs    the invariant of a Raft cluster and its history
  raft_safety.rs     every Raft run is safe
  counting.rs        majorities
  text.rs            decimal numbers
app/                 the command line
tests/               tests
```

Probabilities are multiples of 2^-53 (`sim::Prob`): a chance of `p` is the
threshold `ceil(p * 2^53)`.
