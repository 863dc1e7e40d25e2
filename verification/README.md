# remote_worker

A verified in-process remote-worker pipeline for fuzzing stages, with the
logic of the example fuzz targets that exercise it.

- `src/queue.rs`: the work and result messages and the FIFO queue between
  the stages, modelled by `QueueState`; the queue laws.
- `src/stages.rs`: the launcher, mutational launcher and collector stages.
  Each stage decides what one run does; the caller executes the target,
  mutates inputs and evaluates results, and reports back. The collector's
  runs are modelled by `collector_next`, with the law that a run executes its
  packages in order and then evaluates their results in order.
- `src/gcd.rs`, `src/text.rs`, `src/solution.rs`: the "gcd with a doubled
  partner" target: Euclid's gcd, the stable parity sort, the pair count, the
  text format and the run over fuzzer bytes with its coverage points.
- `src/harness.rs`: the tar target, reading archives with the `tar` crate.
- `src/settings.rs`, `src/signals.rs`: the tar fuzzer's worker settings, the
  coverage map and the broker test's target.
- `app/main.rs`: the stand-alone gcd program on standard input.
