# faultsim

A discrete-event simulator for studying how failure detectors misclassify
healthy nodes under jitter, drops, churn and partitions, written in Verus.

## Layout

- `src/` — the verified library:
  - `clock.rs`, `node.rs` — simulation time and cluster nodes;
  - `event.rs` — events and the event queue (earliest tick first; events with
    the same tick leave in the order they were scheduled);
  - `network.rs` — latency, jitter, drops and partitions;
  - `random.rs` — the seeded `rand` generator behind every random draw; it
    records its seed and the draws made, and each draw's outcome is named as
    a function of them, so a run's random choices are fixed by its seed;
  - `node_map.rs` — small maps keyed by node id, walked in insertion order;
  - `detector/` — the detector trait, the fixed-timeout and gossip-assisted
    detectors, and the sliding windows of inter-arrival samples that the
    accrual detectors read;
  - `metrics.rs` — what a run records and the counts derived from it;
  - `engine.rs` — the event loop and its handlers; `Engine::run` is specified
    as a sequence of steps, each handling the earliest due event as
    `Engine::handled` describes; `law_runs_are_reproducible` shows that two
    runs from alike states end alike, for detectors that are functions of
    their state (both detectors here are: `law_fixed_timeout_is_deterministic`,
    `law_gossip_is_deterministic`);
  - `config.rs`, `scenario.rs` — scenario settings and the engine builder.
- `app/` — the command-line program: TOML scenario files, the detectors whose
  decisions are floating point (EWMA, φ accrual, adaptive accrual and the
  windowed-maximum custom detector), the floating-point statistics, and the
  CSV/JSON exports.
- `tests/` — tests of the library.

## Drop probability

The network draws drops from the same 53-bit fraction that `rand` turns into
a uniform float in [0, 1); the library keeps the probability as a count out
of 2^53 (`NetworkConfig::drop_chance`), and the program converts the
scenario's `drop_probability` to it, so a message is dropped under exactly the
same draws as with the floating-point comparison.
