# ikigai-throttle

Reliability overlays for resource resolution, verified with Verus. An overlay wraps a space,
whatever it is, and adds behaviour to every resolution that flows through it. Overlays nest.

| overlay | what it does |
| --- | --- |
| `RateLimit` | rejects resolutions over a rate, by URI prefix; the longest prefix wins, an unmatched target and a `Meta` request are never limited |
| `Retry` | re-issues after a transient failure, up to a number of attempts, for an idempotent verb; a `Sink` is never sent twice |
| `CircuitBreaker` | trips open after consecutive transient failures of a target, fails fast for a cooldown, then probes |

- `src/` holds the decisions, each with its contract, and the laws that relate them (the public
  proof functions whose names begin with `law_`).
- `app/` makes spaces of `ikigai-core` of them: it resolves, invokes and locks.
- `tests/` runs the library.

What is not proved, but stated of calls to the outside, is marked `external_body` in
`src/time.rs`, `src/resource.rs` and `src/rules.rs`.
