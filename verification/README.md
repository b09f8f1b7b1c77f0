# conservation

Exact conservation-law bookkeeping for typed quantitative systems, verified with Verus.

The library (`src/`) is organised by concern:

- `rational`, `text`, `format`, `ident`, `table`: exact rationals over `num-rational`,
  identifiers, and identifier-keyed tables.
- `law`, `entries`, `trace`, `record`, `evidence`, `witness`, `laws`, `suite`: balance laws
  over kinds and the checking of recorded traces against them.
- `linear`, `certificate`: exact left-nullspace derivation of a transition matrix and
  certification of conservation laws against it.
- `kind`, `test_kinds`, `declarations`: the conserved-kind interface, the test kinds, and
  validation of declared kind tables.
- `dynamics`, `exact`, `system`, `settlement`, `carrier`, `permutation`: stock–flow
  topologies and exact proportional settlement.
- `exchange`, `engine`: indivisible exact exchanges — the expression and constraint
  language, canonical requests, the state transition, and the engine that prepares,
  deduplicates and publishes them.

`app/` holds what cannot be verified: floating-point dense settlement, the JSON snapshot
format of an exchange engine (restored by replaying its committed requests through the
library), and process-level plumbing. `tests/` exercises the library through its public interface.
