# configural

Binary-matrix primitives and lattice search for configural psychometrics:
which combinations of observations are jointly sufficient for a target.

## Layout

- `src/` — the library, written in Verus; every function carries a
  contract that Verus proves.
  - `bitset` — popcount, column packing, AND-popcount, member extraction,
    highest bit.
  - `matrix` — validation of a row-major 0/1 matrix (given as `f64` bit
    patterns) and its column-major packing.
  - `satisfaction`, `coverage` — which rows satisfy which members of an
    antichain, and how many rows an antichain covers.
  - `lattice` — the configuration lattice as specification: depth `d` is
    exactly the sets of `d` observations whose support reaches `n_min`,
    each listed once.
  - `exhaustive` — the exhaustive Apriori ascent (parents extended in
    parallel with rayon).
  - `cell_eval`, `cell` — sufficiency per cell with greedy antichain
    reduction; one cell representation for both engines.
  - `pairmi` — the constructive ascent engine with canonical-set dedup.
  - `diagnostics` — necessity and dispensability counts, quadrants.
- `app/` — the floating-point layer: statistics (Wilson bound, mutual
  information, G-test, normal quantile), the gates and shares computed
  from the library's counts, and `f64` forms of the library's types.
- `tests/` — tests of the library.
