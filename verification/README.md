# racah

Exact Racah–Wigner calculus for compact Lie groups, written in Verus: every
public function of the library carries a `requires`/`ensures` contract, and
Verus proves each function against its contract.

## What is proved

- **SU(2)** (`su2`, `symmetry3j`): admissibility, the Regge-canonical keys of
  3j and 6j symbols, Wigner 3j / 6j and Clebsch–Gordan coefficients as signed
  square roots of rationals (`exact`), the F-symbol, the R-symbol sign and the
  Frobenius–Schur sign; the classical symmetry laws of 3j and 6j symbols.
- **SO(N) / Sp(2N)** (`bcd`, `weyl`): irrep labels (Dynkin ⇄ partition),
  duals, Frobenius–Schur indicators, Weyl dimensions, Weyl orbits, the exact
  Freudenthal weight multiplicities, and the Racah–Speiser tensor-product
  decomposition; the laws in `fusion` (the decomposition is determined by
  its factors, and is twisted by duality) and `duality` (dualising keeps the
  dimension and the weight multiplicities).
- **Candidate parents** (`catalog`): the irreps below a given irrep in the
  order `(box count, dim, dynkin)`, complete and sorted by `(dim, dynkin)`.
- **Generator seeds** (`seeds`, `spinor`): the defining and spinor seeds of
  the B, C, D series, and an exact check of their commutator relations.
- **Group forms** (`group`): simply connected covers and their quotients, and
  which Dynkin labels each admits.
- **Caches** (`cache`): budgets for the coefficient caches and a FIFO cache
  whose byte and entry caps hold after every operation.
- **Prime factorisations** (`primefactor`): exponent vectors, factorials and
  the arithmetic on them.

Big integers and rationals come from `num-bigint` and `num-rational`; the
calls go through the small trusted wrappers of `bignum`, each of which states
what the library promises of the call.

## Layout

- `src/` — the verified library.
- `tests/` — tests on concrete values.
- `app/` — the parts that are not verified: floating-point conversions, the
  process-wide caches around the coefficient functions, and error types with
  `Display`.
