# lau-bridge-pattern-math

Bridges the Grand Pattern system with deep mathematics: spectral theory,
sheaves, category theory, optimal transport, simplicial homology and
thermodynamics.

## Layout

- `src/` — the verified integer core, written in Verus:
  - `fibonacci_categorification` — the Fibonacci sequence and its cache, the
    Fibonacci category's Zeckendorf representation, the free monoid on `{a, b}`
    (no `b` after `b`) with its F(n + 2) growth, and the alternating sums.
  - `topology_homology` — pattern complexes, the boundary matrices ∂₁ and ∂₂,
    Betti numbers and the Euler characteristic.
  - `row_reduction`, `row_space` — exact Gaussian elimination over the prime
    field of 2³¹ - 1 elements, the exchange lemma and the uniqueness of
    dimension.
  - `connectivity`, `boundary_rank` — connected components, and the ranks of
    the boundary matrices: β₀ counts components, and Euler–Poincaré holds when
    every triangle is filled in by its edges.
  - `graph_spectral`, `venue_sheaf`, `bridge_api`, `sunset_spectral`,
    `conservation_laws` — the integer decisions of spectral clustering, the
    sheaf's dimension bookkeeping, the bridge's event handling, the sunset modes
    and the Noether-type conservation laws.
- `app/` — the real-valued analysis (Laplacian spectra, sheaf Laplacians,
  optimal transport, JEPA geometry, fleet thermodynamics, sunset operators,
  conservation checks), the serializable forms of the library's types, and the
  bridge API, all built on the library.
- `tests/` — tests of the library.
