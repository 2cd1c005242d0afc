# lau-witten-reward

Witten deformation and Morse theory on reward landscapes, with a verified core.

- `src/` is the verified library (Verus). It is generic in the scalar type of
  coordinates and values and holds the topology of a landscape:
  - `morse`: critical points, Morse counts, the Euler characteristic, Betti
    numbers and the weak and strong Morse inequalities, the Euler–Poincaré
    identity, the shape and entries of the Morse boundary maps (with the
    connection strength supplied as a closure), critical points of a sampled
    1-dimensional function, and grid index arithmetic;
  - `witten`: Witten homology ranks (equal to the Betti numbers), the
    deformation of boundary maps, and the pairing of critical points with a
    spectrum;
  - `dirac`: the ℤ₂ grading, the block layout of D = d + δ on the graded
    space of forms (blocks in their degree windows, disjoint, unclipped when
    the maps compose), the grading operator Γ = (-1)^F with {D, Γ} = 0 and
    tr Γ = Σ (-1)^k c_k, and one-to-one pairing of a spectrum's ± eigenvalues;
  - `instanton`: which critical points an instanton joins, where each
    instanton lands in the tunneling matrix and in the boundary maps, and
    dim H¹.
- `app/` instantiates the library with `f64` and holds the numerics on top of
  nalgebra (finite differences, the Witten Laplacian, spectra, actions and
  amplitudes) and the serde-serialisable types.
- `tests/` exercises the library.
