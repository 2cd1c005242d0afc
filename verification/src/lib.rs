//! Witten deformation on reward landscapes: Morse theory, the Witten complex,
//! the Dirac operator and instanton tunneling between reward basins.
//!
//! This crate holds the combinatorial and topological core, verified: Morse
//! counts, the Euler characteristic, Betti numbers and the Morse inequalities,
//! the structure of boundary maps and instantons, and the block layout of the
//! Dirac operator. Numerical kernels (distances, exponentials, spectra) are
//! supplied by the caller through the scalar type `V` and closures.

pub mod dirac;
pub mod instanton;
pub mod morse;
pub mod witten;

pub use dirac::{BlockPlacement, BlockShape, DiracLayout, FermionicGrade};
pub use instanton::TunnelingCalculator;
pub use morse::{BoundaryMatrix, CriticalPoint, MorseComplex, MorseFunction};
