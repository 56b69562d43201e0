//! Exact-arithmetic simplex solver.
//!
//! Linear programs (maximize a linear objective subject to linear constraints
//! and non-negativity) are solved with the simplex method over an exact
//! fraction type, so that pivot decisions and feasibility checks are never
//! corrupted by floating-point round-off.  The fraction type models signed
//! infinities and signed zeros through sentinel encodings, which lets Big-M
//! penalty costs combine correctly under the ordinary arithmetic operators.

pub mod fraction;
pub mod rational;
pub mod solver;
pub mod tableau;
