//! One Pauli rotation gate `exp(-i t P)`.

use vstd::prelude::*;

use crate::pauli_string::PauliString;
use num_complex::Complex64;

verus! {

/// An immutable Pauli rotation.  Callers supply the trigonometric weights
/// `cos(2t)` and `-i sin(2t)` together with their two near-zero tests
/// against the case epsilon, all derived from the rotation time `t`; the
/// gate stores what the Heisenberg update reads.
#[derive(Debug)]
pub struct Gate {
    pub ps: PauliString,
    /// `cos(2t)` as a complex number.
    pub cos_weight: Complex64,
    /// `-i sin(2t)` as a complex number.
    pub sin_weight: Complex64,
    /// Whether `|sin(2t)|` is below the case epsilon: the rotation only
    /// rescales non-commuting terms.
    pub sin_is_small: bool,
    /// Whether `|cos(2t)|` is below the case epsilon: non-commuting terms
    /// are moved to their product key instead of being split.
    pub cos_is_small: bool,
}

impl Gate {
    pub fn new(
        ps: PauliString,
        cos_weight: Complex64,
        sin_weight: Complex64,
        sin_is_small: bool,
        cos_is_small: bool,
    ) -> (r: Gate)
        ensures
            r.ps == ps,
            r.cos_weight == cos_weight,
            r.sin_weight == sin_weight,
            r.sin_is_small == sin_is_small,
            r.cos_is_small == cos_is_small,
    {
        Gate { ps, cos_weight, sin_weight, sin_is_small, cos_is_small }
    }

    pub fn get_pauli_string(&self) -> (r: &PauliString)
        ensures
            r == &self.ps,
    {
        &self.ps
    }
}

} // verus!
