//! A Heisenberg-picture Pauli-path quantum circuit simulator.
//!
//! A Pauli observable is kept as a sparse linear combination of bit-packed
//! Pauli strings.  Rotation gates `exp(-i t P)` evolve it backwards through
//! the circuit; terms whose weighted magnitude falls below a threshold are
//! pruned.  The Pauli-string algebra (product, phase, commutation, weight)
//! is specified exactly over sequences of Pauli letters and verified down
//! to the bit-level tricks; complex coefficients are carried opaquely and
//! combined through a small set of trusted arithmetic wrappers.

pub mod complex;
pub mod gate;
pub mod laws;
pub mod observable;
pub mod pauli;
pub mod pauli_string;
pub mod spsim;
