//! The simulator: width dispatch, an append-only list of rotation gates,
//! and the layered Heisenberg evolution of an observable.

use vstd::prelude::*;

use crate::complex::{add_of, c_one, complex_one, complex_zero};
use crate::gate::Gate;
use crate::observable::{all_commute, diagonal_sum, gate_update, lemma_terms_map_contains, Observable};
use crate::pauli::{commutes, is_diagonal, Pauli};
use crate::pauli_string::{
    code_letter, is_pauli_code, letter_or, PauliString, PauliStringError, PauliStringResult,
    MAX_CHUNKS,
};
use num_complex::Complex64;

verus! {

/// The error of asking for a width outside the supported range.
#[derive(Clone, Copy, Debug, PartialEq, Eq, Structural)]
pub struct TooManyQubits {
    pub requested: usize,
    pub max_qubits: usize,
}

/// The expectation value of a freshly seeded observable: the named one
/// when the seed string is diagonal (summed onto the named zero), else
/// the named zero.
pub open spec fn initial_average(p0: Seq<Pauli>) -> num_complex::Complex64 {
    if is_diagonal(p0) {
        add_of(complex_zero(()), complex_one(()))
    } else {
        complex_zero(())
    }
}

/// The map after one full pass over the gates in reverse insertion order.
pub open spec fn apply_reversed(
    m: Map<Seq<Pauli>, num_complex::Complex64>,
    gates: Seq<Gate>,
    bounds: Seq<num_complex::Complex64>,
) -> Map<Seq<Pauli>, num_complex::Complex64>
    decreases gates.len(),
{
    if gates.len() == 0 {
        m
    } else {
        apply_reversed(gate_update(m, gates.last(), bounds), gates.drop_last(), bounds)
    }
}

/// The all-identity string of `width` chunks, as letters.
pub open spec fn identity_letters(width: int) -> Seq<Pauli> {
    Seq::new((64 * width) as nat, |p: int| Pauli::I)
}

/// The letters described by the first `n` pairs of a (letter, position)
/// description applied to `s`, or the error of the first invalid pair:
/// a position past the end of the string, checked first, or a character
/// that names no letter.
pub open spec fn apply_desc(s: Seq<Pauli>, desc: Seq<(char, u64)>, n: int) -> PauliStringResult<
    Seq<Pauli>,
>
    decreases n,
{
    if n <= 0 {
        Ok(s)
    } else {
        match apply_desc(s, desc, n - 1) {
            Err(e) => Err(e),
            Ok(cur) => {
                if desc[n - 1].1 >= cur.len() {
                    Err(
                        PauliStringError::PositionOutOfBound {
                            size: cur.len() as usize,
                            position: desc[n - 1].1 as usize,
                        },
                    )
                } else if !is_pauli_code(desc[n - 1].0) {
                    Err(PauliStringError::InvalidPauliCode(desc[n - 1].0))
                } else {
                    Ok(
                        cur.update(
                            desc[n - 1].1 as int,
                            letter_or(cur[desc[n - 1].1 as int], code_letter(desc[n - 1].0)),
                        ),
                    )
                }
            },
        }
    }
}

proof fn lemma_apply_desc_err(s: Seq<Pauli>, desc: Seq<(char, u64)>, n: int, m: int)
    requires
        0 <= n <= m,
        apply_desc(s, desc, n).is_err(),
    ensures
        apply_desc(s, desc, m) == apply_desc(s, desc, n),
    decreases m - n,
{
    if m > n {
        lemma_apply_desc_err(s, desc, n, m - 1);
    }
}

/// Build a Pauli string of `width` chunks from a (letter, position)
/// description, positions defaulting to the identity.
pub fn build_pauli_string(width: usize, desc: &Vec<(char, u64)>) -> (r: PauliStringResult<
    PauliString,
>)
    requires
        width <= MAX_CHUNKS,
    ensures
        match r {
            Ok(ps) => {
                &&& ps.wf()
                &&& ps.chunks@.len() == width
                &&& Ok::<Seq<Pauli>, PauliStringError>(ps@) == apply_desc(
                    identity_letters(width as int),
                    desc@,
                    desc@.len() as int,
                )
            },
            Err(e) => Err::<Seq<Pauli>, PauliStringError>(e) == apply_desc(
                identity_letters(width as int),
                desc@,
                desc@.len() as int,
            ),
        },
{
    let mut ps = PauliString::new(width);
    proof {
        assert(ps@ =~= identity_letters(width as int));
    }
    let n = desc.len();
    let mut k: usize = 0;
    while k < n
        invariant
            k <= n,
            n == desc@.len(),
            ps.wf(),
            ps.chunks@.len() == width,
            width <= MAX_CHUNKS,
            Ok::<Seq<Pauli>, PauliStringError>(ps@) == apply_desc(
                identity_letters(width as int),
                desc@,
                k as int,
            ),
        decreases n - k,
    {
        let (code, pos) = desc[k];
        match ps.set_pauli(code, pos) {
            Ok(p2) => {
                ps = p2;
            },
            Err(e) => {
                proof {
                    lemma_apply_desc_err(
                        identity_letters(width as int),
                        desc@,
                        k + 1,
                        desc@.len() as int,
                    );
                }
                return Err(e);
            },
        }
        k += 1;
    }
    Ok(ps)
}

/// Heisenberg-picture Pauli-path simulator over a fixed number of chunks.
#[derive(Debug)]
pub struct SPSim {
    /// Chunk count every gate and observable string uses.
    pub width: usize,
    pub gates: Vec<Gate>,
}

impl SPSim {
    pub open spec fn wf(&self) -> bool {
        &&& 1 <= self.width <= MAX_CHUNKS
        &&& forall|i: int|
            0 <= i < self.gates@.len() ==> (#[trigger] self.gates@[i].ps.chunks@.len())
                == self.width
    }

    /// Chunk count a qubit count asks for.
    pub open spec fn spec_chunks(qubits_number: int) -> int {
        qubits_number / 64 + if qubits_number % 64 != 0 {
            1int
        } else {
            0int
        }
    }

    /// Width dispatch: an empty circuit over `ceil(qubits_number / 64)`
    /// chunks, or the error when that count is outside the supported
    /// range.
    pub fn new(qubits_number: usize) -> (r: Result<SPSim, TooManyQubits>)
        ensures
            match r {
                Ok(s) => {
                    &&& s.wf()
                    &&& s.gates@.len() == 0
                    &&& s.width == Self::spec_chunks(qubits_number as int)
                    &&& 1 <= Self::spec_chunks(qubits_number as int) <= MAX_CHUNKS
                },
                Err(e) => {
                    &&& (Self::spec_chunks(qubits_number as int) < 1 || Self::spec_chunks(
                        qubits_number as int,
                    ) > MAX_CHUNKS)
                    &&& e == (TooManyQubits { requested: qubits_number, max_qubits: 2048 })
                },
            },
    {
        let n = qubits_number / 64 + if qubits_number % 64 != 0 {
            1
        } else {
            0
        };
        if n < 1 || n > MAX_CHUNKS {
            Err(TooManyQubits { requested: qubits_number, max_qubits: 64 * MAX_CHUNKS })
        } else {
            Ok(SPSim { width: n, gates: Vec::new() })
        }
    }

    /// Number of qubits the simulator operates on.
    pub fn qubits_number(&self) -> (r: usize)
        requires
            self.wf(),
        ensures
            r == 64 * self.width,
    {
        64 * self.width
    }

    /// Append one rotation gate, built from a (letter, position)
    /// description and the caller-computed trigonometric weights; on an
    /// invalid description the circuit is left unchanged.
    pub fn add_gate(
        &mut self,
        desc: &Vec<(char, u64)>,
        cos_weight: Complex64,
        sin_weight: Complex64,
        sin_is_small: bool,
        cos_is_small: bool,
    ) -> (r: PauliStringResult<()>)
        requires
            old(self).wf(),
        ensures
            final(self).wf(),
            final(self).width == old(self).width,
            match r {
                Ok(_) => {
                    &&& apply_desc(
                        identity_letters(old(self).width as int),
                        desc@,
                        desc@.len() as int,
                    ).is_ok()
                    &&& final(self).gates@.len() == old(self).gates@.len() + 1
                    &&& (forall|i: int|
                        0 <= i < old(self).gates@.len() ==> final(self).gates@[i] == old(
                            self,
                        ).gates@[i])
                    &&& final(self).gates@.last().ps@ == apply_desc(
                        identity_letters(old(self).width as int),
                        desc@,
                        desc@.len() as int,
                    ).unwrap()
                    &&& final(self).gates@.last().cos_weight == cos_weight
                    &&& final(self).gates@.last().sin_weight == sin_weight
                    &&& final(self).gates@.last().sin_is_small == sin_is_small
                    &&& final(self).gates@.last().cos_is_small == cos_is_small
                },
                Err(e) => {
                    &&& Err::<Seq<Pauli>, PauliStringError>(e) == apply_desc(
                        identity_letters(old(self).width as int),
                        desc@,
                        desc@.len() as int,
                    )
                    &&& final(self).gates@ == old(self).gates@
                },
            },
    {
        let ps = match build_pauli_string(self.width, desc) {
            Ok(p) => p,
            Err(e) => {
                return Err(e);
            },
        };
        let gate = Gate::new(ps, cos_weight, sin_weight, sin_is_small, cos_is_small);
        self.gates.push(gate);
        Ok(())
    }

    /// Apply every gate once, in reverse insertion order: the observable's
    /// map becomes the fold of `gate_update` over the reversed gate list.
    pub fn run_layer(&self, obs: &mut Observable, prune_bounds: &Vec<Complex64>)
        requires
            self.wf(),
            old(obs).wf(),
            old(obs).width == self.width,
            prune_bounds@.len() > 64 * self.width,
        ensures
            final(obs).wf(),
            final(obs).width == self.width,
            final(obs).as_map() == apply_reversed(old(obs).as_map(), self.gates@, prune_bounds@),
            (forall|i: int|
                0 <= i < self.gates@.len() ==> all_commute(
                    old(obs).as_map().dom(),
                    (#[trigger] self.gates@[i]).ps@,
                )) ==> (final(obs).terms@.len() == old(obs).terms@.len() && forall|j: int|
                0 <= j < old(obs).terms@.len() ==> (#[trigger] final(obs).terms@[j]).key@ == old(
                    obs,
                ).terms@[j].key@ && final(obs).terms@[j].coeff == old(obs).terms@[j].coeff),
    {
        proof {
            assert(self.gates@.subrange(0, self.gates@.len() as int) =~= self.gates@);
        }
        let mut g = self.gates.len();
        while g > 0
            invariant
                g <= self.gates@.len(),
                self.wf(),
                obs.wf(),
                obs.width == self.width,
                prune_bounds@.len() > 64 * self.width,
                apply_reversed(obs.as_map(), self.gates@.subrange(0, g as int), prune_bounds@)
                    == apply_reversed(old(obs).as_map(), self.gates@, prune_bounds@),
                (forall|i: int|
                    0 <= i < self.gates@.len() ==> all_commute(
                        old(obs).as_map().dom(),
                        (#[trigger] self.gates@[i]).ps@,
                    )) ==> (obs.as_map() == old(obs).as_map() && obs.terms@.len() == old(
                    obs,
                ).terms@.len() && forall|j: int|
                    0 <= j < old(obs).terms@.len() ==> (#[trigger] obs.terms@[j]).key@ == old(
                        obs,
                    ).terms@[j].key@ && obs.terms@[j].coeff == old(obs).terms@[j].coeff),
            decreases g,
        {
            g -= 1;
            let ghost pre = obs.as_map();
            let ghost preterms = obs.terms@;
            obs.apply_gate(&self.gates[g], prune_bounds);
            proof {
                if forall|i: int|
                    0 <= i < self.gates@.len() ==> all_commute(
                        old(obs).as_map().dom(),
                        (#[trigger] self.gates@[i]).ps@,
                    ) {
                    assert(all_commute(old(obs).as_map().dom(), self.gates@[g as int].ps@));
                    assert(all_commute(pre.dom(), self.gates@[g as int].ps@));
                }
                let sub = self.gates@.subrange(0, g + 1);
                assert(sub.last() == self.gates@[g as int]);
                assert(sub.drop_last() =~= self.gates@.subrange(0, g as int));
                assert(apply_reversed(pre, sub, prune_bounds@) == apply_reversed(
                    gate_update(pre, self.gates@[g as int], prune_bounds@),
                    self.gates@.subrange(0, g as int),
                    prune_bounds@,
                ));
            }
        }
        proof {
            assert(self.gates@.subrange(0, 0) =~= Seq::<Gate>::empty());
        }
    }

    /// Evolve the observable described by `observable_description`
    /// backwards through `layers_number` repetitions of the circuit and
    /// return the expectation value before each layer and after the last:
    /// `layers_number + 1` values.
    ///
    /// `prune_bounds[h]` holds the pruning threshold scaled by
    /// `2^(h * decay / 2)`, precomputed by the caller for every weight `h`
    /// up to the qubit count.
    pub fn execute(
        &self,
        observable_description: &Vec<(char, u64)>,
        layers_number: usize,
        prune_bounds: &Vec<Complex64>,
    ) -> (r: PauliStringResult<Vec<Complex64>>)
        requires
            self.wf(),
            prune_bounds@.len() > 64 * self.width,
        ensures
            match r {
                Ok(v) => {
                    &&& v@.len() == layers_number + 1
                    &&& apply_desc(
                        identity_letters(self.width as int),
                        observable_description@,
                        observable_description@.len() as int,
                    ).is_ok()
                    &&& v@[0] == initial_average(
                        apply_desc(
                            identity_letters(self.width as int),
                            observable_description@,
                            observable_description@.len() as int,
                        ).unwrap(),
                    )
                    &&& (forall|i: int|
                        0 <= i < self.gates@.len() ==> commutes(
                            apply_desc(
                                identity_letters(self.width as int),
                                observable_description@,
                                observable_description@.len() as int,
                            ).unwrap(),
                            (#[trigger] self.gates@[i]).ps@,
                        )) ==> forall|l: int|
                        0 <= l < v@.len() ==> v@[l] == initial_average(
                            apply_desc(
                                identity_letters(self.width as int),
                                observable_description@,
                                observable_description@.len() as int,
                            ).unwrap(),
                        )
                },
                Err(e) => Err::<Seq<Pauli>, PauliStringError>(e) == apply_desc(
                    identity_letters(self.width as int),
                    observable_description@,
                    observable_description@.len() as int,
                ),
            },
    {
        let ps = match build_pauli_string(self.width, observable_description) {
            Ok(p) => p,
            Err(e) => {
                return Err(e);
            },
        };
        let ghost p0 = ps@;
        let mut obs = Observable::new(ps, c_one());
        proof {
            assert(diagonal_sum(obs.terms@, 0) == complex_zero(()));
            assert(obs.terms@[0].key@ == p0 && obs.terms@[0].coeff == complex_one(()));
            assert(diagonal_sum(obs.terms@, 1) == initial_average(p0));
        }
        let mut dynamics: Vec<Complex64> = Vec::new();
        let mut layer: usize = 0;
        while layer < layers_number
            invariant
                layer <= layers_number,
                dynamics@.len() == layer,
                self.wf(),
                obs.wf(),
                obs.width == self.width,
                prune_bounds@.len() > 64 * self.width,
                layer == 0 ==> diagonal_sum(obs.terms@, obs.terms@.len() as int)
                    == initial_average(p0),
                dynamics@.len() > 0 ==> dynamics@[0] == initial_average(p0),
                (forall|i: int|
                    0 <= i < self.gates@.len() ==> commutes(p0, (#[trigger] self.gates@[i]).ps@))
                    ==> (obs.terms@.len() == 1 && obs.terms@[0].key@ == p0 && obs.terms@[0].coeff
                    == crate::complex::complex_one(())),
                (forall|i: int|
                    0 <= i < self.gates@.len() ==> commutes(p0, (#[trigger] self.gates@[i]).ps@))
                    ==> forall|l: int|
                    0 <= l < dynamics@.len() ==> dynamics@[l] == initial_average(p0),
            decreases layers_number - layer,
        {
            dynamics.push(obs.get_average());
            proof {
                if forall|i: int|
                    0 <= i < self.gates@.len() ==> commutes(p0, (#[trigger] self.gates@[i]).ps@) {
                    assert(diagonal_sum(obs.terms@, 0) == complex_zero(()));
                    assert(obs.terms@[0].key@ == p0 && obs.terms@[0].coeff == complex_one(()));
                    assert(diagonal_sum(obs.terms@, 1) == initial_average(p0));
                    assert forall|i: int| 0 <= i < self.gates@.len() implies all_commute(
                        obs.as_map().dom(),
                        (#[trigger] self.gates@[i]).ps@,
                    ) by {
                        assert forall|k: Seq<Pauli>| #[trigger]
                            obs.as_map().dom().contains(k) implies commutes(
                            k,
                            self.gates@[i].ps@,
                        ) by {
                            lemma_terms_map_contains(obs.terms@, k);
                            let q = choose|q: int|
                                0 <= q < obs.terms@.len() && #[trigger] obs.terms@[q].key@ == k;
                            assert(k == p0);
                        }
                    }
                }
            }
            self.run_layer(&mut obs, prune_bounds);
            layer += 1;
        }
        proof {
            if forall|i: int|
                0 <= i < self.gates@.len() ==> commutes(p0, (#[trigger] self.gates@[i]).ps@) {
                assert(diagonal_sum(obs.terms@, 0) == complex_zero(()));
                assert(obs.terms@[0].key@ == p0 && obs.terms@[0].coeff == complex_one(()));
                assert(diagonal_sum(obs.terms@, 1) == initial_average(p0));
            }
        }
        dynamics.push(obs.get_average());
        Ok(dynamics)
    }
}

} // verus!
