use num_complex::Complex64;
use spsim::gate::Gate;
use spsim::observable::{Observable, Term};
use spsim::pauli_string::{PauliString, PauliStringError};
use spsim::spsim::{SPSim, TooManyQubits};

const EPS: f64 = 1e-10;

fn gate_parts(time: f64) -> (Complex64, Complex64, bool, bool) {
    let cos_weight = Complex64::new((2.0 * time).cos(), 0.0);
    let sin_weight = Complex64::new(0.0, -(2.0 * time).sin());
    (cos_weight, sin_weight, sin_weight.norm() < EPS, cos_weight.norm() < EPS)
}

fn prune_bounds(qubits: usize, threshold: f64, decay: f64) -> Vec<Complex64> {
    (0..=qubits)
        .map(|h| Complex64::new(threshold * 2f64.powf(h as f64 * decay / 2.0), 0.0))
        .collect()
}

fn add_timed_gate(sim: &mut SPSim, desc: &Vec<(char, u64)>, time: f64) {
    let (c, s, ss, cs) = gate_parts(time);
    sim.add_gate(desc, c, s, ss, cs).unwrap();
}

fn timed_gate(width: usize, pairs: &[(char, u64)], time: f64) -> Gate {
    let mut ps = PauliString::new(width);
    for &(code, pos) in pairs {
        ps = ps.set_pauli(code, pos).unwrap();
    }
    let (c, s, ss, cs) = gate_parts(time);
    Gate::new(ps, c, s, ss, cs)
}

#[test]
fn single_gate_expectation() {
    // One gate exp(-i t X_0) on the observable Z_0: the output is
    // [1, cos(2t)].
    let t = 0.3f64;
    let mut sim = SPSim::new(2).unwrap();
    add_timed_gate(&mut sim, &vec![('X', 0)], t);
    let bounds = prune_bounds(sim.qubits_number(), 0.0, 1.0);
    let out = sim.execute(&vec![('Z', 0)], 1, &bounds).unwrap();
    assert_eq!(out.len(), 2);
    assert_eq!(out[0], Complex64::new(1.0, 0.0));
    assert_eq!(out[1], Complex64::new((2.0 * t).cos(), 0.0));
}

#[test]
fn commuting_gate_leaves_average() {
    let t = 0.3f64;
    let mut sim = SPSim::new(1).unwrap();
    add_timed_gate(&mut sim, &vec![('Z', 0)], t);
    let bounds = prune_bounds(sim.qubits_number(), 0.0, 1.0);
    let out = sim.execute(&vec![('Z', 0)], 1, &bounds).unwrap();
    assert_eq!(out, vec![Complex64::new(1.0, 0.0), Complex64::new(1.0, 0.0)]);
}

#[test]
fn pruning_drops_rotated_term() {
    // At t = pi/4 the Z_0 term is moved to Y_0 with coefficient of
    // modulus 1, which the threshold 2 prunes away.
    let t = std::f64::consts::FRAC_PI_4;
    let mut sim = SPSim::new(1).unwrap();
    add_timed_gate(&mut sim, &vec![('X', 0)], t);
    let bounds = prune_bounds(sim.qubits_number(), 2.0, 1.0);
    let out = sim.execute(&vec![('Z', 0)], 1, &bounds).unwrap();
    assert_eq!(out, vec![Complex64::new(1.0, 0.0), Complex64::new(0.0, 0.0)]);
}

#[test]
fn zero_time_gate_is_identity_term_for_term() {
    let z0 = PauliString::new(1).set_pauli('Z', 0).unwrap();
    let mut obs = Observable::new(z0, Complex64::ONE);
    let gate = timed_gate(1, &[('X', 0)], 0.0);
    let bounds = prune_bounds(64, 0.0, 1.0);
    obs.apply_gate(&gate, &bounds);
    assert_eq!(obs.terms.len(), 1);
    assert_eq!(obs.terms[0].key, PauliString::new(1).set_pauli('Z', 0).unwrap());
    assert_eq!(obs.terms[0].coeff, Complex64::ONE);
}

#[test]
fn identity_gate_leaves_observable_for_any_time() {
    let z0 = PauliString::new(1).set_pauli('Z', 0).unwrap();
    let x3 = PauliString::new(1).set_pauli('X', 3).unwrap();
    let mut obs = Observable {
        width: 1,
        terms: vec![
            Term { key: z0, coeff: Complex64::new(0.5, 0.25) },
            Term { key: x3, coeff: Complex64::new(-0.125, 1.5) },
        ],
    };
    let gate = timed_gate(1, &[], 0.7);
    let bounds = prune_bounds(64, 0.0, 1.0);
    obs.apply_gate(&gate, &bounds);
    assert_eq!(obs.terms.len(), 2);
    assert_eq!(obs.terms[0].key, PauliString::new(1).set_pauli('Z', 0).unwrap());
    assert_eq!(obs.terms[0].coeff, Complex64::new(0.5, 0.25));
    assert_eq!(obs.terms[1].key, PauliString::new(1).set_pauli('X', 3).unwrap());
    assert_eq!(obs.terms[1].coeff, Complex64::new(-0.125, 1.5));
}

#[test]
fn gate_round_trip_restores_observable() {
    let t = 0.3f64;
    let z0 = PauliString::new(1).set_pauli('Z', 0).unwrap();
    let mut obs = Observable::new(z0, Complex64::ONE);
    let forward = timed_gate(1, &[('X', 0)], t);
    let backward = timed_gate(1, &[('X', 0)], -t);
    let bounds = prune_bounds(64, 0.0, 1.0);
    obs.apply_gate(&forward, &bounds);
    obs.apply_gate(&backward, &bounds);
    let z_key = PauliString::new(1).set_pauli('Z', 0).unwrap();
    let y_key = PauliString::new(1).set_pauli('Y', 0).unwrap();
    let mut z_coeff = None;
    for term in &obs.terms {
        if term.key == z_key {
            z_coeff = Some(term.coeff);
        } else {
            assert_eq!(term.key, y_key);
            assert_eq!(term.coeff, Complex64::new(0.0, 0.0));
        }
    }
    let z = z_coeff.unwrap();
    assert!((z - Complex64::ONE).norm() < 1e-12);
}

#[test]
fn pruning_is_monotone_in_threshold_and_decay() {
    let t = 0.4f64;
    let run = |threshold: f64, decay: f64| -> usize {
        let z0 = PauliString::new(1).set_pauli('Z', 0).unwrap();
        let mut obs = Observable::new(z0, Complex64::ONE);
        let gate = timed_gate(1, &[('X', 0)], t);
        let bounds = prune_bounds(64, threshold, decay);
        obs.apply_gate(&gate, &bounds);
        obs.terms.len()
    };
    assert!(run(0.1, 1.0) >= run(0.7, 1.0));
    assert!(run(0.7, 1.0) >= run(0.9, 1.0));
    assert!(run(0.5, 0.0) >= run(0.5, 4.0));
}

#[test]
fn width_dispatch_rejects_too_many_qubits() {
    let err = SPSim::new(64 * 33).unwrap_err();
    assert_eq!(err, TooManyQubits { requested: 64 * 33, max_qubits: 2048 });
    assert!(SPSim::new(0).is_err());
    assert_eq!(SPSim::new(1).unwrap().qubits_number(), 64);
    assert_eq!(SPSim::new(65).unwrap().qubits_number(), 128);
    assert_eq!(SPSim::new(2048).unwrap().qubits_number(), 2048);
}

#[test]
fn failed_add_gate_leaves_circuit_unchanged() {
    let mut sim = SPSim::new(1).unwrap();
    add_timed_gate(&mut sim, &vec![('Z', 0)], 0.1);
    let (c, s, ss, cs) = gate_parts(0.2);
    let err = sim.add_gate(&vec![('X', 0), ('Q', 1)], c, s, ss, cs).unwrap_err();
    assert_eq!(err, PauliStringError::InvalidPauliCode('Q'));
    let (c, s, ss, cs) = gate_parts(0.2);
    let err = sim.add_gate(&vec![('X', 0), ('X', 64)], c, s, ss, cs).unwrap_err();
    assert_eq!(err, PauliStringError::PositionOutOfBound { size: 64, position: 64 });
    assert_eq!(sim.gates.len(), 1);
}

#[test]
fn execute_rejects_bad_observable_description() {
    let mut sim = SPSim::new(1).unwrap();
    add_timed_gate(&mut sim, &vec![('Z', 0)], 0.1);
    let bounds = prune_bounds(sim.qubits_number(), 0.0, 1.0);
    let err = sim.execute(&vec![('W', 0)], 1, &bounds).unwrap_err();
    assert_eq!(err, PauliStringError::InvalidPauliCode('W'));
}

#[test]
fn layers_repeat_the_circuit() {
    // k layers of exp(-i t X_0) compose to exp(-i k t X_0), so the average
    // of Z_0 after layer k is cos(2 k t).
    let t = 0.2f64;
    let mut sim = SPSim::new(1).unwrap();
    add_timed_gate(&mut sim, &vec![('X', 0)], t);
    let bounds = prune_bounds(sim.qubits_number(), 0.0, 1.0);
    let out = sim.execute(&vec![('Z', 0)], 3, &bounds).unwrap();
    assert_eq!(out.len(), 4);
    for k in 0..4 {
        assert!((out[k].re - (2.0 * t * k as f64).cos()).abs() < 1e-12);
        assert_eq!(out[k].im, 0.0);
    }
}
