use spsim::pauli_string::{PauliString, PauliStringError};

fn build(width: usize, pairs: &[(char, u64)]) -> PauliString {
    let mut ps = PauliString::new(width);
    for &(code, pos) in pairs {
        ps = ps.set_pauli(code, pos).unwrap();
    }
    ps
}

#[test]
fn test_display_pauli_string() {
    let pauli_string = PauliString::new(2)
        .set_pauli('X', 0)
        .unwrap()
        .set_pauli('Y', 15)
        .unwrap()
        .set_pauli('Z', 63)
        .unwrap()
        .set_pauli('X', 64)
        .unwrap()
        .set_pauli('Y', 100)
        .unwrap()
        .set_pauli('Z', 127)
        .unwrap();
    let displ = pauli_string.to_string();
    let correct_displ = "XIIIIIIIIIIIIIIYIIIIIIIIIIIIIIIIIIIIIIIIIIIIIIIIIIIIIIIIIIIIIIIZXIIIIIIIIIIIIIIIIIIIIIIIIIIIIIIIIIIIYIIIIIIIIIIIIIIIIIIIIIIIIIIZ";
    assert_eq!(displ, correct_displ);
}

#[test]
fn test_mul_pauli_strings_1() {
    let lhs = build(
        2,
        &[
            ('X', 0),
            ('X', 7),
            ('X', 15),
            ('X', 23),
            ('Y', 31),
            ('Y', 39),
            ('Y', 47),
            ('Y', 55),
            ('Z', 63),
            ('Z', 64),
            ('Z', 72),
            ('Z', 80),
            ('Z', 127),
        ],
    );
    let rhs = build(
        2,
        &[
            ('X', 7),
            ('Y', 15),
            ('Z', 23),
            ('X', 39),
            ('Y', 47),
            ('Z', 55),
            ('X', 64),
            ('Y', 72),
            ('Z', 80),
            ('X', 88),
            ('Y', 96),
            ('Z', 104),
            ('Y', 127),
        ],
    );
    let correct_result = build(
        2,
        &[
            ('X', 0),
            ('Z', 15),
            ('Y', 23),
            ('Y', 31),
            ('Z', 39),
            ('X', 55),
            ('Z', 63),
            ('Y', 64),
            ('X', 72),
            ('X', 88),
            ('Y', 96),
            ('Z', 104),
            ('X', 127),
        ],
    );
    let (phase, result) = lhs.multiply(&rhs);
    assert_eq!(result, correct_result);
    assert_eq!(phase, -1);
}

#[test]
fn test_mul_pauli_strings_2() {
    let lhs = build(3, &[('X', 0), ('Y', 64), ('Z', 150)]);
    let rhs = build(3, &[('Y', 0), ('Z', 64), ('Z', 150)]);
    let (phase, result) = lhs.multiply(&rhs);
    let correct_result = build(3, &[('Z', 0), ('X', 64)]);
    assert_eq!(result, correct_result);
    assert_eq!(phase, 2);
}

#[test]
fn product_consistency_on_concrete_strings() {
    let a = build(2, &[('X', 0), ('Y', 31), ('Z', 63), ('Z', 127)]);
    let b = build(2, &[('Y', 0), ('X', 31), ('Z', 63), ('Y', 127)]);
    let (phase_ab, prod_ab) = a.multiply(&b);
    let (phase_ba, prod_ba) = b.multiply(&a);
    assert_eq!(prod_ab, prod_ba);
    assert_eq!(phase_ba, -phase_ab);
    let diff = (phase_ab - phase_ba).rem_euclid(4);
    if a.comute(&b) {
        assert_eq!(diff, 0);
    } else {
        assert_eq!(diff, 2);
    }
}

#[test]
fn associativity_up_to_phase_on_concrete_strings() {
    let a = build(1, &[('X', 0), ('Y', 5), ('Z', 11)]);
    let b = build(1, &[('Y', 0), ('Z', 5), ('X', 17)]);
    let c = build(1, &[('Z', 0), ('X', 5), ('Y', 11), ('Z', 17)]);
    let (p_ab, ab) = a.multiply(&b);
    let (p_ab_c, ab_c) = ab.multiply(&c);
    let (p_bc, bc) = b.multiply(&c);
    let (p_a_bc, a_bc) = a.multiply(&bc);
    assert_eq!(ab_c, a_bc);
    assert_eq!((p_ab + p_ab_c - p_bc - p_a_bc).rem_euclid(4), 0);
}

#[test]
fn involution_gives_identity_with_zero_phase() {
    let a = build(2, &[('X', 0), ('Y', 31), ('Z', 64), ('Y', 127)]);
    let (phase, prod) = a.multiply(&a);
    assert_eq!(phase, 0);
    assert_eq!(prod, PauliString::new(2));
}

#[test]
fn commutation_matches_phase_parity() {
    let a = build(1, &[('X', 0), ('Z', 3)]);
    let b = build(1, &[('Z', 0), ('Z', 3)]);
    let (phase, _) = a.multiply(&b);
    assert_eq!(a.comute(&b), phase % 2 == 0);
    let c = build(1, &[('X', 0), ('X', 3)]);
    let (phase_ac, _) = a.multiply(&c);
    assert_eq!(a.comute(&c), phase_ac % 2 == 0);
}

#[test]
fn hamming_counts_xor_of_bitplanes() {
    // X and Y letters set exactly one of the two planes; Z sets both, so
    // the XOR of the planes counts the X and Y letters.
    let ps = build(2, &[('X', 0), ('Y', 15), ('Z', 63), ('X', 64), ('Y', 100), ('Z', 127)]);
    assert_eq!(ps.hamming(), 4);
    assert_eq!(PauliString::new(2).hamming(), 0);
}

#[test]
fn diagonal_test_accepts_i_and_z_only() {
    let diag = build(1, &[('Z', 0), ('Z', 63)]);
    assert_eq!(diag.average(), 1);
    let off = build(1, &[('Z', 0), ('X', 63)]);
    assert_eq!(off.average(), 0);
}

#[test]
fn set_pauli_reports_out_of_bound_position() {
    let r = PauliString::new(1).set_pauli('X', 64);
    assert_eq!(r.unwrap_err(), PauliStringError::PositionOutOfBound { size: 64, position: 64 });
}

#[test]
fn set_pauli_reports_invalid_letter() {
    let r = PauliString::new(1).set_pauli('Q', 0);
    assert_eq!(r.unwrap_err(), PauliStringError::InvalidPauliCode('Q'));
}

#[test]
fn set_pauli_identity_is_a_no_op() {
    let ps = PauliString::new(1).set_pauli('I', 3).unwrap();
    assert_eq!(ps, PauliString::new(1));
}

#[test]
fn set_pauli_ors_bits_on_reused_position() {
    // Setting X then Y on one position ORs the encoded bits into Z.
    let ps = PauliString::new(1).set_pauli('X', 7).unwrap().set_pauli('Y', 7).unwrap();
    assert_eq!(ps, PauliString::new(1).set_pauli('Z', 7).unwrap());
}

#[test]
fn display_has_one_letter_per_position() {
    let ps = build(3, &[('X', 1), ('Y', 70), ('Z', 191)]);
    let text = ps.to_string();
    assert_eq!(text.len(), 192);
    assert_eq!(text.chars().nth(1), Some('X'));
    assert_eq!(text.chars().nth(70), Some('Y'));
    assert_eq!(text.chars().nth(191), Some('Z'));
    assert_eq!(text.chars().filter(|&c| c == 'I').count(), 189);
}
