//! The algebraic laws of the Pauli-string product: symmetry of the product
//! letters, antisymmetry of the phase, associativity up to phase,
//! involution, the commutation criterion and the popcount form of the
//! weight.

use vstd::prelude::*;

use crate::pauli::{
    all_identity, commutes, letter_mul, letter_phase, phase_sum, phase_upto, popcount64, seq_mul,
    xy_weight, xy_weight_upto, lemma_chunk_weight_counts, Pauli, PauliChunk,
};
use crate::pauli_string::{lemma_weight_block, string_letters};
use vstd::arithmetic::div_mod::{lemma_fundamental_div_mod, lemma_mod_multiples_vanish};

verus! {

proof fn lemma_phase_antisym_upto(a: Seq<Pauli>, b: Seq<Pauli>, n: int)
    ensures
        phase_upto(b, a, n) == -phase_upto(a, b, n),
    decreases n,
{
    if n > 0 {
        lemma_phase_antisym_upto(a, b, n - 1);
        assert(letter_phase(b[n - 1], a[n - 1]) == -letter_phase(a[n - 1], b[n - 1]));
    }
}

/// The product letters of `a * b` and `b * a` agree, the two phases are
/// opposite, and their difference is `0 mod 4` exactly when the strings
/// commute and `2 mod 4` otherwise (so the two products differ by the
/// factor `i^2 == -1` exactly on non-commuting strings).
pub proof fn lemma_product_consistency(a: Seq<Pauli>, b: Seq<Pauli>)
    requires
        a.len() == b.len(),
    ensures
        seq_mul(a, b) == seq_mul(b, a),
        phase_sum(b, a) == -phase_sum(a, b),
        (phase_sum(a, b) - phase_sum(b, a)) % 4 == if commutes(a, b) {
            0int
        } else {
            2int
        },
{
    assert forall|p: int| 0 <= p < a.len() implies seq_mul(a, b)[p] == seq_mul(b, a)[p] by {
        assert(letter_mul(a[p], b[p]) == letter_mul(b[p], a[p]));
    }
    assert(seq_mul(a, b) =~= seq_mul(b, a));
    lemma_phase_antisym_upto(a, b, a.len() as int);
    let ph = phase_sum(a, b);
    assert(phase_sum(a, b) - phase_sum(b, a) == 2 * ph);
    lemma_fundamental_div_mod(ph, 2);
    let q = ph / 2;
    let r = ph % 2;
    assert(0 <= r < 2);
    assert(2 * ph == 4 * q + 2 * r);
    lemma_mod_multiples_vanish(q, 2 * r, 4);
    assert((4 * q + 2 * r) % 4 == (2 * r) % 4);
    if commutes(a, b) {
        assert(r == 0);
    } else {
        assert(r == 1);
    }
}

/// How far the phases of the two ways of multiplying three letters are
/// apart; always a multiple of 4.
pub open spec fn assoc_phase_defect(x: Pauli, y: Pauli, z: Pauli) -> int {
    letter_phase(x, y) + letter_phase(letter_mul(x, y), z) - letter_phase(y, z) - letter_phase(
        x,
        letter_mul(y, z),
    )
}

proof fn lemma_letter_assoc(x: Pauli, y: Pauli, z: Pauli)
    ensures
        letter_mul(letter_mul(x, y), z) == letter_mul(x, letter_mul(y, z)),
        assoc_phase_defect(x, y, z) == 0 || assoc_phase_defect(x, y, z) == 4 || assoc_phase_defect(
            x,
            y,
            z,
        ) == -4,
{
}

proof fn lemma_assoc_phase_upto(a: Seq<Pauli>, b: Seq<Pauli>, c: Seq<Pauli>, n: int)
    requires
        a.len() == b.len(),
        b.len() == c.len(),
        n <= a.len(),
    ensures
        (phase_upto(a, b, n) + phase_upto(seq_mul(a, b), c, n) - phase_upto(b, c, n) - phase_upto(
            a,
            seq_mul(b, c),
            n,
        )) % 4 == 0,
    decreases n,
{
    if n <= 0 {
    } else {
        lemma_assoc_phase_upto(a, b, c, n - 1);
        lemma_letter_assoc(a[n - 1], b[n - 1], c[n - 1]);
        let prev = phase_upto(a, b, n - 1) + phase_upto(seq_mul(a, b), c, n - 1) - phase_upto(
            b,
            c,
            n - 1,
        ) - phase_upto(a, seq_mul(b, c), n - 1);
        let cur = phase_upto(a, b, n) + phase_upto(seq_mul(a, b), c, n) - phase_upto(b, c, n)
            - phase_upto(a, seq_mul(b, c), n);
        assert(seq_mul(a, b)[n - 1] == letter_mul(a[n - 1], b[n - 1]));
        assert(seq_mul(b, c)[n - 1] == letter_mul(b[n - 1], c[n - 1]));
        assert(cur == prev || cur == prev + 4 || cur == prev - 4);
        lemma_fundamental_div_mod(prev, 4);
        let q = prev / 4;
        assert(prev == 4 * q);
        if cur == prev + 4 {
            lemma_mod_multiples_vanish(q + 1, 0, 4);
        } else if cur == prev - 4 {
            lemma_mod_multiples_vanish(q - 1, 0, 4);
        } else {
            lemma_mod_multiples_vanish(q, 0, 4);
        }
    }
}

/// Associativity up to phase: the product letters associate, and the total
/// phases accumulated by the two ways of multiplying three strings are
/// congruent mod 4.
pub proof fn lemma_associativity(a: Seq<Pauli>, b: Seq<Pauli>, c: Seq<Pauli>)
    requires
        a.len() == b.len(),
        b.len() == c.len(),
    ensures
        seq_mul(seq_mul(a, b), c) == seq_mul(a, seq_mul(b, c)),
        (phase_sum(a, b) + phase_sum(seq_mul(a, b), c) - (phase_sum(b, c) + phase_sum(
            a,
            seq_mul(b, c),
        ))) % 4 == 0,
{
    assert forall|p: int| 0 <= p < a.len() implies seq_mul(seq_mul(a, b), c)[p] == seq_mul(
        a,
        seq_mul(b, c),
    )[p] by {
        lemma_letter_assoc(a[p], b[p], c[p]);
        assert(seq_mul(a, b)[p] == letter_mul(a[p], b[p]));
        assert(seq_mul(b, c)[p] == letter_mul(b[p], c[p]));
    }
    assert(seq_mul(seq_mul(a, b), c) =~= seq_mul(a, seq_mul(b, c)));
    lemma_assoc_phase_upto(a, b, c, a.len() as int);
}

/// Multiplying by a fixed string is injective on the letters: `p * q`
/// determines `q`.
pub proof fn lemma_seq_mul_injective(p: Seq<Pauli>, q1: Seq<Pauli>, q2: Seq<Pauli>)
    requires
        q1.len() == p.len(),
        q2.len() == p.len(),
        seq_mul(p, q1) == seq_mul(p, q2),
    ensures
        q1 == q2,
{
    assert forall|i: int| 0 <= i < q1.len() implies q1[i] == q2[i] by {
        assert(seq_mul(p, q1)[i] == seq_mul(p, q2)[i]);
        assert(seq_mul(p, q1)[i] == letter_mul(p[i], q1[i]));
        assert(seq_mul(p, q2)[i] == letter_mul(p[i], q2[i]));
        lemma_letter_mul_cancels(p[i], q1[i], q2[i]);
    }
    assert(q1 =~= q2);
}

proof fn lemma_letter_mul_cancels(x: Pauli, a: Pauli, b: Pauli)
    requires
        letter_mul(x, a) == letter_mul(x, b),
    ensures
        a == b,
{
    assert(letter_mul(x, letter_mul(x, a)) == a);
    assert(letter_mul(x, letter_mul(x, b)) == b);
}

proof fn lemma_self_phase_upto(a: Seq<Pauli>, n: int)
    ensures
        phase_upto(a, a, n) == 0,
    decreases n,
{
    if n > 0 {
        lemma_self_phase_upto(a, n - 1);
        assert(letter_phase(a[n - 1], a[n - 1]) == 0);
    }
}

/// Involution: a Pauli string times itself is the identity string with
/// total phase exactly 0.
pub proof fn lemma_involution(a: Seq<Pauli>)
    ensures
        all_identity(seq_mul(a, a)),
        phase_sum(a, a) == 0,
{
    assert forall|p: int| 0 <= p < seq_mul(a, a).len() implies seq_mul(a, a)[p] == Pauli::I by {
        assert(letter_mul(a[p], a[p]) == Pauli::I);
    }
    lemma_self_phase_upto(a, a.len() as int);
}

proof fn lemma_identity_phase_upto(q: Seq<Pauli>, p: Seq<Pauli>, n: int)
    requires
        n <= p.len(),
        all_identity(p),
    ensures
        phase_upto(q, p, n) == 0,
    decreases n,
{
    if n > 0 {
        lemma_identity_phase_upto(q, p, n - 1);
        assert(p[n - 1] == Pauli::I);
        assert(letter_phase(q[n - 1], p[n - 1]) == 0);
    }
}

/// An all-identity gate string commutes with every string of the same
/// width, so applying such a gate never touches an observable.
pub proof fn lemma_identity_commutes(q: Seq<Pauli>, p: Seq<Pauli>)
    requires
        q.len() == p.len(),
        all_identity(p),
    ensures
        phase_sum(q, p) == 0,
        commutes(q, p),
{
    lemma_identity_phase_upto(q, p, q.len() as int);
}

/// Sum over the chunks of the popcount of the XOR of the two bit-planes.
pub open spec fn chunks_xor_popcount(chunks: Seq<PauliChunk>) -> int
    decreases chunks.len(),
{
    if chunks.len() == 0 {
        0
    } else {
        chunks_xor_popcount(chunks.drop_last()) + popcount64(
            chunks.last().bitchunk1 ^ chunks.last().bitchunk2,
        )
    }
}

proof fn lemma_weight_upto_prefix(a: Seq<Pauli>, b: Seq<Pauli>, n: int)
    requires
        forall|i: int| 0 <= i < n ==> a[i] == b[i],
    ensures
        xy_weight_upto(a, n) == xy_weight_upto(b, n),
    decreases n,
{
    if n > 0 {
        lemma_weight_upto_prefix(a, b, n - 1);
    }
}

/// The weight of a string equals the popcount of the XOR of its two
/// bit-planes, summed over the chunks.
pub proof fn lemma_hamming_is_popcount(chunks: Seq<PauliChunk>)
    ensures
        xy_weight(string_letters(chunks)) == chunks_xor_popcount(chunks),
    decreases chunks.len(),
{
    if chunks.len() > 0 {
        let front = chunks.drop_last();
        let last = chunks.last();
        lemma_hamming_is_popcount(front);
        let s = string_letters(chunks);
        let n = chunks.len() as int;
        assert forall|j: int| 0 <= j < 64 implies s[64 * (n - 1) + j] == last.letters()[j] by {
            crate::pauli_string::lemma_string_letter_at(chunks, n - 1, j);
        }
        lemma_weight_block(s, 64 * (n - 1), 64, last.letters());
        lemma_chunk_weight_counts(last, 64);
        assert forall|i: int| 0 <= i < 64 * (n - 1) implies s[i] == string_letters(front)[i] by {
            crate::pauli_string::lemma_string_index(front, i);
            crate::pauli_string::lemma_string_index(chunks, i);
            assert(front[i / 64] == chunks[i / 64]);
        }
        lemma_weight_upto_prefix(s, string_letters(front), 64 * (n - 1));
        assert(xy_weight(s) == xy_weight_upto(s, 64 * n));
        assert(64 * (n - 1) + 64 == 64 * n) by (nonlinear_arith);
    }
}

} // verus!
