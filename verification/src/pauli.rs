//! Single-qubit Pauli letters, their product algebra, and 64-letter chunks
//! packed into two 64-bit words.

use vstd::prelude::*;

verus! {

/// One single-qubit Pauli operator.
#[derive(Clone, Copy, Debug, PartialEq, Eq, Structural)]
pub enum Pauli {
    I,
    X,
    Y,
    Z,
}

/// Bit `i` of the word `w`.
pub open spec fn bit64(w: u64, i: u64) -> bool {
    (w >> i) & 1 == 1
}

/// The letter encoded by a pair of bits: `I=(0,0)`, `X=(1,0)`, `Y=(0,1)`, `Z=(1,1)`.
pub open spec fn pauli_of_bits(b1: bool, b2: bool) -> Pauli {
    if b1 && b2 {
        Pauli::Z
    } else if b1 {
        Pauli::X
    } else if b2 {
        Pauli::Y
    } else {
        Pauli::I
    }
}

/// First encoded bit of a letter.
pub open spec fn enc1(a: Pauli) -> bool {
    a == Pauli::X || a == Pauli::Z
}

/// Second encoded bit of a letter.
pub open spec fn enc2(a: Pauli) -> bool {
    a == Pauli::Y || a == Pauli::Z
}

/// The letter of the product `a * b`, ignoring its scalar phase.
pub open spec fn letter_mul(a: Pauli, b: Pauli) -> Pauli {
    match (a, b) {
        (Pauli::I, r) => r,
        (l, Pauli::I) => l,
        (Pauli::X, Pauli::X) => Pauli::I,
        (Pauli::Y, Pauli::Y) => Pauli::I,
        (Pauli::Z, Pauli::Z) => Pauli::I,
        (Pauli::X, Pauli::Y) => Pauli::Z,
        (Pauli::Y, Pauli::X) => Pauli::Z,
        (Pauli::Y, Pauli::Z) => Pauli::X,
        (Pauli::Z, Pauli::Y) => Pauli::X,
        (Pauli::Z, Pauli::X) => Pauli::Y,
        (Pauli::X, Pauli::Z) => Pauli::Y,
    }
}

/// The exponent of `i` contributed by the product `a * b`:
/// `a * b == i^letter_phase(a, b) * letter_mul(a, b)`.
pub open spec fn letter_phase(a: Pauli, b: Pauli) -> int {
    match (a, b) {
        (Pauli::X, Pauli::Y) => 1,
        (Pauli::Y, Pauli::Z) => 1,
        (Pauli::Z, Pauli::X) => 1,
        (Pauli::Y, Pauli::X) => -1,
        (Pauli::Z, Pauli::Y) => -1,
        (Pauli::X, Pauli::Z) => -1,
        _ => 0,
    }
}

/// Sum of the per-letter phases over the first `n` positions.
pub open spec fn phase_upto(a: Seq<Pauli>, b: Seq<Pauli>, n: int) -> int
    decreases n,
{
    if n <= 0 {
        0
    } else {
        phase_upto(a, b, n - 1) + letter_phase(a[n - 1], b[n - 1])
    }
}

/// Total phase of the product `a * b`.
pub open spec fn phase_sum(a: Seq<Pauli>, b: Seq<Pauli>) -> int {
    phase_upto(a, b, a.len() as int)
}

/// Two Pauli strings commute exactly when their total phase is even.
pub open spec fn commutes(a: Seq<Pauli>, b: Seq<Pauli>) -> bool {
    phase_sum(a, b) % 2 == 0
}

/// Pointwise product letters of two strings.
pub open spec fn seq_mul(a: Seq<Pauli>, b: Seq<Pauli>) -> Seq<Pauli> {
    Seq::new(a.len(), |p: int| letter_mul(a[p], b[p]))
}

/// Number of `X` or `Y` letters among the first `n` positions (the
/// positions where the two bit-planes differ).
pub open spec fn xy_weight_upto(a: Seq<Pauli>, n: int) -> int
    decreases n,
{
    if n <= 0 {
        0
    } else {
        xy_weight_upto(a, n - 1) + if a[n - 1] == Pauli::X || a[n - 1] == Pauli::Y {
            1int
        } else {
            0int
        }
    }
}

/// Number of `X` or `Y` letters of a string.
pub open spec fn xy_weight(a: Seq<Pauli>) -> int {
    xy_weight_upto(a, a.len() as int)
}

/// Every letter is `I` or `Z`: the operator is diagonal in the
/// computational basis.
pub open spec fn is_diagonal(a: Seq<Pauli>) -> bool {
    forall|p: int| 0 <= p < a.len() ==> a[p] == Pauli::I || a[p] == Pauli::Z
}

/// Every letter is `I`.
pub open spec fn all_identity(a: Seq<Pauli>) -> bool {
    forall|p: int| 0 <= p < a.len() ==> a[p] == Pauli::I
}

/// Number of set bits among bits `[0, n)` of `w`.
pub open spec fn count_bits_upto(w: u64, n: int) -> int
    decreases n,
{
    if n <= 0 {
        0
    } else {
        count_bits_upto(w, n - 1) + if bit64(w, (n - 1) as u64) {
            1int
        } else {
            0int
        }
    }
}

/// Number of set bits of `w`.
pub open spec fn popcount64(w: u64) -> int {
    count_bits_upto(w, 64)
}

/// Relies on `u64::count_ones` of core: it returns the number of one bits
/// in the binary representation of its argument.
pub assume_specification[ u64::count_ones ](w: u64) -> (r: u32)
    ensures
        r == popcount64(w),
;

pub proof fn lemma_count_bits_bounds(w: u64, n: int)
    requires
        0 <= n,
    ensures
        0 <= count_bits_upto(w, n) <= n,
    decreases n,
{
    if n > 0 {
        lemma_count_bits_bounds(w, n - 1);
    }
}

/// The mask of positions whose letter product contributes `+i`.
pub open spec fn phase_pos_mask(a1: u64, a2: u64, b1: u64, b2: u64) -> u64 {
    a1 & !a2 & !b1 & b2 | !a1 & a2 & b1 & b2 | a1 & a2 & b1 & !b2
}

/// The mask of positions whose letter product contributes `-i`.
pub open spec fn phase_neg_mask(a1: u64, a2: u64, b1: u64, b2: u64) -> u64 {
    !a1 & a2 & b1 & !b2 | a1 & a2 & !b1 & b2 | a1 & !a2 & b1 & b2
}

proof fn lemma_mask_bits(a1: u64, a2: u64, b1: u64, b2: u64, i: u64)
    requires
        i < 64,
    ensures
        bit64(phase_pos_mask(a1, a2, b1, b2), i) == (bit64(a1, i) && !bit64(a2, i) && !bit64(
            b1,
            i,
        ) && bit64(b2, i) || !bit64(a1, i) && bit64(a2, i) && bit64(b1, i) && bit64(b2, i) || bit64(
            a1,
            i,
        ) && bit64(a2, i) && bit64(b1, i) && !bit64(b2, i)),
        bit64(phase_neg_mask(a1, a2, b1, b2), i) == (!bit64(a1, i) && bit64(a2, i) && bit64(b1, i)
            && !bit64(b2, i) || bit64(a1, i) && bit64(a2, i) && !bit64(b1, i) && bit64(b2, i)
            || bit64(a1, i) && !bit64(a2, i) && bit64(b1, i) && bit64(b2, i)),
        bit64(a1 ^ b1, i) == (bit64(a1, i) != bit64(b1, i)),
        bit64(a2 ^ b2, i) == (bit64(a2, i) != bit64(b2, i)),
        bit64(a1 | b1, i) == (bit64(a1, i) || bit64(b1, i)),
{
    assert(bit64(phase_pos_mask(a1, a2, b1, b2), i) == (bit64(a1, i) && !bit64(a2, i) && !bit64(
        b1,
        i,
    ) && bit64(b2, i) || !bit64(a1, i) && bit64(a2, i) && bit64(b1, i) && bit64(b2, i) || bit64(
        a1,
        i,
    ) && bit64(a2, i) && bit64(b1, i) && !bit64(b2, i)) && bit64(phase_neg_mask(a1, a2, b1, b2), i)
        == (!bit64(a1, i) && bit64(a2, i) && bit64(b1, i) && !bit64(b2, i) || bit64(a1, i) && bit64(
        a2,
        i,
    ) && !bit64(b1, i) && bit64(b2, i) || bit64(a1, i) && !bit64(a2, i) && bit64(b1, i) && bit64(
        b2,
        i,
    )) && bit64(a1 ^ b1, i) == (bit64(a1, i) != bit64(b1, i)) && bit64(a2 ^ b2, i) == (bit64(
        a2,
        i,
    ) != bit64(b2, i)) && bit64(a1 | b1, i) == (bit64(a1, i) || bit64(b1, i))) by (bit_vector)
        requires
            i < 64,
    ;
}

proof fn lemma_bits_eq_upto(x: u64, y: u64, n: u64)
    requires
        n <= 64,
        forall|i: u64| i < n ==> #[trigger] ((x >> i) & 1) == (y >> i) & 1,
    ensures
        (x >> n == y >> n) ==> x == y,
    decreases n,
{
    if n == 0 {
        assert((x >> 0u64 == y >> 0u64) ==> x == y) by (bit_vector);
    } else {
        let m = (n - 1) as u64;
        lemma_bits_eq_upto(x, y, m);
        assert((x >> m) & 1 == (y >> m) & 1);
        assert((x >> n == y >> n) ==> x >> m == y >> m) by (bit_vector)
            requires
                m < 64,
                n == m + 1,
                (x >> m) & 1 == (y >> m) & 1,
        ;
    }
}

/// Two words whose 64 bit positions all agree are equal.
pub proof fn lemma_u64_bits_eq(x: u64, y: u64)
    requires
        forall|i: u64| i < 64 ==> #[trigger] ((x >> i) & 1) == (y >> i) & 1,
    ensures
        x == y,
{
    lemma_bits_eq_upto(x, y, 64);
    assert(x >> 64u64 == 0 && y >> 64u64 == 0) by (bit_vector);
}

/// A group of 64 Pauli letters, bit `i` of each word holding one encoded
/// bit of letter `i`.
#[derive(Clone, Copy, Debug, PartialEq, Eq, Structural)]
pub struct PauliChunk {
    pub bitchunk1: u64,
    pub bitchunk2: u64,
}

impl PauliChunk {
    /// The 64 letters this chunk holds.
    pub open spec fn letters(self) -> Seq<Pauli> {
        Seq::new(64, |i: int| pauli_of_bits(bit64(self.bitchunk1, i as u64), bit64(self.bitchunk2, i as u64)))
    }

    /// The all-identity chunk.
    pub open spec fn spec_new() -> PauliChunk {
        PauliChunk { bitchunk1: 0, bitchunk2: 0 }
    }

    pub fn new() -> (r: Self)
        ensures
            r == Self::spec_new(),
            all_identity(r.letters()),
    {
        let r = PauliChunk { bitchunk1: 0, bitchunk2: 0 };
        proof {
            assert forall|p: int| 0 <= p < 64 implies r.letters()[p] == Pauli::I by {
                let i = p as u64;
                assert((0u64 >> i) & 1 == 0) by (bit_vector);
            }
        }
        r
    }

    /// The product letters of two chunks: XOR on both bit-planes.
    pub fn mul_abs(&self, other: &Self) -> (r: Self)
        ensures
            r.letters() == seq_mul(self.letters(), other.letters()),
    {
        let r = PauliChunk {
            bitchunk1: self.bitchunk1 ^ other.bitchunk1,
            bitchunk2: self.bitchunk2 ^ other.bitchunk2,
        };
        proof {
            assert forall|p: int| 0 <= p < 64 implies r.letters()[p] == letter_mul(
                self.letters()[p],
                other.letters()[p],
            ) by {
                lemma_mask_bits(
                    self.bitchunk1,
                    self.bitchunk2,
                    other.bitchunk1,
                    other.bitchunk2,
                    p as u64,
                );
                lemma_mask_bits(
                    self.bitchunk2,
                    self.bitchunk1,
                    other.bitchunk2,
                    other.bitchunk1,
                    p as u64,
                );
            }
            assert(r.letters() =~= seq_mul(self.letters(), other.letters()));
        }
        r
    }

    /// The total phase of the product of two chunks, by counting the
    /// positions that contribute `+i` and `-i`.
    pub fn mul_phase(&self, other: &Self) -> (r: i32)
        ensures
            r == phase_upto(self.letters(), other.letters(), 64),
            -64 <= r <= 64,
    {
        let pos = self.bitchunk1 & !self.bitchunk2 & !other.bitchunk1 & other.bitchunk2
            | !self.bitchunk1 & self.bitchunk2 & other.bitchunk1 & other.bitchunk2
            | self.bitchunk1 & self.bitchunk2 & other.bitchunk1 & !other.bitchunk2;
        let neg = !self.bitchunk1 & self.bitchunk2 & other.bitchunk1 & !other.bitchunk2
            | self.bitchunk1 & self.bitchunk2 & !other.bitchunk1 & other.bitchunk2
            | self.bitchunk1 & !self.bitchunk2 & other.bitchunk1 & other.bitchunk2;
        proof {
            assert(pos == phase_pos_mask(
                self.bitchunk1,
                self.bitchunk2,
                other.bitchunk1,
                other.bitchunk2,
            ));
            assert(neg == phase_neg_mask(
                self.bitchunk1,
                self.bitchunk2,
                other.bitchunk1,
                other.bitchunk2,
            ));
            lemma_chunk_phase_counts(*self, *other, 64);
            lemma_count_bits_bounds(pos, 64);
            lemma_count_bits_bounds(neg, 64);
        }
        pos.count_ones() as i32 - neg.count_ones() as i32
    }

    /// 1 when every letter is `I` or `Z` (the chunk is diagonal), else 0.
    pub fn average(&self) -> (r: u8)
        ensures
            r <= 1,
            (r == 1) == is_diagonal(self.letters()),
    {
        proof {
            let w1 = self.bitchunk1;
            let w2 = self.bitchunk2;
            if is_diagonal(self.letters()) {
                assert forall|i: u64| i < 64 implies #[trigger] ((w1 >> i) & 1) == (w2 >> i)
                    & 1 by {
                    assert(self.letters()[i as int] == Pauli::I || self.letters()[i as int]
                        == Pauli::Z);
                    assert(((w1 >> i) & 1 == 0 || (w1 >> i) & 1 == 1) && ((w2 >> i) & 1 == 0 || (w2
                        >> i) & 1 == 1)) by (bit_vector);
                }
                lemma_u64_bits_eq(w1, w2);
            }
            if w1 == w2 {
                assert forall|p: int| 0 <= p < 64 implies self.letters()[p] == Pauli::I
                    || self.letters()[p] == Pauli::Z by {
                    assert(bit64(w1, p as u64) == bit64(w2, p as u64));
                }
            }
            assert((w1 ^ w2 == 0) == (w1 == w2)) by (bit_vector);
        }
        if self.bitchunk1 ^ self.bitchunk2 == 0 {
            1
        } else {
            0
        }
    }

    /// Number of letters where the two bit-planes differ, that is the
    /// number of `X` and `Y` letters.
    pub fn hamming(&self) -> (r: u32)
        ensures
            r == xy_weight_upto(self.letters(), 64),
            r <= 64,
    {
        proof {
            lemma_chunk_weight_counts(*self, 64);
            lemma_count_bits_bounds(self.bitchunk1 ^ self.bitchunk2, 64);
        }
        (self.bitchunk1 ^ self.bitchunk2).count_ones()
    }
}

proof fn lemma_letter_phase_bits(x1: bool, x2: bool, y1: bool, y2: bool)
    ensures
        (letter_phase(pauli_of_bits(x1, x2), pauli_of_bits(y1, y2)) == 1) == (x1 && !x2 && !y1 && y2
            || !x1 && x2 && y1 && y2 || x1 && x2 && y1 && !y2),
        (letter_phase(pauli_of_bits(x1, x2), pauli_of_bits(y1, y2)) == -1) == (!x1 && x2 && y1
            && !y2 || x1 && x2 && !y1 && y2 || x1 && !x2 && y1 && y2),
{
}

proof fn lemma_chunk_phase_counts(a: PauliChunk, b: PauliChunk, n: int)
    requires
        0 <= n <= 64,
    ensures
        phase_upto(a.letters(), b.letters(), n) == count_bits_upto(
            phase_pos_mask(a.bitchunk1, a.bitchunk2, b.bitchunk1, b.bitchunk2),
            n,
        ) - count_bits_upto(phase_neg_mask(a.bitchunk1, a.bitchunk2, b.bitchunk1, b.bitchunk2), n),
    decreases n,
{
    if n > 0 {
        lemma_chunk_phase_counts(a, b, n - 1);
        lemma_mask_bits(a.bitchunk1, a.bitchunk2, b.bitchunk1, b.bitchunk2, (n - 1) as u64);
        lemma_letter_phase_bits(
            bit64(a.bitchunk1, (n - 1) as u64),
            bit64(a.bitchunk2, (n - 1) as u64),
            bit64(b.bitchunk1, (n - 1) as u64),
            bit64(b.bitchunk2, (n - 1) as u64),
        );
        let la = a.letters()[n - 1];
        let lb = b.letters()[n - 1];
        assert(letter_phase(la, lb) == 1 || letter_phase(la, lb) == -1 || letter_phase(la, lb)
            == 0);
    }
}

pub proof fn lemma_chunk_weight_counts(a: PauliChunk, n: int)
    requires
        0 <= n <= 64,
    ensures
        xy_weight_upto(a.letters(), n) == count_bits_upto(a.bitchunk1 ^ a.bitchunk2, n),
    decreases n,
{
    if n > 0 {
        lemma_chunk_weight_counts(a, n - 1);
        lemma_mask_bits(a.bitchunk1, a.bitchunk2, a.bitchunk2, a.bitchunk1, (n - 1) as u64);
        let b1 = bit64(a.bitchunk1, (n - 1) as u64);
        let b2 = bit64(a.bitchunk2, (n - 1) as u64);
        assert(bit64(a.bitchunk1 ^ a.bitchunk2, (n - 1) as u64) == (b1 != b2));
        assert((a.letters()[n - 1] == Pauli::X || a.letters()[n - 1] == Pauli::Y) == (b1 != b2));
    }
}

} // verus!
