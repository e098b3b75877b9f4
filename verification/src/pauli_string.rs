//! Fixed-width bit-packed Pauli strings: an array of 64-letter chunks with
//! product, phase, commutation, weight and pretty printing.

use vstd::prelude::*;

use crate::pauli::{
    all_identity, bit64, commutes, is_diagonal, lemma_u64_bits_eq, letter_mul,
    letter_phase, pauli_of_bits, phase_sum, phase_upto, seq_mul, xy_weight, xy_weight_upto, Pauli,
    PauliChunk,
};
use vstd::string::StringExecFns;

verus! {

/// Number of letters in one chunk.
pub const CHUNK_SIZE: usize = 64;

/// Largest supported chunk count (the width dispatch rejects more).
pub const MAX_CHUNKS: usize = 32;

/// The user-input errors of building a Pauli string.
#[derive(Clone, Copy, Debug, PartialEq, Eq, Structural)]
pub enum PauliStringError {
    /// The requested position does not fit the string; `size` is the
    /// string's qubit count.
    PositionOutOfBound { size: usize, position: usize },
    /// The letter code is none of `I`, `X`, `Y`, `Z`.
    InvalidPauliCode(char),
}

pub type PauliStringResult<T> = Result<T, PauliStringError>;

/// The letters held by a sequence of chunks, low positions first.
pub open spec fn string_letters(chunks: Seq<PauliChunk>) -> Seq<Pauli> {
    Seq::new(64 * chunks.len(), |p: int| chunks[p / 64].letters()[p % 64])
}

/// `c` names a Pauli letter.
pub open spec fn is_pauli_code(c: char) -> bool {
    c == 'I' || c == 'X' || c == 'Y' || c == 'Z'
}

/// The letter a valid code names.
pub open spec fn code_letter(c: char) -> Pauli {
    if c == 'X' {
        Pauli::X
    } else if c == 'Y' {
        Pauli::Y
    } else if c == 'Z' {
        Pauli::Z
    } else {
        Pauli::I
    }
}

/// The letter whose encoded bits are the OR of the two letters' bits; this
/// is what setting a letter on an already-set position produces.
pub open spec fn letter_or(a: Pauli, b: Pauli) -> Pauli {
    pauli_of_bits(
        crate::pauli::enc1(a) || crate::pauli::enc1(b),
        crate::pauli::enc2(a) || crate::pauli::enc2(b),
    )
}

/// The character that prints a letter.
pub open spec fn letter_char(a: Pauli) -> char {
    match a {
        Pauli::I => 'I',
        Pauli::X => 'X',
        Pauli::Y => 'Y',
        Pauli::Z => 'Z',
    }
}

pub proof fn lemma_string_index(chunks: Seq<PauliChunk>, p: int)
    requires
        0 <= p < 64 * chunks.len(),
    ensures
        0 <= p / 64 < chunks.len(),
        0 <= p % 64 < 64,
        p == 64 * (p / 64) + (p % 64),
        string_letters(chunks)[p] == chunks[p / 64].letters()[p % 64],
{
    assert(0 <= p / 64 && 0 <= p % 64 < 64 && p == 64 * (p / 64) + (p % 64) && 64 * (p / 64) <= p)
        by (nonlinear_arith)
        requires
            0 <= p,
    ;
    assert(p / 64 < chunks.len()) by (nonlinear_arith)
        requires
            p < 64 * chunks.len(),
            64 * (p / 64) <= p,
    ;
}

pub proof fn lemma_string_letter_at(chunks: Seq<PauliChunk>, i: int, j: int)
    requires
        0 <= i < chunks.len(),
        0 <= j < 64,
    ensures
        0 <= 64 * i + j < 64 * chunks.len(),
        string_letters(chunks)[64 * i + j] == chunks[i].letters()[j],
{
    let p = 64 * i + j;
    assert(p / 64 == i && p % 64 == j) by (nonlinear_arith)
        requires
            0 <= i,
            0 <= j < 64,
            p == 64 * i + j,
    ;
    assert(p < 64 * chunks.len()) by (nonlinear_arith)
        requires
            i < chunks.len(),
            0 <= j < 64,
            p == 64 * i + j,
    ;
}

/// Chunks are recoverable from their letters: the letter view is injective.
pub proof fn lemma_view_injective(a: Seq<PauliChunk>, b: Seq<PauliChunk>)
    requires
        a.len() == b.len(),
        string_letters(a) == string_letters(b),
    ensures
        a == b,
{
    assert forall|i: int| 0 <= i < a.len() implies a[i] == b[i] by {
        assert forall|t: u64| t < 64 implies #[trigger] ((a[i].bitchunk1 >> t) & 1) == (
        b[i].bitchunk1 >> t) & 1 by {
            lemma_chunk_bits_agree(a, b, i, t);
        }
        assert forall|t: u64| t < 64 implies #[trigger] ((a[i].bitchunk2 >> t) & 1) == (
        b[i].bitchunk2 >> t) & 1 by {
            lemma_chunk_bits_agree(a, b, i, t);
        }
        lemma_u64_bits_eq(a[i].bitchunk1, b[i].bitchunk1);
        lemma_u64_bits_eq(a[i].bitchunk2, b[i].bitchunk2);
    }
    assert(a =~= b);
}

proof fn lemma_chunk_bits_agree(a: Seq<PauliChunk>, b: Seq<PauliChunk>, i: int, t: u64)
    requires
        a.len() == b.len(),
        string_letters(a) == string_letters(b),
        0 <= i < a.len(),
        t < 64,
    ensures
        (a[i].bitchunk1 >> t) & 1 == (b[i].bitchunk1 >> t) & 1,
        (a[i].bitchunk2 >> t) & 1 == (b[i].bitchunk2 >> t) & 1,
{
    lemma_string_letter_at(a, i, t as int);
    lemma_string_letter_at(b, i, t as int);
    assert(string_letters(a)[64 * i + t] == string_letters(b)[64 * i + t]);
    let x1 = a[i].bitchunk1;
    let x2 = a[i].bitchunk2;
    let y1 = b[i].bitchunk1;
    let y2 = b[i].bitchunk2;
    assert(((x1 >> t) & 1 == 0 || (x1 >> t) & 1 == 1) && ((x2 >> t) & 1 == 0 || (x2 >> t) & 1 == 1)
        && ((y1 >> t) & 1 == 0 || (y1 >> t) & 1 == 1) && ((y2 >> t) & 1 == 0 || (y2 >> t) & 1
        == 1)) by (bit_vector);
}

pub proof fn lemma_phase_block(a: Seq<Pauli>, b: Seq<Pauli>, base: int, k: int, ca: Seq<Pauli>, cb: Seq<Pauli>)
    requires
        0 <= k <= 64,
        0 <= base,
        base + 64 <= a.len(),
        b.len() == a.len(),
        forall|j: int| 0 <= j < 64 ==> a[base + j] == ca[j] && b[base + j] == cb[j],
    ensures
        phase_upto(a, b, base + k) == phase_upto(a, b, base) + phase_upto(ca, cb, k),
    decreases k,
{
    if k > 0 {
        lemma_phase_block(a, b, base, k - 1, ca, cb);
        assert(a[base + (k - 1)] == ca[k - 1] && b[base + (k - 1)] == cb[k - 1]);
    }
}

pub proof fn lemma_weight_block(a: Seq<Pauli>, base: int, k: int, ca: Seq<Pauli>)
    requires
        0 <= k <= 64,
        0 <= base,
        base + 64 <= a.len(),
        forall|j: int| 0 <= j < 64 ==> a[base + j] == ca[j],
    ensures
        xy_weight_upto(a, base + k) == xy_weight_upto(a, base) + xy_weight_upto(ca, k),
    decreases k,
{
    if k > 0 {
        lemma_weight_block(a, base, k - 1, ca);
        assert(a[base + (k - 1)] == ca[k - 1]);
    }
}

proof fn lemma_or_single_bit(w: u64, j: u64, i: u64)
    requires
        i < 64,
        j < 64,
    ensures
        bit64(w | (1u64 << j), i) == (bit64(w, i) || i == j),
{
    assert(((w | (1u64 << j)) >> i) & 1 == 1 <==> ((w >> i) & 1 == 1 || i == j)) by (bit_vector)
        requires
            i < 64,
            j < 64,
    ;
}

/// A 64·N-qubit Pauli operator stored as N chunks.
#[derive(Debug)]
pub struct PauliString {
    pub chunks: Vec<PauliChunk>,
}

impl View for PauliString {
    type V = Seq<Pauli>;

    open spec fn view(&self) -> Seq<Pauli> {
        string_letters(self.chunks@)
    }
}

impl PauliString {
    /// The chunk count stays within the supported width.
    pub open spec fn wf(&self) -> bool {
        self.chunks@.len() <= MAX_CHUNKS
    }

    /// The all-identity string of `chunks_number` chunks.
    pub fn new(chunks_number: usize) -> (r: Self)
        requires
            chunks_number <= MAX_CHUNKS,
        ensures
            r.wf(),
            r.chunks@.len() == chunks_number,
            r@.len() == 64 * chunks_number,
            all_identity(r@),
    {
        let mut chunks: Vec<PauliChunk> = Vec::new();
        let mut k: usize = 0;
        while k < chunks_number
            invariant
                k <= chunks_number,
                chunks@.len() == k,
                forall|i: int| 0 <= i < k ==> all_identity(#[trigger] chunks@[i].letters()),
            decreases chunks_number - k,
        {
            chunks.push(PauliChunk::new());
            k += 1;
        }
        let r = PauliString { chunks };
        proof {
            assert forall|p: int| 0 <= p < r@.len() implies r@[p] == Pauli::I by {
                lemma_string_index(r.chunks@, p);
            }
        }
        r
    }

    /// An identical copy, chunk for chunk.
    pub fn duplicate(&self) -> (r: Self)
        ensures
            r.chunks@ == self.chunks@,
            r@ == self@,
    {
        let mut chunks: Vec<PauliChunk> = Vec::new();
        let n = self.chunks.len();
        let mut k: usize = 0;
        while k < n
            invariant
                k <= n,
                n == self.chunks@.len(),
                chunks@.len() == k,
                forall|i: int| 0 <= i < k ==> chunks@[i] == self.chunks@[i],
            decreases n - k,
        {
            chunks.push(self.chunks[k]);
            k += 1;
        }
        proof {
            assert(chunks@ =~= self.chunks@);
        }
        PauliString { chunks }
    }

    /// Whether two strings hold the same letters.
    pub fn key_eq(&self, other: &Self) -> (r: bool)
        ensures
            r == (self.chunks@ == other.chunks@),
            r == (self@ == other@),
    {
        proof {
            if self.chunks@.len() == other.chunks@.len() {
                if self@ == other@ && self.chunks@ != other.chunks@ {
                    lemma_view_injective(self.chunks@, other.chunks@);
                }
            } else {
                assert(self@.len() != other@.len()) by (nonlinear_arith)
                    requires
                        self@.len() == 64 * self.chunks@.len(),
                        other@.len() == 64 * other.chunks@.len(),
                        self.chunks@.len() != other.chunks@.len(),
                ;
            }
            assert((self.chunks@ == other.chunks@) == (self@ == other@));
        }
        if self.chunks.len() != other.chunks.len() {
            return false;
        }
        let n = self.chunks.len();
        let mut k: usize = 0;
        while k < n
            invariant
                k <= n,
                n == self.chunks@.len() == other.chunks@.len(),
                forall|i: int| 0 <= i < k ==> self.chunks@[i] == other.chunks@[i],
                (self.chunks@ == other.chunks@) == (self@ == other@),
            decreases n - k,
        {
            let ca = self.chunks[k];
            let cb = other.chunks[k];
            if ca.bitchunk1 != cb.bitchunk1 || ca.bitchunk2 != cb.bitchunk2 {
                proof {
                    assert(self.chunks@[k as int] != other.chunks@[k as int]);
                }
                return false;
            }
            k += 1;
        }
        proof {
            assert(self.chunks@ =~= other.chunks@);
        }
        true
    }

    /// OR the bits of a letter into one position of the string, returning
    /// the updated string, or report why the request is invalid.
    pub fn set_pauli(self, code: char, pos: u64) -> (r: PauliStringResult<Self>)
        requires
            self.wf(),
        ensures
            match r {
                Ok(s) => {
                    &&& pos < 64 * self.chunks@.len()
                    &&& is_pauli_code(code)
                    &&& s.wf()
                    &&& s.chunks@.len() == self.chunks@.len()
                    &&& s@ == self@.update(
                        pos as int,
                        letter_or(self@[pos as int], code_letter(code)),
                    )
                },
                Err(e) => {
                    &&& (pos >= 64 * self.chunks@.len() || !is_pauli_code(code))
                    &&& e == if pos >= 64 * self.chunks@.len() {
                        PauliStringError::PositionOutOfBound {
                            size: (64 * self.chunks@.len()) as usize,
                            position: pos as usize,
                        }
                    } else {
                        PauliStringError::InvalidPauliCode(code)
                    }
                },
            },
    {
        let n = self.chunks.len();
        if pos >= 64 * (n as u64) {
            return Err(
                PauliStringError::PositionOutOfBound { size: 64 * n, position: pos as usize },
            );
        }
        let set1: bool;
        let set2: bool;
        if code == 'I' {
            set1 = false;
            set2 = false;
        } else if code == 'X' {
            set1 = true;
            set2 = false;
        } else if code == 'Y' {
            set1 = false;
            set2 = true;
        } else if code == 'Z' {
            set1 = true;
            set2 = true;
        } else {
            return Err(PauliStringError::InvalidPauliCode(code));
        }
        let ci = (pos / 64) as usize;
        let j = pos % 64;
        proof {
            lemma_string_index(self.chunks@, pos as int);
        }
        let mut s = self;
        let c = s.chunks[ci];
        let mask: u64 = 1u64 << j;
        let w1 = if set1 {
            c.bitchunk1 | mask
        } else {
            c.bitchunk1
        };
        let w2 = if set2 {
            c.bitchunk2 | mask
        } else {
            c.bitchunk2
        };
        let c2 = PauliChunk { bitchunk1: w1, bitchunk2: w2 };
        proof {
            let l = letter_or(string_letters(s.chunks@)[pos as int], code_letter(code));
            assert forall|i: int| 0 <= i < 64 implies c2.letters()[i] == c.letters().update(
                j as int,
                l,
            )[i] by {
                if set1 {
                    lemma_or_single_bit(c.bitchunk1, j, i as u64);
                }
                if set2 {
                    lemma_or_single_bit(c.bitchunk2, j, i as u64);
                }
            }
            assert(c2.letters() =~= c.letters().update(j as int, l));
            lemma_string_update_view(s.chunks@, ci as int, c2, l, j as int);
        }
        s.chunks[ci] = c2;
        Ok(s)
    }

    /// Whether the string is diagonal in the computational basis: 1 when
    /// every letter is `I` or `Z`, else 0.
    pub fn average(&self) -> (r: u8)
        ensures
            r <= 1,
            (r == 1) == is_diagonal(self@),
    {
        let n = self.chunks.len();
        let mut val: u8 = 1;
        let mut k: usize = 0;
        while k < n
            invariant
                k <= n,
                n == self.chunks@.len(),
                val <= 1,
                (val == 1) == (forall|p: int|
                    0 <= p < 64 * k ==> self@[p] == Pauli::I || self@[p] == Pauli::Z),
            decreases n - k,
        {
            let ca = self.chunks[k];
            let a = ca.average();
            proof {
                assert forall|j: int| 0 <= j < 64 implies self@[64 * (k as int) + j]
                    == ca.letters()[j] by {
                    lemma_string_letter_at(self.chunks@, k as int, j);
                }
                if val == 1 && a == 1 {
                    assert forall|p: int|
                        0 <= p < 64 * (k + 1) implies self@[p] == Pauli::I || self@[p]
                        == Pauli::Z by {
                        if p >= 64 * (k as int) {
                            let j = p - 64 * (k as int);
                            assert(self@[64 * (k as int) + j] == ca.letters()[j]);
                        }
                    }
                } else if (forall|p: int|
                    0 <= p < 64 * (k + 1) ==> self@[p] == Pauli::I || self@[p] == Pauli::Z) {
                    assert forall|p: int| 0 <= p < 64 * k implies self@[p] == Pauli::I || self@[p]
                        == Pauli::Z by {}
                    assert forall|j: int| 0 <= j < 64 implies ca.letters()[j] == Pauli::I
                        || ca.letters()[j] == Pauli::Z by {
                        assert(self@[64 * (k as int) + j] == ca.letters()[j]);
                    }
                    assert(is_diagonal(ca.letters()));
                    assert(false);
                }
            }
            val = if val == 1 && a == 1 {
                1
            } else {
                0
            };
            k += 1;
        }
        proof {
            if val == 1 {
                assert forall|p: int| 0 <= p < self@.len() implies self@[p] == Pauli::I || self@[p]
                    == Pauli::Z by {}
            }
        }
        val
    }

    /// Whether this string commutes with `other`, by the parity of the
    /// total product phase.
    pub fn comute(&self, other: &Self) -> (r: bool)
        requires
            self.wf(),
            other.wf(),
            self.chunks@.len() == other.chunks@.len(),
        ensures
            r == commutes(self@, other@),
    {
        let total = self.phase_of(other);
        total % 2 == 0
    }

    /// The total phase of the product `self * other`.
    fn phase_of(&self, other: &Self) -> (r: i32)
        requires
            self.wf(),
            other.wf(),
            self.chunks@.len() == other.chunks@.len(),
        ensures
            r == phase_sum(self@, other@),
            -2048 <= r <= 2048,
    {
        let n = self.chunks.len();
        let mut total: i32 = 0;
        let mut k: usize = 0;
        while k < n
            invariant
                k <= n,
                n == self.chunks@.len() == other.chunks@.len() <= MAX_CHUNKS,
                self@.len() == 64 * n == other@.len(),
                total == phase_upto(self@, other@, 64 * k),
                -64 * k <= total <= 64 * k,
            decreases n - k,
        {
            let ca = self.chunks[k];
            let cb = other.chunks[k];
            let pc = ca.mul_phase(&cb);
            proof {
                assert forall|j: int| 0 <= j < 64 implies self@[64 * (k as int) + j]
                    == ca.letters()[j] && other@[64 * (k as int) + j] == cb.letters()[j] by {
                    lemma_string_letter_at(self.chunks@, k as int, j);
                    lemma_string_letter_at(other.chunks@, k as int, j);
                }
                lemma_phase_block(
                    self@,
                    other@,
                    64 * (k as int),
                    64,
                    ca.letters(),
                    cb.letters(),
                );
            }
            total += pc;
            k += 1;
        }
        total
    }

    /// Number of positions holding `X` or `Y`: the positions where the two
    /// bit-planes differ, counted by one popcount per chunk.
    pub fn hamming(&self) -> (r: u32)
        requires
            self.wf(),
        ensures
            r == xy_weight(self@),
            r <= 64 * self.chunks@.len(),
    {
        let n = self.chunks.len();
        let mut total: u32 = 0;
        let mut k: usize = 0;
        while k < n
            invariant
                k <= n,
                n == self.chunks@.len() <= MAX_CHUNKS,
                self@.len() == 64 * n,
                total == xy_weight_upto(self@, 64 * k),
                total <= 64 * k,
            decreases n - k,
        {
            let ca = self.chunks[k];
            let h = ca.hamming();
            proof {
                assert forall|j: int| 0 <= j < 64 implies self@[64 * (k as int) + j]
                    == ca.letters()[j] by {
                    lemma_string_letter_at(self.chunks@, k as int, j);
                }
                lemma_weight_block(self@, 64 * (k as int), 64, ca.letters());
            }
            total += h;
            k += 1;
        }
        total
    }

    /// The product `self * other` as a phase (exponent of `i`) and the
    /// product string.
    pub fn multiply(&self, other: &Self) -> (r: (i32, PauliString))
        requires
            self.wf(),
            other.wf(),
            self.chunks@.len() == other.chunks@.len(),
        ensures
            r.1.wf(),
            r.1.chunks@.len() == self.chunks@.len(),
            r.1@ == seq_mul(self@, other@),
            r.0 == phase_sum(self@, other@),
            -2048 <= r.0 <= 2048,
    {
        let n = self.chunks.len();
        let mut chunks: Vec<PauliChunk> = Vec::new();
        let mut k: usize = 0;
        while k < n
            invariant
                k <= n,
                n == self.chunks@.len() == other.chunks@.len() <= MAX_CHUNKS,
                chunks@.len() == k,
                forall|i: int|
                    0 <= i < k ==> #[trigger] chunks@[i].letters() == seq_mul(
                        self.chunks@[i].letters(),
                        other.chunks@[i].letters(),
                    ),
            decreases n - k,
        {
            let ca = self.chunks[k];
            let cb = other.chunks[k];
            chunks.push(ca.mul_abs(&cb));
            k += 1;
        }
        let phase = self.phase_of(other);
        let prod = PauliString { chunks };
        proof {
            assert forall|p: int| 0 <= p < prod@.len() implies prod@[p] == letter_mul(
                self@[p],
                other@[p],
            ) by {
                lemma_string_index(prod.chunks@, p);
                lemma_string_index(self.chunks@, p);
                assert(prod.chunks@[p / 64].letters()[p % 64] == seq_mul(
                    self.chunks@[p / 64].letters(),
                    other.chunks@[p / 64].letters(),
                )[p % 64]);
            }
            assert(prod@ =~= seq_mul(self@, other@));
        }
        (phase, prod)
    }

    /// Pretty print: one character per position, low positions first.
    pub fn to_string(&self) -> (r: String)
        requires
            self.wf(),
        ensures
            r@.len() == self@.len(),
            forall|p: int| 0 <= p < self@.len() ==> r@[p] == letter_char(self@[p]),
    {
        proof {
            reveal_strlit("I");
            reveal_strlit("X");
            reveal_strlit("Y");
            reveal_strlit("Z");
        }
        let n = self.chunks.len();
        let mut s = String::new();
        let mut k: usize = 0;
        while k < n
            invariant
                k <= n,
                n == self.chunks@.len() <= MAX_CHUNKS,
                self@.len() == 64 * n,
                s@.len() == 64 * k,
                forall|p: int| 0 <= p < 64 * k ==> s@[p] == letter_char(self@[p]),
                "I"@ =~= seq!['I'],
                "X"@ =~= seq!['X'],
                "Y"@ =~= seq!['Y'],
                "Z"@ =~= seq!['Z'],
            decreases n - k,
        {
            let c = self.chunks[k];
            let mut j: u64 = 0;
            while j < 64
                invariant
                    j <= 64,
                    k < n,
                    n == self.chunks@.len() <= MAX_CHUNKS,
                    self@.len() == 64 * n,
                    c == self.chunks@[k as int],
                    s@.len() == 64 * k + j,
                    forall|p: int| 0 <= p < 64 * k + j ==> s@[p] == letter_char(self@[p]),
                    "I"@ =~= seq!['I'],
                    "X"@ =~= seq!['X'],
                    "Y"@ =~= seq!['Y'],
                    "Z"@ =~= seq!['Z'],
                decreases 64 - j,
            {
                let b1 = (c.bitchunk1 >> j) & 1 == 1;
                let b2 = (c.bitchunk2 >> j) & 1 == 1;
                if b1 && b2 {
                    s.append("Z");
                } else if b1 {
                    s.append("X");
                } else if b2 {
                    s.append("Y");
                } else {
                    s.append("I");
                }
                proof {
                    lemma_string_letter_at(self.chunks@, k as int, j as int);
                    assert(self@[64 * (k as int) + j] == pauli_of_bits(b1, b2));
                }
                j += 1;
            }
            k += 1;
        }
        s
    }
}

proof fn lemma_string_update_view(chunks: Seq<PauliChunk>, ci: int, c: PauliChunk, l: Pauli, j: int)
    requires
        0 <= ci < chunks.len(),
        0 <= j < 64,
        c.letters() == chunks[ci].letters().update(j, l),
    ensures
        string_letters(chunks.update(ci, c)) == string_letters(chunks).update(64 * ci + j, l),
{
    lemma_string_letter_at(chunks, ci, j);
    let upd = chunks.update(ci, c);
    assert forall|p: int| 0 <= p < 64 * chunks.len() implies string_letters(upd)[p]
        == string_letters(chunks).update(64 * ci + j, l)[p] by {
        lemma_string_index(chunks, p);
        lemma_string_index(upd, p);
        let q = p / 64;
        let t = p % 64;
        if q == ci {
            assert(upd[q] == c);
            assert(c.letters()[t] == chunks[ci].letters().update(j, l)[t]);
            if t == j {
                assert(p == 64 * ci + j);
            } else {
                assert(p != 64 * ci + j);
            }
        } else {
            assert(upd[q] == chunks[q]);
            assert(p != 64 * ci + j) by (nonlinear_arith)
                requires
                    q != ci,
                    0 <= j < 64,
                    q == p / 64,
                    p == 64 * q + p % 64,
                    0 <= p % 64 < 64,
            ;
        }
    }
    assert(string_letters(upd) =~= string_letters(chunks).update(64 * ci + j, l));
}

impl PartialEq for PauliString {
    fn eq(&self, other: &Self) -> (r: bool) {
        self.key_eq(other)
    }
}

impl vstd::std_specs::cmp::PartialEqSpecImpl for PauliString {
    open spec fn obeys_eq_spec() -> bool {
        true
    }

    open spec fn eq_spec(&self, other: &Self) -> bool {
        self.chunks@ == other.chunks@
    }
}

} // verus!
