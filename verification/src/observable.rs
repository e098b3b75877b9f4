//! A sparse observable: a map from Pauli strings to complex coefficients,
//! kept as an association list with pairwise distinct keys, together with
//! the Heisenberg update under one rotation gate and the weight-scaled
//! pruning pass.

use vstd::prelude::*;

use crate::complex::{
    add_of, c_add, c_mul, c_mul_i, c_neg, c_zero, complex_zero, i_mul_of, mul_of, neg_of,
    norm_below, norm_below_of,
};
use crate::gate::Gate;
use crate::pauli::{all_identity, commutes, is_diagonal, phase_sum, seq_mul, xy_weight, Pauli};
use crate::pauli_string::{PauliString, MAX_CHUNKS};
use num_complex::Complex64;
use vstd::arithmetic::div_mod::lemma_mod_multiples_vanish;

verus! {

/// One observable term: a Pauli string and its coefficient.
#[derive(Debug)]
pub struct Term {
    pub key: PauliString,
    pub coeff: Complex64,
}

/// The map a term list stands for; a later entry with the same key would
/// win, but well-formed observables keep their keys pairwise distinct.
pub open spec fn terms_map(s: Seq<Term>) -> Map<Seq<Pauli>, Complex64>
    decreases s.len(),
{
    if s.len() == 0 {
        Map::empty()
    } else {
        terms_map(s.drop_last()).insert(s.last().key@, s.last().coeff)
    }
}

/// No two entries hold the same Pauli string.
pub open spec fn unique_keys(s: Seq<Term>) -> bool {
    forall|i: int, j: int| 0 <= i < j < s.len() ==> s[i].key@ != s[j].key@
}

/// The coefficient `v * i^m`, for a residue `m` in `[0, 4)`, written with
/// the named quarter-turn and negation.
pub open spec fn quarter_turns_of(v: Complex64, m: int) -> Complex64 {
    if m == 1 {
        i_mul_of(v)
    } else if m == 2 {
        neg_of(v)
    } else if m == 3 {
        neg_of(i_mul_of(v))
    } else {
        v
    }
}

/// The coefficient a non-commuting term `(q -> alpha)` contributes at the
/// product key `p * q`: `i^phase * (alpha * sin_weight)`.
pub open spec fn rotated_coeff(
    alpha: Complex64,
    sin_weight: Complex64,
    p: Seq<Pauli>,
    q: Seq<Pauli>,
) -> Complex64 {
    quarter_turns_of(mul_of(alpha, sin_weight), phase_sum(p, q) % 4)
}

/// The named sum of the diagonal terms' coefficients among the first `n`
/// entries, in term order, starting from the named zero.
pub open spec fn diagonal_sum(s: Seq<Term>, n: int) -> Complex64
    decreases n,
{
    if n <= 0 {
        complex_zero(())
    } else if is_diagonal(s[n - 1].key@) {
        add_of(diagonal_sum(s, n - 1), s[n - 1].coeff)
    } else {
        diagonal_sum(s, n - 1)
    }
}

/// Entry `j` of `kept` carries the key, coefficient and width of some
/// entry of `terms` below `upper`.
pub open spec fn copied_from(kept: Seq<Term>, j: int, terms: Seq<Term>, upper: int, width: int) -> bool {
    exists|q: int|
        0 <= q < upper && (#[trigger] terms[q]).key@ == kept[j].key@ && terms[q].coeff
            == kept[j].coeff && kept[j].key.chunks@.len() == width
}

/// The coefficient entry `q` of `terms` carries into the scaling half:
/// unchanged when its key commutes with `p`, else multiplied by the
/// cosine weight.
pub open spec fn scaled_coeff(terms: Seq<Term>, q: int, p: Seq<Pauli>, cosw: Complex64) -> Complex64 {
    if commutes(terms[q].key@, p) {
        terms[q].coeff
    } else {
        mul_of(terms[q].coeff, cosw)
    }
}

/// Entry `j` of `kept` carries the key of some entry of `terms` below
/// `upper`, with exactly its scaled coefficient.
pub open spec fn sourced_from(
    kept: Seq<Term>,
    j: int,
    terms: Seq<Term>,
    upper: int,
    p: Seq<Pauli>,
    cosw: Complex64,
    width: int,
) -> bool {
    exists|q: int|
        0 <= q < upper && (#[trigger] terms[q]).key@ == kept[j].key@ && kept[j].key.chunks@.len()
            == width && kept[j].coeff == scaled_coeff(terms, q, p, cosw)
}

/// Entry `j` of `fresh` is the product of `p` with some non-commuting key
/// of `terms` below `upper`, carrying exactly the rotated coefficient.
pub open spec fn product_from(
    fresh: Seq<Term>,
    j: int,
    terms: Seq<Term>,
    upper: int,
    p: Seq<Pauli>,
    sinw: Complex64,
    width: int,
) -> bool {
    exists|q: int|
        0 <= q < upper && !commutes((#[trigger] terms[q]).key@, p) && fresh[j].key@ == seq_mul(
            p,
            terms[q].key@,
        ) && fresh[j].coeff == rotated_coeff(terms[q].coeff, sinw, p, terms[q].key@)
            && fresh[j].key.chunks@.len() == width
}

/// Entry `q` of `terms` stands in `kept` with its scaled coefficient.
pub open spec fn scaled_present(
    kept: Seq<Term>,
    terms: Seq<Term>,
    q: int,
    p: Seq<Pauli>,
    cosw: Complex64,
) -> bool {
    exists|j: int|
        0 <= j < kept.len() && (#[trigger] kept[j]).key@ == terms[q].key@ && kept[j].coeff
            == scaled_coeff(terms, q, p, cosw)
}

/// The product of `p` with the key of entry `q` stands in `fresh` with
/// the rotated coefficient.
pub open spec fn product_present(
    fresh: Seq<Term>,
    terms: Seq<Term>,
    q: int,
    p: Seq<Pauli>,
    sinw: Complex64,
) -> bool {
    exists|j: int|
        0 <= j < fresh.len() && (#[trigger] fresh[j]).key@ == seq_mul(p, terms[q].key@)
            && fresh[j].coeff == rotated_coeff(terms[q].coeff, sinw, p, terms[q].key@)
}

/// The key of entry `q` of `terms` stands in `kept` with the same
/// coefficient.
pub open spec fn key_kept(kept: Seq<Term>, terms: Seq<Term>, q: int) -> bool {
    exists|j: int|
        0 <= j < kept.len() && (#[trigger] kept[j]).key@ == terms[q].key@ && kept[j].coeff
            == terms[q].coeff
}

/// Some key of `dom` fails to commute with `p` and its product with `p`
/// is `k`.
pub open spec fn product_hits(dom: Set<Seq<Pauli>>, p: Seq<Pauli>, k: Seq<Pauli>) -> bool {
    exists|q: Seq<Pauli>| #[trigger] dom.contains(q) && !commutes(q, p) && k == seq_mul(p, q)
}

/// Every key of `dom` commutes with `p`.
pub open spec fn all_commute(dom: Set<Seq<Pauli>>, p: Seq<Pauli>) -> bool {
    forall|k: Seq<Pauli>| #[trigger] dom.contains(k) ==> commutes(k, p)
}

/// The value the scaling half of the update gives a key of `m` that
/// stays: unchanged when it commutes with `p`, else multiplied by the
/// cosine weight.
pub open spec fn scaled_val(
    m: Map<Seq<Pauli>, Complex64>,
    p: Seq<Pauli>,
    cosw: Complex64,
    k: Seq<Pauli>,
) -> Complex64 {
    if commutes(k, p) {
        m[k]
    } else {
        mul_of(m[k], cosw)
    }
}

/// Whether `k` survives the scaling half: in the move case (cosine below
/// epsilon) only commuting keys stay.
pub open spec fn in_scaled(
    m: Map<Seq<Pauli>, Complex64>,
    p: Seq<Pauli>,
    move_case: bool,
    k: Seq<Pauli>,
) -> bool {
    m.dom().contains(k) && (commutes(k, p) || !move_case)
}

/// The non-commuting key of `dom` whose product with `p` is `k`; unique,
/// since multiplying by `p` is injective.
pub open spec fn source_of(dom: Set<Seq<Pauli>>, p: Seq<Pauli>, k: Seq<Pauli>) -> Seq<Pauli> {
    choose|q: Seq<Pauli>| #[trigger] dom.contains(q) && !commutes(q, p) && k == seq_mul(p, q)
}

/// The rotated coefficient that lands on the product key `k`.
pub open spec fn rotated_at(
    m: Map<Seq<Pauli>, Complex64>,
    p: Seq<Pauli>,
    sinw: Complex64,
    k: Seq<Pauli>,
) -> Complex64 {
    rotated_coeff(m[source_of(m.dom(), p, k)], sinw, p, source_of(m.dom(), p, k))
}

/// Whether `k` stands in the map after the merge of the rotated terms.
pub open spec fn in_merged(
    m: Map<Seq<Pauli>, Complex64>,
    p: Seq<Pauli>,
    move_case: bool,
    k: Seq<Pauli>,
) -> bool {
    in_scaled(m, p, move_case, k) || product_hits(m.dom(), p, k)
}

/// The merged coefficient at `k`: the scaled value, the rotated value of
/// its source, or their named sum when a product lands on a surviving
/// key.
pub open spec fn merged_val(
    m: Map<Seq<Pauli>, Complex64>,
    p: Seq<Pauli>,
    cosw: Complex64,
    sinw: Complex64,
    move_case: bool,
    k: Seq<Pauli>,
) -> Complex64 {
    if product_hits(m.dom(), p, k) {
        if in_scaled(m, p, move_case, k) {
            add_of(scaled_val(m, p, cosw, k), rotated_at(m, p, sinw, k))
        } else {
            rotated_at(m, p, sinw, k)
        }
    } else {
        scaled_val(m, p, cosw, k)
    }
}

/// All keys of `dom` hold `n` letters.
pub open spec fn dom_widths(dom: Set<Seq<Pauli>>, n: int) -> bool {
    forall|k: Seq<Pauli>| #[trigger] dom.contains(k) ==> k.len() == n
}

/// Some entry of `fresh` still carries the key `k`.
pub open spec fn pending(fresh: Seq<Term>, k: Seq<Pauli>) -> bool {
    exists|j: int| 0 <= j < fresh.len() && (#[trigger] fresh[j]).key@ == k
}

/// The source of a product key is the key it was built from.
proof fn lemma_source_is(dom: Set<Seq<Pauli>>, p: Seq<Pauli>, q: Seq<Pauli>)
    requires
        dom.contains(q),
        !commutes(q, p),
        q.len() == p.len(),
        dom_widths(dom, p.len() as int),
    ensures
        source_of(dom, p, seq_mul(p, q)) == q,
{
    let k = seq_mul(p, q);
    assert(dom.contains(q) && !commutes(q, p) && k == seq_mul(p, q));
    let q2 = choose|q2: Seq<Pauli>| #[trigger] dom.contains(q2) && !commutes(q2, p) && k == seq_mul(
        p,
        q2,
    );
    crate::laws::lemma_seq_mul_injective(p, q2, q);
}

/// The whole map-level effect of applying one gate: the trivial rotation
/// rescales in place; a gate that commutes with every key changes
/// nothing; otherwise the merged map survives pruning at each key's
/// weight.
pub open spec fn gate_update(
    m: Map<Seq<Pauli>, Complex64>,
    g: Gate,
    bounds: Seq<Complex64>,
) -> Map<Seq<Pauli>, Complex64> {
    if g.sin_is_small {
        Map::new(
            |k: Seq<Pauli>| m.dom().contains(k),
            |k: Seq<Pauli>| scaled_val(m, g.ps@, g.cos_weight, k),
        )
    } else if all_commute(m.dom(), g.ps@) {
        m
    } else {
        Map::new(
            |k: Seq<Pauli>|
                in_merged(m, g.ps@, g.cos_is_small, k) && !norm_below_of(
                    merged_val(m, g.ps@, g.cos_weight, g.sin_weight, g.cos_is_small, k),
                    bounds[xy_weight(k)],
                ),
            |k: Seq<Pauli>| merged_val(m, g.ps@, g.cos_weight, g.sin_weight, g.cos_is_small, k),
        )
    }
}

pub proof fn lemma_terms_map_contains(s: Seq<Term>, k: Seq<Pauli>)
    ensures
        terms_map(s).dom().contains(k) <==> exists|i: int|
            0 <= i < s.len() && #[trigger] s[i].key@ == k,
    decreases s.len(),
{
    if s.len() > 0 {
        lemma_terms_map_contains(s.drop_last(), k);
        if terms_map(s).dom().contains(k) {
            if s.last().key@ == k {
                assert(s[s.len() - 1].key@ == k);
            } else {
                let i = choose|i: int|
                    0 <= i < s.drop_last().len() && #[trigger] s.drop_last()[i].key@ == k;
                assert(s[i].key@ == k);
            }
        }
        if exists|i: int| 0 <= i < s.len() && #[trigger] s[i].key@ == k {
            let i = choose|i: int| 0 <= i < s.len() && #[trigger] s[i].key@ == k;
            if i < s.len() - 1 {
                assert(s.drop_last()[i].key@ == k);
            }
        }
    }
}

pub proof fn lemma_terms_map_index(s: Seq<Term>, i: int)
    requires
        unique_keys(s),
        0 <= i < s.len(),
    ensures
        terms_map(s).dom().contains(s[i].key@),
        terms_map(s)[s[i].key@] == s[i].coeff,
    decreases s.len(),
{
    lemma_terms_map_contains(s, s[i].key@);
    if i < s.len() - 1 {
        assert(s[i].key@ != s.last().key@);
        assert(s.drop_last()[i] == s[i]);
        lemma_terms_map_index(s.drop_last(), i);
    }
}

pub proof fn lemma_terms_map_push(s: Seq<Term>, t: Term)
    ensures
        terms_map(s.push(t)) == terms_map(s).insert(t.key@, t.coeff),
{
    assert(s.push(t).drop_last() =~= s);
    assert(s.push(t).last() == t);
}

pub proof fn lemma_terms_map_update(s: Seq<Term>, i: int, t: Term)
    requires
        unique_keys(s),
        0 <= i < s.len(),
        t.key@ == s[i].key@,
    ensures
        terms_map(s.update(i, t)) == terms_map(s).insert(t.key@, t.coeff),
    decreases s.len(),
{
    let s2 = s.update(i, t);
    if i == s.len() - 1 {
        assert(s2.drop_last() =~= s.drop_last());
        assert(s2.last() == t);
        assert(terms_map(s2) =~= terms_map(s).insert(t.key@, t.coeff));
    } else {
        assert(s2.drop_last() =~= s.drop_last().update(i, t));
        assert(s2.last() == s.last());
        lemma_terms_map_update(s.drop_last(), i, t);
        assert(s.last().key@ != t.key@);
        assert(terms_map(s2) =~= terms_map(s).insert(t.key@, t.coeff));
    }
}

/// Two term lists with the same keys and coefficients entry for entry
/// stand for the same map.
pub proof fn lemma_terms_map_congruent(a: Seq<Term>, b: Seq<Term>)
    requires
        a.len() == b.len(),
        forall|i: int| 0 <= i < a.len() ==> a[i].key@ == b[i].key@ && a[i].coeff == b[i].coeff,
    ensures
        terms_map(a) == terms_map(b),
    decreases a.len(),
{
    if a.len() > 0 {
        assert forall|i: int| 0 <= i < a.drop_last().len() implies a.drop_last()[i].key@
            == b.drop_last()[i].key@ && a.drop_last()[i].coeff == b.drop_last()[i].coeff by {
            assert(a[i].key@ == b[i].key@ && a[i].coeff == b[i].coeff);
        }
        lemma_terms_map_congruent(a.drop_last(), b.drop_last());
        assert(a.last().key@ == b.last().key@ && a.last().coeff == b.last().coeff);
    }
}

/// A list whose every entry copies an entry of a well-formed list stands
/// for a submap of it.
pub proof fn lemma_copied_submap(kept: Seq<Term>, terms: Seq<Term>, width: int)
    requires
        unique_keys(terms),
        unique_keys(kept),
        forall|j: int| 0 <= j < kept.len() ==> copied_from(kept, j, terms, terms.len() as int, width),
    ensures
        forall|j: int| 0 <= j < kept.len() ==> (#[trigger] kept[j].key.chunks@.len()) == width,
        forall|k: Seq<Pauli>| #[trigger]
            terms_map(kept).dom().contains(k) ==> terms_map(terms).dom().contains(k) && terms_map(
                kept,
            )[k] == terms_map(terms)[k],
{
    assert forall|j: int| 0 <= j < kept.len() implies (#[trigger] kept[j].key.chunks@.len())
        == width by {
        assert(copied_from(kept, j, terms, terms.len() as int, width));
        let q = choose|q: int|
            0 <= q < terms.len() && (#[trigger] terms[q]).key@ == kept[j].key@ && terms[q].coeff
                == kept[j].coeff && kept[j].key.chunks@.len() == width;
    }
    assert forall|k: Seq<Pauli>| #[trigger]
        terms_map(kept).dom().contains(k) implies terms_map(terms).dom().contains(k) && terms_map(
        kept,
    )[k] == terms_map(terms)[k] by {
        lemma_terms_map_contains(kept, k);
        let j = choose|j: int| 0 <= j < kept.len() && #[trigger] kept[j].key@ == k;
        assert(copied_from(kept, j, terms, terms.len() as int, width));
        let q = choose|q: int|
            0 <= q < terms.len() && (#[trigger] terms[q]).key@ == kept[j].key@ && terms[q].coeff
                == kept[j].coeff && kept[j].key.chunks@.len() == width;
        lemma_terms_map_index(kept, j);
        lemma_terms_map_index(terms, q);
    }
}

/// An all-identity gate string commutes with every key of an observable
/// of its width, so by `apply_gate`'s contract applying such a gate
/// leaves the observable's map unchanged, whatever the rotation time.
pub proof fn lemma_identity_gate_is_noop(obs: &Observable, p: Seq<Pauli>)
    requires
        obs.wf(),
        all_identity(p),
        p.len() == 64 * obs.width,
    ensures
        all_commute(obs.as_map().dom(), p),
{
    assert forall|k: Seq<Pauli>| #[trigger] obs.as_map().dom().contains(k) implies commutes(
        k,
        p,
    ) by {
        lemma_terms_map_contains(obs.terms@, k);
        let i = choose|i: int| 0 <= i < obs.terms@.len() && #[trigger] obs.terms@[i].key@ == k;
        assert(k.len() == 64 * obs.terms@[i].key.chunks@.len());
        crate::laws::lemma_identity_commutes(k, p);
    }
}

/// H = sum of coefficient times Pauli string, as a sparse map.
#[derive(Debug)]
pub struct Observable {
    /// Chunk count of every key.
    pub width: usize,
    pub terms: Vec<Term>,
}

impl Observable {
    pub open spec fn wf(&self) -> bool {
        &&& self.width <= MAX_CHUNKS
        &&& forall|i: int|
            0 <= i < self.terms@.len() ==> (#[trigger] self.terms@[i].key.chunks@.len())
                == self.width
        &&& unique_keys(self.terms@)
    }

    /// The map this observable stands for.
    pub open spec fn as_map(&self) -> Map<Seq<Pauli>, Complex64> {
        terms_map(self.terms@)
    }

    /// The observable holding the single term `coeff * ps`.
    pub fn new(ps: PauliString, coeff: Complex64) -> (r: Observable)
        requires
            ps.wf(),
        ensures
            r.wf(),
            r.width == ps.chunks@.len(),
            r.terms@.len() == 1,
            r.terms@[0].key@ == ps@,
            r.terms@[0].coeff == coeff,
            r.as_map() == Map::<Seq<Pauli>, Complex64>::empty().insert(ps@, coeff),
    {
        let width = ps.chunks.len();
        let mut terms: Vec<Term> = Vec::new();
        terms.push(Term { key: ps, coeff });
        let r = Observable { width, terms };
        proof {
            assert(r.terms@.len() == 1);
            assert(r.terms@.last().key@ == ps@ && r.terms@.last().coeff == coeff);
            assert(r.terms@.drop_last() =~= Seq::<Term>::empty());
            assert(terms_map(Seq::<Term>::empty()) == Map::<Seq<Pauli>, Complex64>::empty());
            assert(r.as_map() == terms_map(r.terms@.drop_last()).insert(
                r.terms@.last().key@,
                r.terms@.last().coeff,
            ));
            assert(r.as_map() =~~= Map::<Seq<Pauli>, Complex64>::empty().insert(ps@, coeff));
        }
        r
    }

    /// Number of terms held.
    pub fn size(&self) -> (r: usize)
        ensures
            r == self.terms@.len(),
    {
        self.terms.len()
    }

    /// The expectation value on the all-zero basis state: the fold, in
    /// term order, of the named complex addition over the diagonal terms'
    /// coefficients, starting from the named zero.
    pub fn get_average(&self) -> (r: Complex64)
        ensures
            r == diagonal_sum(self.terms@, self.terms@.len() as int),
    {
        let mut acc = c_zero();
        let n = self.terms.len();
        let mut i: usize = 0;
        while i < n
            invariant
                i <= n,
                n == self.terms@.len(),
                acc == diagonal_sum(self.terms@, i as int),
            decreases n - i,
        {
            if self.terms[i].key.average() == 1 {
                acc = c_add(&acc, &self.terms[i].coeff);
            }
            i += 1;
        }
        acc
    }

    /// Add one term into the map: merged into an existing entry with the
    /// same key, appended otherwise.
    fn merge_term(&mut self, t: Term)
        requires
            old(self).wf(),
            t.key.chunks@.len() == old(self).width,
        ensures
            final(self).wf(),
            final(self).width == old(self).width,
            final(self).as_map().dom() == old(self).as_map().dom().insert(t.key@),
            forall|k: Seq<Pauli>|
                k != t.key@ && old(self).as_map().dom().contains(k) ==> final(self).as_map()[k]
                    == old(self).as_map()[k],
            !old(self).as_map().dom().contains(t.key@) ==> final(self).as_map()[t.key@] == t.coeff,
            old(self).as_map().dom().contains(t.key@) ==> final(self).as_map()[t.key@] == add_of(
                old(self).as_map()[t.key@],
                t.coeff,
            ),
    {
        let n = self.terms.len();
        let mut i: usize = 0;
        while i < n
            invariant
                i <= n,
                n == self.terms@.len(),
                self == old(self),
                self.wf(),
                t.key.chunks@.len() == self.width,
                forall|j: int| 0 <= j < i ==> self.terms@[j].key@ != t.key@,
            decreases n - i,
        {
            if self.terms[i].key.key_eq(&t.key) {
                let c = c_add(&self.terms[i].coeff, &t.coeff);
                let t2 = Term { key: t.key, coeff: c };
                proof {
                    lemma_terms_map_update(self.terms@, i as int, t2);
                    lemma_terms_map_index(self.terms@, i as int);
                    assert forall|j1: int, j2: int|
                        0 <= j1 < j2 < self.terms@.update(i as int, t2).len() implies self.terms@.update(
                        i as int,
                        t2,
                    )[j1].key@ != self.terms@.update(i as int, t2)[j2].key@ by {
                        assert(self.terms@[j1].key@ != self.terms@[j2].key@);
                    }
                    assert(self.as_map().insert(t2.key@, t2.coeff).dom() =~= self.as_map().dom().insert(
                        t.key@,
                    ));
                }
                self.terms[i] = t2;
                return ;
            }
            i += 1;
        }
        proof {
            lemma_terms_map_contains(self.terms@, t.key@);
            lemma_terms_map_push(self.terms@, t);
            assert forall|j1: int, j2: int|
                0 <= j1 < j2 < self.terms@.push(t).len() implies self.terms@.push(t)[j1].key@
                != self.terms@.push(t)[j2].key@ by {
                if j2 < self.terms@.len() {
                    assert(self.terms@[j1].key@ != self.terms@[j2].key@);
                }
            }
            assert(self.as_map().insert(t.key@, t.coeff).dom() =~= self.as_map().dom().insert(
                t.key@,
            ));
        }
        self.terms.push(t);
    }

    /// Remove exactly the terms whose coefficient's modulus is below the
    /// bound for their weight: a key survives iff its named norm test
    /// against `prune_bounds` at its weight fails, and every survivor
    /// keeps its coefficient.
    fn prune(&mut self, prune_bounds: &Vec<Complex64>)
        requires
            old(self).wf(),
            prune_bounds@.len() > 64 * old(self).width,
        ensures
            final(self).wf(),
            final(self).width == old(self).width,
            final(self).terms@.len() <= old(self).terms@.len(),
            forall|k: Seq<Pauli>| #[trigger]
                final(self).as_map().dom().contains(k) <==> old(self).as_map().dom().contains(k)
                    && !norm_below_of(old(self).as_map()[k], prune_bounds@[xy_weight(k)]),
            forall|k: Seq<Pauli>| #[trigger]
                final(self).as_map().dom().contains(k) ==> final(self).as_map()[k] == old(
                    self,
                ).as_map()[k],
    {
        let n = self.terms.len();
        let mut kept: Vec<Term> = Vec::new();
        let mut i: usize = 0;
        while i < n
            invariant
                i <= n,
                n == self.terms@.len(),
                self == old(self),
                self.wf(),
                prune_bounds@.len() > 64 * self.width,
                kept@.len() <= i,
                forall|j: int|
                    0 <= j < kept@.len() ==> copied_from(
                        kept@,
                        j,
                        self.terms@,
                        i as int,
                        self.width as int,
                    ),
                forall|j: int|
                    0 <= j < kept@.len() ==> !norm_below_of(
                        (#[trigger] kept@[j]).coeff,
                        prune_bounds@[xy_weight(kept@[j].key@)],
                    ),
                forall|q: int|
                    0 <= q < i && !norm_below_of(
                        (#[trigger] self.terms@[q]).coeff,
                        prune_bounds@[xy_weight(self.terms@[q].key@)],
                    ) ==> key_kept(kept@, self.terms@, q),
                unique_keys(kept@),
            decreases n - i,
        {
            let t = &self.terms[i];
            let h = t.key.hamming();
            if !norm_below(&t.coeff, &prune_bounds[h as usize]) {
                let ghost kept0 = kept@;
                kept.push(Term { key: t.key.duplicate(), coeff: t.coeff });
                proof {
                    let up = i + 1;
                    assert forall|j: int| 0 <= j < kept@.len() implies copied_from(
                        kept@,
                        j,
                        self.terms@,
                        up,
                        self.width as int,
                    ) by {
                        if j < kept0.len() {
                            assert(kept@[j] == kept0[j]);
                            assert(copied_from(kept0, j, self.terms@, i as int, self.width as int));
                            let q = choose|q: int|
                                0 <= q < i && (#[trigger] self.terms@[q]).key@ == kept0[j].key@
                                    && self.terms@[q].coeff == kept0[j].coeff
                                    && kept0[j].key.chunks@.len() == self.width as int;
                            assert(0 <= q < i + 1 && self.terms@[q].key@ == kept@[j].key@
                                && self.terms@[q].coeff == kept@[j].coeff
                                && kept@[j].key.chunks@.len() == self.width as int);
                        } else {
                            assert(self.terms@[i as int].key@ == kept@[j].key@ && self.terms@[i as int].coeff
                                == kept@[j].coeff && kept@[j].key.chunks@.len() == self.width as int);
                        }
                    }
                    assert forall|j1: int, j2: int|
                        0 <= j1 < j2 < kept@.len() implies kept@[j1].key@ != kept@[j2].key@ by {
                        if j2 == kept@.len() - 1 {
                            assert(copied_from(kept0, j1, self.terms@, i as int, self.width as int));
                            let q = choose|q: int|
                                0 <= q < i && (#[trigger] self.terms@[q]).key@ == kept0[j1].key@
                                    && self.terms@[q].coeff == kept0[j1].coeff
                                    && kept0[j1].key.chunks@.len() == self.width as int;
                            assert(self.terms@[q].key@ != self.terms@[i as int].key@);
                            assert(kept@[j1] == kept0[j1]);
                        } else {
                            assert(kept@[j1] == kept0[j1] && kept@[j2] == kept0[j2]);
                        }
                    }
                    assert forall|j: int| 0 <= j < kept@.len() implies !norm_below_of(
                        (#[trigger] kept@[j]).coeff,
                        prune_bounds@[xy_weight(kept@[j].key@)],
                    ) by {
                        if j < kept0.len() {
                            assert(kept@[j] == kept0[j]);
                        } else {
                            assert(kept@[j].key@ == self.terms@[i as int].key@);
                        }
                    }
                    assert forall|q: int|
                        0 <= q < i + 1 && !norm_below_of(
                            (#[trigger] self.terms@[q]).coeff,
                            prune_bounds@[xy_weight(self.terms@[q].key@)],
                        ) implies key_kept(kept@, self.terms@, q) by {
                        if q < i {
                            assert(key_kept(kept0, self.terms@, q));
                            let j = choose|j: int|
                                0 <= j < kept0.len() && (#[trigger] kept0[j]).key@
                                    == self.terms@[q].key@ && kept0[j].coeff
                                    == self.terms@[q].coeff;
                            assert(kept@[j] == kept0[j]);
                            assert(0 <= j < kept@.len() && kept@[j].key@ == self.terms@[q].key@
                                && kept@[j].coeff == self.terms@[q].coeff);
                        } else {
                            let j = kept@.len() - 1;
                            assert(kept@[j].key@ == self.terms@[q].key@ && kept@[j].coeff
                                == self.terms@[q].coeff);
                        }
                    }
                }
            } else {
                proof {
                    let up1 = i + 1;
                    assert forall|j: int| 0 <= j < kept@.len() implies copied_from(
                        kept@,
                        j,
                        self.terms@,
                        up1,
                        self.width as int,
                    ) by {
                        assert(copied_from(kept@, j, self.terms@, i as int, self.width as int));
                        let q = choose|q: int|
                            0 <= q < i && (#[trigger] self.terms@[q]).key@ == kept@[j].key@
                                && self.terms@[q].coeff == kept@[j].coeff
                                && kept@[j].key.chunks@.len() == self.width as int;
                        assert(0 <= q < up1 && self.terms@[q].key@ == kept@[j].key@
                            && self.terms@[q].coeff == kept@[j].coeff
                            && kept@[j].key.chunks@.len() == self.width as int);
                    }
                    assert forall|q: int|
                        0 <= q < i + 1 && !norm_below_of(
                            (#[trigger] self.terms@[q]).coeff,
                            prune_bounds@[xy_weight(self.terms@[q].key@)],
                        ) implies key_kept(kept@, self.terms@, q) by {
                        assert(q < i);
                        assert(key_kept(kept@, self.terms@, q));
                    }
                }
            }
            i += 1;
        }
        proof {
            let up = self.terms@.len() as int;
            assert forall|j: int| 0 <= j < kept@.len() implies copied_from(
                kept@,
                j,
                self.terms@,
                up,
                self.width as int,
            ) by {
                assert(copied_from(kept@, j, self.terms@, i as int, self.width as int));
                let q = choose|q: int|
                    0 <= q < i && (#[trigger] self.terms@[q]).key@ == kept@[j].key@
                        && self.terms@[q].coeff == kept@[j].coeff && kept@[j].key.chunks@.len()
                        == self.width as int;
                assert(0 <= q < self.terms@.len() && self.terms@[q].key@ == kept@[j].key@
                    && self.terms@[q].coeff == kept@[j].coeff);
            }
            lemma_copied_submap(kept@, self.terms@, self.width as int);
            assert forall|k: Seq<Pauli>| #[trigger]
                terms_map(kept@).dom().contains(k) implies !norm_below_of(
                terms_map(self.terms@)[k],
                prune_bounds@[xy_weight(k)],
            ) by {
                lemma_terms_map_contains(kept@, k);
                let j = choose|j: int| 0 <= j < kept@.len() && #[trigger] kept@[j].key@ == k;
                lemma_terms_map_index(kept@, j);
            }
            assert forall|k: Seq<Pauli>|
                #[trigger] terms_map(self.terms@).dom().contains(k) && !norm_below_of(
                    terms_map(self.terms@)[k],
                    prune_bounds@[xy_weight(k)],
                ) implies terms_map(kept@).dom().contains(k) by {
                lemma_terms_map_contains(self.terms@, k);
                let q = choose|q: int| 0 <= q < self.terms@.len() && #[trigger] self.terms@[q].key@ == k;
                lemma_terms_map_index(self.terms@, q);
                assert(key_kept(kept@, self.terms@, q));
                let j = choose|j: int|
                    0 <= j < kept@.len() && (#[trigger] kept@[j]).key@ == self.terms@[q].key@
                        && kept@[j].coeff == self.terms@[q].coeff;
                lemma_terms_map_contains(kept@, k);
            }
        }
        self.terms = kept;
    }

    /// Heisenberg update under one gate, then (when any new term was
    /// produced) the pruning pass.
    ///
    /// `prune_bounds[h]` must hold the threshold scaled by
    /// `2^(h * decay / 2)`: a term of weight `h` is pruned when its
    /// coefficient's modulus is below that entry.
    ///
    /// The contract pins the whole update over the named complex
    /// operations: the trivial-rotation case rescales every non-commuting
    /// coefficient by the cosine weight in place; otherwise, when any key
    /// fails to commute, the final map is exactly the merged map
    /// (`in_merged` / `merged_val`) restricted to the keys whose merged
    /// coefficient is not below the pruning bound at their weight.
    #[verifier::rlimit(80)]
    pub fn apply_gate(&mut self, gate: &Gate, prune_bounds: &Vec<Complex64>)
        requires
            old(self).wf(),
            gate.ps.wf(),
            gate.ps.chunks@.len() == old(self).width,
            prune_bounds@.len() > 64 * old(self).width,
        ensures
            final(self).wf(),
            final(self).width == old(self).width,
            forall|k: Seq<Pauli>| #[trigger]
                final(self).as_map().dom().contains(k) ==> old(self).as_map().dom().contains(k)
                    || product_hits(old(self).as_map().dom(), gate.ps@, k),
            forall|k: Seq<Pauli>|
                #[trigger] final(self).as_map().dom().contains(k) && old(
                    self,
                ).as_map().dom().contains(k) && commutes(k, gate.ps@) && !product_hits(
                    old(self).as_map().dom(),
                    gate.ps@,
                    k,
                ) ==> final(self).as_map()[k] == old(self).as_map()[k],
            all_commute(old(self).as_map().dom(), gate.ps@) ==> final(self).as_map() == old(
                self,
            ).as_map(),
            all_commute(old(self).as_map().dom(), gate.ps@) ==> (final(self).terms@.len() == old(
                self,
            ).terms@.len() && forall|i: int|
                0 <= i < old(self).terms@.len() ==> (#[trigger] final(self).terms@[i]).key@ == old(
                    self,
                ).terms@[i].key@ && final(self).terms@[i].coeff == old(self).terms@[i].coeff),
            gate.sin_is_small ==> final(self).as_map().dom() == old(self).as_map().dom(),
            gate.sin_is_small ==> forall|k: Seq<Pauli>| #[trigger]
                old(self).as_map().dom().contains(k) ==> final(self).as_map()[k] == scaled_val(
                    old(self).as_map(),
                    gate.ps@,
                    gate.cos_weight,
                    k,
                ),
            (gate.cos_is_small && !gate.sin_is_small) ==> forall|k: Seq<Pauli>| #[trigger]
                final(self).as_map().dom().contains(k) ==> commutes(k, gate.ps@) || product_hits(
                    old(self).as_map().dom(),
                    gate.ps@,
                    k,
                ),
            (!gate.sin_is_small && !all_commute(old(self).as_map().dom(), gate.ps@))
                ==> forall|k: Seq<Pauli>|
                (#[trigger] final(self).as_map().dom().contains(k)) <==> (in_merged(
                    old(self).as_map(),
                    gate.ps@,
                    gate.cos_is_small,
                    k,
                ) && !norm_below_of(
                    merged_val(
                        old(self).as_map(),
                        gate.ps@,
                        gate.cos_weight,
                        gate.sin_weight,
                        gate.cos_is_small,
                        k,
                    ),
                    prune_bounds@[xy_weight(k)],
                )),
            (!gate.sin_is_small && !all_commute(old(self).as_map().dom(), gate.ps@))
                ==> forall|k: Seq<Pauli>| #[trigger]
                final(self).as_map().dom().contains(k) ==> final(self).as_map()[k] == merged_val(
                    old(self).as_map(),
                    gate.ps@,
                    gate.cos_weight,
                    gate.sin_weight,
                    gate.cos_is_small,
                    k,
                ),
            final(self).as_map() == gate_update(old(self).as_map(), *gate, prune_bounds@),
    {
        let n = self.terms.len();
        let mut kept: Vec<Term> = Vec::new();
        let mut fresh: Vec<Term> = Vec::new();
        let mut idx: usize = 0;
        while idx < n
            invariant
                idx <= n,
                n == self.terms@.len(),
                self == old(self),
                self.wf(),
                gate.ps.wf(),
                gate.ps.chunks@.len() == self.width,
                forall|j: int|
                    0 <= j < kept@.len() ==> sourced_from(
                        kept@,
                        j,
                        self.terms@,
                        idx as int,
                        gate.ps@,
                        gate.cos_weight,
                        self.width as int,
                    ),
                unique_keys(kept@),
                forall|q: int|
                    0 <= q < idx && (commutes((#[trigger] self.terms@[q]).key@, gate.ps@)
                        || gate.sin_is_small || !gate.cos_is_small) ==> scaled_present(
                        kept@,
                        self.terms@,
                        q,
                        gate.ps@,
                        gate.cos_weight,
                    ),
                forall|j: int|
                    0 <= j < fresh@.len() ==> product_from(
                        fresh@,
                        j,
                        self.terms@,
                        idx as int,
                        gate.ps@,
                        gate.sin_weight,
                        self.width as int,
                    ),
                forall|q: int|
                    0 <= q < idx && !commutes((#[trigger] self.terms@[q]).key@, gate.ps@)
                        && !gate.sin_is_small ==> product_present(
                        fresh@,
                        self.terms@,
                        q,
                        gate.ps@,
                        gate.sin_weight,
                    ),
                forall|j1: int, j2: int|
                    0 <= j1 < j2 < fresh@.len() ==> (#[trigger] fresh@[j1]).key@ != (
                    #[trigger] fresh@[j2]).key@,
                (forall|q: int|
                    0 <= q < idx ==> commutes((#[trigger] self.terms@[q]).key@, gate.ps@)) ==> (
                kept@.len() == idx && fresh@.len() == 0 && forall|j: int|
                    0 <= j < idx ==> (#[trigger] kept@[j]).key@ == self.terms@[j].key@
                        && kept@[j].coeff == self.terms@[j].coeff),
                gate.sin_is_small ==> fresh@.len() == 0,
                (gate.cos_is_small && !gate.sin_is_small) ==> forall|j: int|
                    0 <= j < kept@.len() ==> commutes((#[trigger] kept@[j]).key@, gate.ps@),
            decreases n - idx,
        {
            let ghost kept0 = kept@;
            let ghost fresh0 = fresh@;
            let t = &self.terms[idx];
            let co = t.key.comute(&gate.ps);
            if co {
                kept.push(Term { key: t.key.duplicate(), coeff: t.coeff });
            } else if gate.sin_is_small {
                kept.push(Term { key: t.key.duplicate(), coeff: c_mul(&t.coeff, &gate.cos_weight) });
            } else if gate.cos_is_small {
                let (ph, nk) = gate.ps.multiply(&t.key);
                let c = quarter_turns(c_mul(&t.coeff, &gate.sin_weight), ph);
                fresh.push(Term { key: nk, coeff: c });
            } else {
                let (ph, nk) = gate.ps.multiply(&t.key);
                let c = quarter_turns(c_mul(&t.coeff, &gate.sin_weight), ph);
                fresh.push(Term { key: nk, coeff: c });
                kept.push(Term { key: t.key.duplicate(), coeff: c_mul(&t.coeff, &gate.cos_weight) });
            }
            proof {
                let terms = self.terms@;
                let p = gate.ps@;
                let w = self.width as int;
                let cw = gate.cos_weight;
                let sw = gate.sin_weight;
                let i = idx as int;
                let up = i + 1;
                assert forall|j: int| 0 <= j < kept@.len() implies sourced_from(
                    kept@,
                    j,
                    terms,
                    up,
                    p,
                    cw,
                    w,
                ) by {
                    if j < kept0.len() {
                        assert(kept@[j] == kept0[j]);
                        assert(sourced_from(kept0, j, terms, i, p, cw, w));
                        let q = choose|q: int|
                            0 <= q < i && (#[trigger] terms[q]).key@ == kept0[j].key@
                                && kept0[j].key.chunks@.len() == w && kept0[j].coeff
                                == scaled_coeff(terms, q, p, cw);
                        assert(0 <= q < up && terms[q].key@ == kept@[j].key@
                            && kept@[j].key.chunks@.len() == w && kept@[j].coeff == scaled_coeff(
                            terms,
                            q,
                            p,
                            cw,
                        ));
                    } else {
                        assert(terms[i].key@ == kept@[j].key@ && kept@[j].key.chunks@.len() == w
                            && kept@[j].coeff == scaled_coeff(terms, i, p, cw));
                    }
                }
                assert forall|j1: int, j2: int| 0 <= j1 < j2 < kept@.len() implies kept@[j1].key@
                    != kept@[j2].key@ by {
                    if j2 < kept0.len() {
                        assert(kept@[j1] == kept0[j1] && kept@[j2] == kept0[j2]);
                    } else {
                        assert(kept@[j1] == kept0[j1]);
                        assert(sourced_from(kept0, j1, terms, i, p, cw, w));
                        let q = choose|q: int|
                            0 <= q < i && (#[trigger] terms[q]).key@ == kept0[j1].key@
                                && kept0[j1].key.chunks@.len() == w && kept0[j1].coeff
                                == scaled_coeff(terms, q, p, cw);
                        assert(terms[q].key@ != terms[i].key@);
                        assert(kept@[j2].key@ == terms[i].key@);
                    }
                }
                assert forall|q: int|
                    0 <= q < up && (commutes((#[trigger] terms[q]).key@, p) || gate.sin_is_small
                        || !gate.cos_is_small) implies scaled_present(kept@, terms, q, p, cw) by {
                    if q < i {
                        assert(scaled_present(kept0, terms, q, p, cw));
                        let j = choose|j: int|
                            0 <= j < kept0.len() && (#[trigger] kept0[j]).key@ == terms[q].key@
                                && kept0[j].coeff == scaled_coeff(terms, q, p, cw);
                        assert(kept@[j] == kept0[j]);
                        assert(0 <= j < kept@.len() && kept@[j].key@ == terms[q].key@
                            && kept@[j].coeff == scaled_coeff(terms, q, p, cw));
                    } else {
                        let j = kept@.len() - 1;
                        assert(kept@[j].key@ == terms[q].key@ && kept@[j].coeff == scaled_coeff(
                            terms,
                            q,
                            p,
                            cw,
                        ));
                    }
                }
                assert forall|j: int| 0 <= j < fresh@.len() implies product_from(
                    fresh@,
                    j,
                    terms,
                    up,
                    p,
                    sw,
                    w,
                ) by {
                    if j < fresh0.len() {
                        assert(fresh@[j] == fresh0[j]);
                        assert(product_from(fresh0, j, terms, i, p, sw, w));
                        let q = choose|q: int|
                            0 <= q < i && !commutes((#[trigger] terms[q]).key@, p) && fresh0[j].key@
                                == seq_mul(p, terms[q].key@) && fresh0[j].coeff == rotated_coeff(
                                terms[q].coeff,
                                sw,
                                p,
                                terms[q].key@,
                            ) && fresh0[j].key.chunks@.len() == w;
                        assert(0 <= q < up && !commutes(terms[q].key@, p) && fresh@[j].key@
                            == seq_mul(p, terms[q].key@) && fresh@[j].coeff == rotated_coeff(
                            terms[q].coeff,
                            sw,
                            p,
                            terms[q].key@,
                        ) && fresh@[j].key.chunks@.len() == w);
                    } else {
                        assert(!commutes(terms[i].key@, p) && fresh@[j].key@ == seq_mul(
                            p,
                            terms[i].key@,
                        ) && fresh@[j].coeff == rotated_coeff(terms[i].coeff, sw, p, terms[i].key@)
                            && fresh@[j].key.chunks@.len() == w);
                    }
                }
                assert forall|q: int|
                    0 <= q < up && !commutes((#[trigger] terms[q]).key@, p)
                        && !gate.sin_is_small implies product_present(fresh@, terms, q, p, sw) by {
                    if q < i {
                        assert(product_present(fresh0, terms, q, p, sw));
                        let j = choose|j: int|
                            0 <= j < fresh0.len() && (#[trigger] fresh0[j]).key@ == seq_mul(
                                p,
                                terms[q].key@,
                            ) && fresh0[j].coeff == rotated_coeff(terms[q].coeff, sw, p, terms[q].key@);
                        assert(fresh@[j] == fresh0[j]);
                        assert(0 <= j < fresh@.len() && fresh@[j].key@ == seq_mul(p, terms[q].key@)
                            && fresh@[j].coeff == rotated_coeff(terms[q].coeff, sw, p, terms[q].key@));
                    } else {
                        let j = fresh@.len() - 1;
                        assert(fresh@[j].key@ == seq_mul(p, terms[q].key@) && fresh@[j].coeff
                            == rotated_coeff(terms[q].coeff, sw, p, terms[q].key@));
                    }
                }
                assert forall|j1: int, j2: int| 0 <= j1 < j2 < fresh@.len() implies (
                #[trigger] fresh@[j1]).key@ != (#[trigger] fresh@[j2]).key@ by {
                    if j2 < fresh0.len() {
                        assert(fresh@[j1] == fresh0[j1] && fresh@[j2] == fresh0[j2]);
                    } else {
                        assert(fresh@[j1] == fresh0[j1]);
                        assert(product_from(fresh0, j1, terms, i, p, sw, w));
                        let q = choose|q: int|
                            0 <= q < i && !commutes((#[trigger] terms[q]).key@, p) && fresh0[j1].key@
                                == seq_mul(p, terms[q].key@) && fresh0[j1].coeff == rotated_coeff(
                                terms[q].coeff,
                                sw,
                                p,
                                terms[q].key@,
                            ) && fresh0[j1].key.chunks@.len() == w;
                        assert(fresh@[j2].key@ == seq_mul(p, terms[i].key@));
                        assert(terms[q].key@ != terms[i].key@);
                        if fresh@[j1].key@ == fresh@[j2].key@ {
                            crate::laws::lemma_seq_mul_injective(p, terms[q].key@, terms[i].key@);
                            assert(false);
                        }
                    }
                }
                if forall|q: int| 0 <= q < up ==> commutes((#[trigger] terms[q]).key@, p) {
                    assert(commutes(terms[i].key@, p));
                    assert(kept@.len() == up && fresh@.len() == 0);
                    assert forall|j: int| 0 <= j < up implies (#[trigger] kept@[j]).key@
                        == terms[j].key@ && kept@[j].coeff == terms[j].coeff by {
                        if j < i {
                            assert(kept@[j] == kept0[j]);
                        }
                    }
                }
            }
            idx += 1;
        }
        let ghost oldmap = self.as_map();
        let ghost olddom = self.as_map().dom();
        let ghost oldterms = self.terms@;
        let ghost p = gate.ps@;
        let ghost w = self.width as int;
        let ghost cw = gate.cos_weight;
        let ghost sw = gate.sin_weight;
        let ghost move_case = gate.cos_is_small && !gate.sin_is_small;
        proof {
            let up = oldterms.len() as int;
            assert forall|j: int| 0 <= j < kept@.len() implies sourced_from(
                kept@,
                j,
                oldterms,
                up,
                p,
                cw,
                w,
            ) by {
                assert(sourced_from(kept@, j, oldterms, idx as int, p, cw, w));
            }
            assert forall|j: int| 0 <= j < fresh@.len() implies product_from(
                fresh@,
                j,
                oldterms,
                up,
                p,
                sw,
                w,
            ) by {
                assert(product_from(fresh@, j, oldterms, idx as int, p, sw, w));
            }
            assert forall|q: int|
                0 <= q < up && !commutes((#[trigger] oldterms[q]).key@, p)
                    && !gate.sin_is_small implies product_present(fresh@, oldterms, q, p, sw) by {}
            lemma_after_split(
                kept@,
                fresh@,
                oldterms,
                p,
                w,
                cw,
                sw,
                gate.cos_is_small,
                gate.sin_is_small,
            );
            assert forall|j: int| 0 <= j < kept@.len() implies (
            #[trigger] kept@[j].key.chunks@.len()) == self.width by {
                assert(sourced_from(kept@, j, oldterms, up, p, cw, w));
                let q = choose|q: int|
                    0 <= q < up && (#[trigger] oldterms[q]).key@ == kept@[j].key@
                        && kept@[j].key.chunks@.len() == w && kept@[j].coeff == scaled_coeff(
                        oldterms,
                        q,
                        p,
                        cw,
                    );
            }
        }
        self.terms = kept;
        if fresh.len() > 0 {
            proof {
                assert(product_hits(olddom, p, fresh@[0].key@));
                let qk = choose|q: Seq<Pauli>| #[trigger]
                    olddom.contains(q) && !commutes(q, p) && fresh@[0].key@ == seq_mul(p, q);
                assert(!all_commute(olddom, p));
                assert(!gate.sin_is_small);
                assert(dom_widths(olddom, 64 * w)) by {
                    assert forall|k: Seq<Pauli>| #[trigger] olddom.contains(k) implies k.len() == 64
                        * w by {
                        lemma_terms_map_contains(oldterms, k);
                        let q = choose|q: int|
                            0 <= q < oldterms.len() && #[trigger] oldterms[q].key@ == k;
                    }
                }
            }
            while fresh.len() > 0
                invariant
                    self.wf(),
                    self.width == old(self).width,
                    oldterms == old(self).terms@,
                    oldmap == terms_map(oldterms),
                    olddom == oldmap.dom(),
                    p == gate.ps@,
                    w == self.width as int,
                    cw == gate.cos_weight,
                    sw == gate.sin_weight,
                    move_case == (gate.cos_is_small && !gate.sin_is_small),
                    !gate.sin_is_small,
                    gate.ps.chunks@.len() == self.width,
                    dom_widths(olddom, 64 * w),
                    forall|j: int|
                        0 <= j < fresh@.len() ==> (#[trigger] fresh@[j]).key.chunks@.len()
                            == self.width && product_hits(olddom, p, fresh@[j].key@)
                            && fresh@[j].coeff == rotated_at(oldmap, p, sw, fresh@[j].key@),
                    forall|j1: int, j2: int|
                        0 <= j1 < j2 < fresh@.len() ==> (#[trigger] fresh@[j1]).key@ != (
                        #[trigger] fresh@[j2]).key@,
                    forall|k: Seq<Pauli>|
                        (#[trigger] self.as_map().dom().contains(k)) <==> (in_scaled(
                            oldmap,
                            p,
                            move_case,
                            k,
                        ) || (product_hits(olddom, p, k) && !pending(fresh@, k))),
                    forall|k: Seq<Pauli>|
                        #[trigger] self.as_map().dom().contains(k) && !in_scaled(
                            oldmap,
                            p,
                            move_case,
                            k,
                        ) ==> self.as_map()[k] == rotated_at(oldmap, p, sw, k),
                    forall|k: Seq<Pauli>|
                        #[trigger] self.as_map().dom().contains(k) && in_scaled(
                            oldmap,
                            p,
                            move_case,
                            k,
                        ) ==> self.as_map()[k] == (if product_hits(olddom, p, k) && !pending(
                            fresh@,
                            k,
                        ) {
                            add_of(scaled_val(oldmap, p, cw, k), rotated_at(oldmap, p, sw, k))
                        } else {
                            scaled_val(oldmap, p, cw, k)
                        }),
                decreases fresh@.len(),
            {
                let ghost fresh1 = fresh@;
                let ghost premap = self.as_map();
                let t = fresh.pop().unwrap();
                proof {
                    assert(fresh1.last() == t);
                    assert(fresh1[fresh1.len() - 1].key@ == t.key@);
                    assert(product_hits(olddom, p, t.key@));
                    assert(t.coeff == rotated_at(oldmap, p, sw, t.key@));
                    assert forall|j: int| 0 <= j < fresh@.len() implies (#[trigger] fresh@[j]).key@
                        != t.key@ by {
                        assert(fresh@[j] == fresh1[j]);
                        assert(fresh1[j].key@ != fresh1[fresh1.len() - 1].key@);
                    }
                    assert(pending(fresh1, t.key@));
                    assert(!pending(fresh@, t.key@));
                }
                self.merge_term(t);
                proof {
                    assert forall|k: Seq<Pauli>| k != t.key@ implies pending(fresh1, k) == pending(
                        fresh@,
                        k,
                    ) by {
                        if pending(fresh1, k) {
                            let j = choose|j: int|
                                0 <= j < fresh1.len() && (#[trigger] fresh1[j]).key@ == k;
                            assert(j < fresh@.len());
                            assert(fresh@[j] == fresh1[j]);
                        }
                        if pending(fresh@, k) {
                            let j = choose|j: int|
                                0 <= j < fresh@.len() && (#[trigger] fresh@[j]).key@ == k;
                            assert(fresh1[j] == fresh@[j]);
                        }
                    }
                    assert forall|k: Seq<Pauli>|
                        (#[trigger] self.as_map().dom().contains(k)) <==> (in_scaled(
                            oldmap,
                            p,
                            move_case,
                            k,
                        ) || (product_hits(olddom, p, k) && !pending(fresh@, k))) by {
                        if k == t.key@ {
                            assert(self.as_map().dom().contains(k));
                        } else {
                            assert(self.as_map().dom().contains(k) == premap.dom().contains(k));
                        }
                    }
                    assert forall|k: Seq<Pauli>|
                        #[trigger] self.as_map().dom().contains(k) && !in_scaled(
                            oldmap,
                            p,
                            move_case,
                            k,
                        ) implies self.as_map()[k] == rotated_at(oldmap, p, sw, k) by {
                        if k == t.key@ {
                            assert(!premap.dom().contains(k));
                            assert(self.as_map()[k] == t.coeff);
                        } else {
                            assert(premap.dom().contains(k) && self.as_map()[k] == premap[k]);
                        }
                    }
                    assert forall|k: Seq<Pauli>|
                        #[trigger] self.as_map().dom().contains(k) && in_scaled(
                            oldmap,
                            p,
                            move_case,
                            k,
                        ) implies self.as_map()[k] == (if product_hits(olddom, p, k) && !pending(
                            fresh@,
                            k,
                        ) {
                            add_of(scaled_val(oldmap, p, cw, k), rotated_at(oldmap, p, sw, k))
                        } else {
                            scaled_val(oldmap, p, cw, k)
                        }) by {
                        if k == t.key@ {
                            assert(premap.dom().contains(k));
                            assert(premap[k] == scaled_val(oldmap, p, cw, k));
                            assert(self.as_map()[k] == add_of(premap[k], t.coeff));
                        } else {
                            assert(premap.dom().contains(k) && self.as_map()[k] == premap[k]);
                        }
                    }
                }
            }
            let ghost merged = self.as_map();
            proof {
                assert forall|k: Seq<Pauli>|
                    (#[trigger] merged.dom().contains(k)) <==> in_merged(
                        oldmap,
                        p,
                        move_case,
                        k,
                    ) by {}
                assert forall|k: Seq<Pauli>| #[trigger]
                    merged.dom().contains(k) implies merged[k] == merged_val(
                    oldmap,
                    p,
                    cw,
                    sw,
                    move_case,
                    k,
                ) by {}
            }
            self.prune(prune_bounds);
            proof {
                assert forall|k: Seq<Pauli>|
                    (#[trigger] self.as_map().dom().contains(k)) <==> (in_merged(
                        oldmap,
                        p,
                        move_case,
                        k,
                    ) && !norm_below_of(
                        merged_val(oldmap, p, cw, sw, move_case, k),
                        prune_bounds@[xy_weight(k)],
                    )) by {
                    if self.as_map().dom().contains(k) {
                        assert(merged.dom().contains(k));
                    }
                    if in_merged(oldmap, p, move_case, k) {
                        assert(merged.dom().contains(k));
                    }
                }
                assert forall|k: Seq<Pauli>| #[trigger]
                    self.as_map().dom().contains(k) implies self.as_map()[k] == merged_val(
                    oldmap,
                    p,
                    cw,
                    sw,
                    move_case,
                    k,
                ) by {
                    assert(merged.dom().contains(k));
                }
                assert forall|k: Seq<Pauli>| #[trigger]
                    self.as_map().dom().contains(k) implies olddom.contains(k) || product_hits(
                    olddom,
                    p,
                    k,
                ) by {
                    assert(in_merged(oldmap, p, move_case, k));
                }
                assert forall|k: Seq<Pauli>|
                    #[trigger] self.as_map().dom().contains(k) && olddom.contains(k) && commutes(
                        k,
                        p,
                    ) && !product_hits(olddom, p, k) implies self.as_map()[k] == oldmap[k] by {
                    assert(self.as_map()[k] == merged_val(oldmap, p, cw, sw, move_case, k));
                }
                if move_case {
                    assert forall|k: Seq<Pauli>| #[trigger]
                        self.as_map().dom().contains(k) implies commutes(k, p) || product_hits(
                        olddom,
                        p,
                        k,
                    ) by {
                        assert(in_merged(oldmap, p, move_case, k));
                    }
                }
                assert(self.as_map() =~= gate_update(oldmap, *gate, prune_bounds@));
            }
        } else {
            proof {
                if all_commute(olddom, p) {
                    assert forall|q: int| 0 <= q < oldterms.len() implies commutes(
                        (#[trigger] oldterms[q]).key@,
                        p,
                    ) by {
                        lemma_terms_map_index(oldterms, q);
                    }
                }
                if !gate.sin_is_small && !all_commute(olddom, p) {
                    let k = choose|k: Seq<Pauli>| #[trigger] olddom.contains(k) && !commutes(k, p);
                    lemma_terms_map_contains(oldterms, k);
                    let q = choose|q: int| 0 <= q < oldterms.len() && #[trigger] oldterms[q].key@ == k;
                    assert(product_present(fresh@, oldterms, q, p, sw));
                    assert(false);
                }
                if gate.sin_is_small {
                    assert forall|k: Seq<Pauli>| #[trigger]
                        self.as_map().dom().contains(k) == olddom.contains(k) by {
                        assert(self.as_map().dom().contains(k) == in_scaled(
                            oldmap,
                            p,
                            move_case,
                            k,
                        ));
                    }
                    assert(self.as_map().dom() =~= olddom);
                }
                assert forall|k: Seq<Pauli>| #[trigger]
                    self.as_map().dom().contains(k) implies olddom.contains(k) by {
                    assert(in_scaled(oldmap, p, move_case, k));
                }
                if move_case {
                    assert forall|k: Seq<Pauli>| #[trigger]
                        self.as_map().dom().contains(k) implies commutes(k, p) by {
                        assert(in_scaled(oldmap, p, move_case, k));
                    }
                }
                if gate.sin_is_small {
                    assert(self.as_map() =~= gate_update(oldmap, *gate, prune_bounds@));
                } else {
                    assert(self.as_map() == oldmap);
                    if all_commute(olddom, p) && gate.sin_is_small == false {
                        assert(gate_update(oldmap, *gate, prune_bounds@) == oldmap);
                    }
                }
            }
        }
    }
}

/// The coefficient `v * i^phase`, computed exactly from the residue of the
/// phase mod 4.
fn quarter_turns(v: Complex64, phase: i32) -> (r: Complex64)
    requires
        -2048 <= phase <= 2048,
    ensures
        r == quarter_turns_of(v, (phase as int) % 4),
{
    let m = (phase + 4096) % 4;
    proof {
        lemma_mod_multiples_vanish(1024, phase as int, 4);
        assert(4 * 1024 + phase == phase + 4096);
    }
    if m == 0 {
        v
    } else if m == 1 {
        c_mul_i(&v)
    } else if m == 2 {
        c_neg(&v)
    } else {
        c_neg(&c_mul_i(&v))
    }
}

proof fn lemma_after_split(
    kept: Seq<Term>,
    fresh: Seq<Term>,
    terms: Seq<Term>,
    p: Seq<Pauli>,
    width: int,
    cosw: Complex64,
    sinw: Complex64,
    cos_is_small: bool,
    sin_is_small: bool,
)
    requires
        unique_keys(terms),
        forall|i: int| 0 <= i < terms.len() ==> (#[trigger] terms[i].key.chunks@.len()) == width,
        p.len() == 64 * width,
        forall|j: int|
            0 <= j < kept.len() ==> sourced_from(kept, j, terms, terms.len() as int, p, cosw, width),
        unique_keys(kept),
        forall|q: int|
            0 <= q < terms.len() && (commutes((#[trigger] terms[q]).key@, p) || sin_is_small
                || !cos_is_small) ==> scaled_present(kept, terms, q, p, cosw),
        forall|j: int|
            0 <= j < fresh.len() ==> product_from(fresh, j, terms, terms.len() as int, p, sinw, width),
        forall|j1: int, j2: int|
            0 <= j1 < j2 < fresh.len() ==> (#[trigger] fresh[j1]).key@ != (#[trigger] fresh[j2]).key@,
        forall|q: int|
            0 <= q < terms.len() && !commutes((#[trigger] terms[q]).key@, p) && !sin_is_small
                ==> product_present(fresh, terms, q, p, sinw),
        (forall|q: int| 0 <= q < terms.len() ==> commutes((#[trigger] terms[q]).key@, p)) ==> (
        kept.len() == terms.len() && fresh.len() == 0 && forall|j: int|
            0 <= j < terms.len() ==> (#[trigger] kept[j]).key@ == terms[j].key@ && kept[j].coeff
                == terms[j].coeff),
        sin_is_small ==> fresh.len() == 0,
        (cos_is_small && !sin_is_small) ==> forall|j: int|
            0 <= j < kept.len() ==> commutes((#[trigger] kept[j]).key@, p),
    ensures
        forall|k: Seq<Pauli>|
            (#[trigger] terms_map(kept).dom().contains(k)) <==> in_scaled(
                terms_map(terms),
                p,
                cos_is_small && !sin_is_small,
                k,
            ),
        forall|k: Seq<Pauli>| #[trigger]
            terms_map(kept).dom().contains(k) ==> terms_map(kept)[k] == scaled_val(
                terms_map(terms),
                p,
                cosw,
                k,
            ),
        forall|j: int|
            0 <= j < fresh.len() ==> (#[trigger] fresh[j]).key.chunks@.len() == width
                && product_hits(terms_map(terms).dom(), p, fresh[j].key@) && fresh[j].coeff
                == rotated_at(terms_map(terms), p, sinw, fresh[j].key@),
        forall|k: Seq<Pauli>|
            #[trigger] product_hits(terms_map(terms).dom(), p, k) && !sin_is_small ==> pending(
                fresh,
                k,
            ),
        all_commute(terms_map(terms).dom(), p) ==> terms_map(kept) == terms_map(terms)
            && fresh.len() == 0,
{
    let m = terms_map(terms);
    let move_case = cos_is_small && !sin_is_small;
    assert forall|k: Seq<Pauli>| #[trigger] m.dom().contains(k) implies k.len() == 64 * width by {
        lemma_terms_map_contains(terms, k);
        let q = choose|q: int| 0 <= q < terms.len() && #[trigger] terms[q].key@ == k;
    }
    assert(dom_widths(m.dom(), p.len() as int));
    assert forall|k: Seq<Pauli>|
        (#[trigger] terms_map(kept).dom().contains(k)) <==> in_scaled(m, p, move_case, k) by {
        if terms_map(kept).dom().contains(k) {
            lemma_terms_map_contains(kept, k);
            let j = choose|j: int| 0 <= j < kept.len() && #[trigger] kept[j].key@ == k;
            assert(sourced_from(kept, j, terms, terms.len() as int, p, cosw, width));
            let q = choose|q: int|
                0 <= q < terms.len() && (#[trigger] terms[q]).key@ == kept[j].key@
                    && kept[j].key.chunks@.len() == width && kept[j].coeff == scaled_coeff(
                    terms,
                    q,
                    p,
                    cosw,
                );
            lemma_terms_map_index(terms, q);
            if move_case {
                assert(commutes(kept[j].key@, p));
            }
            assert(in_scaled(m, p, move_case, k));
        }
        if in_scaled(m, p, move_case, k) {
            lemma_terms_map_contains(terms, k);
            let q = choose|q: int| 0 <= q < terms.len() && #[trigger] terms[q].key@ == k;
            assert(commutes(terms[q].key@, p) || sin_is_small || !cos_is_small);
            assert(scaled_present(kept, terms, q, p, cosw));
            let j = choose|j: int|
                0 <= j < kept.len() && (#[trigger] kept[j]).key@ == terms[q].key@ && kept[j].coeff
                    == scaled_coeff(terms, q, p, cosw);
            lemma_terms_map_contains(kept, k);
        }
    }
    assert forall|k: Seq<Pauli>| #[trigger] terms_map(kept).dom().contains(k) implies terms_map(
        kept,
    )[k] == scaled_val(m, p, cosw, k) by {
        lemma_terms_map_contains(kept, k);
        let j = choose|j: int| 0 <= j < kept.len() && #[trigger] kept[j].key@ == k;
        assert(sourced_from(kept, j, terms, terms.len() as int, p, cosw, width));
        let q = choose|q: int|
            0 <= q < terms.len() && (#[trigger] terms[q]).key@ == kept[j].key@
                && kept[j].key.chunks@.len() == width && kept[j].coeff == scaled_coeff(
                terms,
                q,
                p,
                cosw,
            );
        lemma_terms_map_index(kept, j);
        lemma_terms_map_index(terms, q);
    }
    assert forall|j: int| 0 <= j < fresh.len() implies (#[trigger] fresh[j]).key.chunks@.len()
        == width && product_hits(m.dom(), p, fresh[j].key@) && fresh[j].coeff == rotated_at(
        m,
        p,
        sinw,
        fresh[j].key@,
    ) by {
        assert(product_from(fresh, j, terms, terms.len() as int, p, sinw, width));
        let q = choose|q: int|
            0 <= q < terms.len() && !commutes((#[trigger] terms[q]).key@, p) && fresh[j].key@
                == seq_mul(p, terms[q].key@) && fresh[j].coeff == rotated_coeff(
                terms[q].coeff,
                sinw,
                p,
                terms[q].key@,
            ) && fresh[j].key.chunks@.len() == width;
        lemma_terms_map_index(terms, q);
        assert(m.dom().contains(terms[q].key@) && !commutes(terms[q].key@, p) && fresh[j].key@
            == seq_mul(p, terms[q].key@));
        lemma_source_is(m.dom(), p, terms[q].key@);
    }
    assert forall|k: Seq<Pauli>|
        #[trigger] product_hits(m.dom(), p, k) && !sin_is_small implies pending(fresh, k) by {
        let qk = choose|q: Seq<Pauli>| #[trigger]
            m.dom().contains(q) && !commutes(q, p) && k == seq_mul(p, q);
        lemma_terms_map_contains(terms, qk);
        let q = choose|q: int| 0 <= q < terms.len() && #[trigger] terms[q].key@ == qk;
        assert(product_present(fresh, terms, q, p, sinw));
        let j = choose|j: int|
            0 <= j < fresh.len() && (#[trigger] fresh[j]).key@ == seq_mul(p, terms[q].key@)
                && fresh[j].coeff == rotated_coeff(terms[q].coeff, sinw, p, terms[q].key@);
        assert(fresh[j].key@ == k);
    }
    if all_commute(m.dom(), p) {
        assert forall|q: int| 0 <= q < terms.len() implies commutes(
            (#[trigger] terms[q]).key@,
            p,
        ) by {
            lemma_terms_map_index(terms, q);
        }
        lemma_terms_map_congruent(kept, terms);
    }
}

} // verus!
