//! What the rows of a trace amount to.
use crate::domain::EvaluationDomain;
use crate::field::{self, PrimeField};
use crate::interpolation;
use crate::linear::{self, Linear};
use crate::polynomial;
use crate::residues;
use crate::traces::{FoldingProverTrace, ProverModel, TraceModel};
use vstd::arithmetic::power2::*;
use vstd::prelude::*;

verus! {

/// The columns of a key that select rows, by their values.
pub struct Selectors<F: PrimeField> {
    /// One in the first row.
    pub l0: Vec<F>,
    /// One in the last row.
    pub l_last: Vec<F>,
    /// One in the rows that are neither last nor blinding.
    pub l_active_row: Vec<F>,
    /// The columns of the permutation.
    pub permutation_pk_cosets: Vec<Vec<F>>,
}

/// What the columns of a key stand for.
pub struct SelectorsModel {
    pub l0: Seq<int>,
    pub l_last: Seq<int>,
    pub l_active_row: Seq<int>,
    pub permutation_pk_cosets: Seq<Seq<int>>,
}

impl<F: PrimeField> Selectors<F> {
    /// What the columns stand for.
    pub open spec fn model(&self) -> SelectorsModel {
        SelectorsModel {
            l0: self.l0.model(),
            l_last: self.l_last.model(),
            l_active_row: self.l_active_row.model(),
            permutation_pk_cosets: self.permutation_pk_cosets.model(),
        }
    }
}

/// The trace that interpolates `parts` on the domain of 2^`k` points, at `x`.
pub open spec fn folded_at<F: PrimeField>(
    k: nat,
    parts: Seq<ProverModel>,
    x: int,
) -> ProverModel {
    <FoldingProverTrace<F> as Linear<F>>::combined(interpolation::lagranges::<F>(k, x), parts)
}

/// Two traces agree in all that the identities read: in all but the random column of
/// the vanishing argument and the coefficients of the instance columns.
pub open spec fn agree_in_rows(a: ProverModel, b: ProverModel) -> bool {
    &&& a.instance_values == b.instance_values
    &&& a.trace == (TraceModel { vanishing: a.trace.vanishing, ..b.trace })
}

/// The identities of a circuit, joined to one value for each row. It is zero for
/// every row where the trace satisfies the circuit.
pub trait Evaluator<F: PrimeField>: Sized {
    /// The trace, with 2^`k` rows, has the columns that the circuit reads.
    spec fn accepts(&self, k: nat, s: SelectorsModel, m: ProverModel) -> bool;

    /// The value of each row.
    spec fn h(&self, k: nat, s: SelectorsModel, m: ProverModel) -> Seq<int>;

    /// A bound on the degree of the identities, where all that can be folded
    /// counts as a variable.
    spec fn folding_degree_of(&self) -> nat;

    /// A bound on the degree of the identities in the columns.
    spec fn degree_of(&self) -> nat;

    /// It depends on the arrangement of a trace alone whether it has the columns.
    proof fn lemma_accepts(&self, k: nat, s: SelectorsModel, a: ProverModel, b: ProverModel)
        requires
            self.accepts(k, s, a),
            <FoldingProverTrace<F> as Linear<F>>::alike(b, a),
        ensures
            self.accepts(k, s, b),
    ;

    /// There is a residue for each row.
    proof fn lemma_rows(&self, k: nat, s: SelectorsModel, m: ProverModel)
        requires
            self.accepts(k, s, m),
        ensures
            self.h(k, s, m).len() == pow2(k),
            forall|i: int|
                0 <= i < pow2(k) ==> 0 <= #[trigger] self.h(k, s, m)[i] < F::modulus(),
    ;

    /// The values of the rows depend on what the identities read alone, so that
    /// public inputs enter through the values of the instance columns only.
    proof fn lemma_reads(&self, k: nat, s: SelectorsModel, a: ProverModel, b: ProverModel)
        requires
            self.accepts(k, s, a),
            self.accepts(k, s, b),
            agree_in_rows(a, b),
        ensures
            self.h(k, s, a) == self.h(k, s, b),
    ;

    /// The value of a row of an interpolated trace is a polynomial in the point of
    /// interpolation, whose degree is bounded.
    proof fn lemma_degree(
        &self,
        k: nat,
        s: SelectorsModel,
        dk: nat,
        parts: Seq<ProverModel>,
        row: int,
    ) -> (c: Seq<int>)
        requires
            dk <= F::two_adicity(),
            parts.len() == pow2(dk),
            linear::all_alike::<F, FoldingProverTrace<F>>(parts),
            self.accepts(k, s, parts[0]),
            0 <= row < pow2(k),
        ensures
            self.folding_degree_of() >= 1,
            c.len() <= pow2(dk) * (self.folding_degree_of() - 1),
            forall|x: int|
                residues::cong(
                    self.h(k, s, folded_at::<F>(dk, parts, x))[row],
                    #[trigger] polynomial::eval(c, x),
                    F::modulus(),
                ),
    ;

    /// Returns the bound on the degree for folding.
    fn folding_degree(&self) -> (r: u32)
        requires
            self.folding_degree_of() <= u32::MAX,
        ensures
            r == self.folding_degree_of(),
    ;

    /// Returns the bound on the degree in the columns.
    fn degree(&self) -> (r: u32)
        requires
            self.degree_of() <= u32::MAX,
        ensures
            r == self.degree_of(),
    ;

    /// Tells whether the trace has the columns that the circuit reads.
    fn reads(
        &self,
        domain: &EvaluationDomain<F>,
        selectors: &Selectors<F>,
        trace: &FoldingProverTrace<F>,
    ) -> (r: bool)
        requires
            domain.wf(),
        ensures
            r == self.accepts(domain.k as nat, selectors.model(), trace.model()),
    ;

    /// Returns the value of each row.
    fn evaluate_h(
        &self,
        domain: &EvaluationDomain<F>,
        selectors: &Selectors<F>,
        trace: &FoldingProverTrace<F>,
    ) -> (r: Vec<F>)
        requires
            domain.wf(),
            self.accepts(domain.k as nat, selectors.model(), trace.model()),
        ensures
            field::values(r@) == self.h(domain.k as nat, selectors.model(), trace.model()),
    ;
}

/// What a prover has to know of a circuit to fold its traces.
pub struct FoldingPk<F: PrimeField, E: Evaluator<F>> {
    /// The domain of the rows.
    pub domain: EvaluationDomain<F>,
    /// The identities.
    pub ev: E,
    /// The columns that select rows.
    pub selectors: Selectors<F>,
}

impl<F: PrimeField, E: Evaluator<F>> FoldingPk<F, E> {
    /// The trace has the columns that the circuit reads.
    pub open spec fn accepts(&self, m: ProverModel) -> bool {
        &&& self.domain.wf()
        &&& self.ev.accepts(self.domain.k as nat, self.selectors.model(), m)
    }

    /// The value of each row.
    pub open spec fn h(&self, m: ProverModel) -> Seq<int> {
        self.ev.h(self.domain.k as nat, self.selectors.model(), m)
    }

    /// Traces that agree in all that the identities read have the same rows.
    pub proof fn lemma_same_rows(&self, a: ProverModel, b: ProverModel)
        requires
            self.accepts(a),
            self.accepts(b),
            agree_in_rows(a, b),
        ensures
            self.h(a) == self.h(b),
    {
        self.ev.lemma_reads(self.domain.k as nat, self.selectors.model(), a, b);
    }

    /// A trace that interpolates others has the columns that the circuit reads.
    pub proof fn lemma_accepts_folded(&self, dk: nat, parts: Seq<ProverModel>, x: int)
        requires
            linear::all_alike::<F, FoldingProverTrace<F>>(parts),
            self.accepts(parts[0]),
        ensures
            self.accepts(folded_at::<F>(dk, parts, x)),
            self.h(folded_at::<F>(dk, parts, x)).len() == self.domain.size(),
    {
        let coeffs = interpolation::lagranges::<F>(dk, x);
        let folded = folded_at::<F>(dk, parts, x);
        let k = self.domain.k as nat;
        <FoldingProverTrace<F> as Linear<F>>::lemma_combined_alike(coeffs, parts);
        self.ev.lemma_accepts(k, self.selectors.model(), parts[0], folded);
        self.ev.lemma_rows(k, self.selectors.model(), folded);
    }

    /// Returns the value of each row.
    pub fn compute_h(&self, trace: &FoldingProverTrace<F>) -> (r: Vec<F>)
        requires
            self.accepts(trace.model()),
        ensures
            field::values(r@) == self.h(trace.model()),
    {
        self.ev.evaluate_h(&self.domain, &self.selectors, trace)
    }
}

} // verus!
