//! Traces: what a circuit, its witness and the challenges amount to.
use crate::field::{self, PrimeField};
use crate::linear::Linear;
use vstd::prelude::*;

verus! {

/// A trace whose columns are given as `L`: by their values for a prover, by
/// commitments for a verifier.
pub struct Trace<F: PrimeField, L> {
    /// The fixed columns.
    pub fixed: Vec<L>,
    /// The advice columns of each proof.
    pub advice: Vec<Vec<L>>,
    /// The random column of the vanishing argument.
    pub vanishing: L,
    /// The columns of the lookup arguments of each proof.
    pub lookups: Vec<Vec<Vec<L>>>,
    /// The products of the permutation argument of each proof.
    pub permutations: Vec<Vec<L>>,
    /// The columns of the trash arguments of each proof.
    pub trashcans: Vec<Vec<L>>,
    /// The challenges of the circuit.
    pub challenges: Vec<F>,
    /// The challenge that joins columns.
    pub beta: F,
    /// The challenge that shifts columns.
    pub gamma: F,
    /// The challenges that join the columns of a lookup.
    pub theta: Vec<F>,
    /// The challenge of the trash arguments.
    pub trash_challenge: F,
    /// The challenges that join the identities.
    pub y: Vec<F>,
}

/// What a trace stands for.
#[verifier::ext_equal]
#[verifier::reject_recursive_types(M)]
pub struct TraceModel<M> {
    pub fixed: Seq<M>,
    pub advice: Seq<Seq<M>>,
    pub vanishing: M,
    pub lookups: Seq<Seq<Seq<M>>>,
    pub permutations: Seq<Seq<M>>,
    pub trashcans: Seq<Seq<M>>,
    pub challenges: Seq<int>,
    pub beta: int,
    pub gamma: int,
    pub theta: Seq<int>,
    pub trash_challenge: int,
    pub y: Seq<int>,
}

/// The components `fixed` of all parts.
pub open spec fn all_fixed<M>(parts: Seq<TraceModel<M>>) -> Seq<Seq<M>> {
    Seq::new(parts.len(), |j: int| parts[j].fixed)
}

/// The components `advice` of all parts.
pub open spec fn all_advice<M>(parts: Seq<TraceModel<M>>) -> Seq<Seq<Seq<M>>> {
    Seq::new(parts.len(), |j: int| parts[j].advice)
}

/// The components `vanishing` of all parts.
pub open spec fn all_vanishing<M>(parts: Seq<TraceModel<M>>) -> Seq<M> {
    Seq::new(parts.len(), |j: int| parts[j].vanishing)
}

/// The components `lookups` of all parts.
pub open spec fn all_lookups<M>(parts: Seq<TraceModel<M>>) -> Seq<Seq<Seq<Seq<M>>>> {
    Seq::new(parts.len(), |j: int| parts[j].lookups)
}

/// The components `permutations` of all parts.
pub open spec fn all_permutations<M>(parts: Seq<TraceModel<M>>) -> Seq<Seq<Seq<M>>> {
    Seq::new(parts.len(), |j: int| parts[j].permutations)
}

/// The components `trashcans` of all parts.
pub open spec fn all_trashcans<M>(parts: Seq<TraceModel<M>>) -> Seq<Seq<Seq<M>>> {
    Seq::new(parts.len(), |j: int| parts[j].trashcans)
}

/// The components `challenges` of all parts.
pub open spec fn all_challenges<M>(parts: Seq<TraceModel<M>>) -> Seq<Seq<int>> {
    Seq::new(parts.len(), |j: int| parts[j].challenges)
}

/// The components `beta` of all parts.
pub open spec fn all_beta<M>(parts: Seq<TraceModel<M>>) -> Seq<int> {
    Seq::new(parts.len(), |j: int| parts[j].beta)
}

/// The components `gamma` of all parts.
pub open spec fn all_gamma<M>(parts: Seq<TraceModel<M>>) -> Seq<int> {
    Seq::new(parts.len(), |j: int| parts[j].gamma)
}

/// The components `theta` of all parts.
pub open spec fn all_theta<M>(parts: Seq<TraceModel<M>>) -> Seq<Seq<int>> {
    Seq::new(parts.len(), |j: int| parts[j].theta)
}

/// The components `trash_challenge` of all parts.
pub open spec fn all_trash_challenge<M>(parts: Seq<TraceModel<M>>) -> Seq<int> {
    Seq::new(parts.len(), |j: int| parts[j].trash_challenge)
}

/// The components `y` of all parts.
pub open spec fn all_y<M>(parts: Seq<TraceModel<M>>) -> Seq<Seq<int>> {
    Seq::new(parts.len(), |j: int| parts[j].y)
}

impl<F: PrimeField, L: Linear<F>> Linear<F> for Trace<F, L> {
    type Model = TraceModel<L::Model>;

    open spec fn model(&self) -> TraceModel<L::Model> {
        TraceModel {
            fixed: self.fixed.model(),
            advice: self.advice.model(),
            vanishing: self.vanishing.model(),
            lookups: self.lookups.model(),
            permutations: self.permutations.model(),
            trashcans: self.trashcans.model(),
            challenges: self.challenges.model(),
            beta: self.beta.model(),
            gamma: self.gamma.model(),
            theta: self.theta.model(),
            trash_challenge: self.trash_challenge.model(),
            y: self.y.model(),
        }
    }

    open spec fn alike(a: TraceModel<L::Model>, b: TraceModel<L::Model>) -> bool {
        &&& <Vec<L> as Linear<F>>::alike(a.fixed, b.fixed)
        &&& <Vec<Vec<L>> as Linear<F>>::alike(a.advice, b.advice)
        &&& L::alike(a.vanishing, b.vanishing)
        &&& <Vec<Vec<Vec<L>>> as Linear<F>>::alike(a.lookups, b.lookups)
        &&& <Vec<Vec<L>> as Linear<F>>::alike(a.permutations, b.permutations)
        &&& <Vec<Vec<L>> as Linear<F>>::alike(a.trashcans, b.trashcans)
        &&& <Vec<F> as Linear<F>>::alike(a.challenges, b.challenges)
        &&& <F as Linear<F>>::alike(a.beta, b.beta)
        &&& <F as Linear<F>>::alike(a.gamma, b.gamma)
        &&& <Vec<F> as Linear<F>>::alike(a.theta, b.theta)
        &&& <F as Linear<F>>::alike(a.trash_challenge, b.trash_challenge)
        &&& <Vec<F> as Linear<F>>::alike(a.y, b.y)
    }

    open spec fn combined(
        coeffs: Seq<int>,
        parts: Seq<TraceModel<L::Model>>,
    ) -> TraceModel<L::Model> {
        TraceModel {
            fixed: <Vec<L> as Linear<F>>::combined(coeffs, all_fixed(parts)),
            advice: <Vec<Vec<L>> as Linear<F>>::combined(coeffs, all_advice(parts)),
            vanishing: L::combined(coeffs, all_vanishing(parts)),
            lookups: <Vec<Vec<Vec<L>>> as Linear<F>>::combined(coeffs, all_lookups(parts)),
            permutations: <Vec<Vec<L>> as Linear<F>>::combined(coeffs, all_permutations(parts)),
            trashcans: <Vec<Vec<L>> as Linear<F>>::combined(coeffs, all_trashcans(parts)),
            challenges: <Vec<F> as Linear<F>>::combined(coeffs, all_challenges(parts)),
            beta: <F as Linear<F>>::combined(coeffs, all_beta(parts)),
            gamma: <F as Linear<F>>::combined(coeffs, all_gamma(parts)),
            theta: <Vec<F> as Linear<F>>::combined(coeffs, all_theta(parts)),
            trash_challenge: <F as Linear<F>>::combined(coeffs, all_trash_challenge(parts)),
            y: <Vec<F> as Linear<F>>::combined(coeffs, all_y(parts)),
        }
    }

    open spec fn reduced(m: TraceModel<L::Model>) -> bool {
        &&& <Vec<L> as Linear<F>>::reduced(m.fixed)
        &&& <Vec<Vec<L>> as Linear<F>>::reduced(m.advice)
        &&& L::reduced(m.vanishing)
        &&& <Vec<Vec<Vec<L>>> as Linear<F>>::reduced(m.lookups)
        &&& <Vec<Vec<L>> as Linear<F>>::reduced(m.permutations)
        &&& <Vec<Vec<L>> as Linear<F>>::reduced(m.trashcans)
        &&& <Vec<F> as Linear<F>>::reduced(m.challenges)
        &&& <F as Linear<F>>::reduced(m.beta)
        &&& <F as Linear<F>>::reduced(m.gamma)
        &&& <Vec<F> as Linear<F>>::reduced(m.theta)
        &&& <F as Linear<F>>::reduced(m.trash_challenge)
        &&& <Vec<F> as Linear<F>>::reduced(m.y)
    }

    proof fn lemma_reduced(&self) {
        self.fixed.lemma_reduced();
        self.advice.lemma_reduced();
        self.vanishing.lemma_reduced();
        self.lookups.lemma_reduced();
        self.permutations.lemma_reduced();
        self.trashcans.lemma_reduced();
        self.challenges.lemma_reduced();
        self.beta.lemma_reduced();
        self.gamma.lemma_reduced();
        self.theta.lemma_reduced();
        self.trash_challenge.lemma_reduced();
        self.y.lemma_reduced();
    }

    proof fn lemma_combined_unit(coeffs: Seq<int>, parts: Seq<TraceModel<L::Model>>, l: int) {
        <Vec<L> as Linear<F>>::lemma_combined_unit(coeffs, all_fixed(parts), l);
        <Vec<Vec<L>> as Linear<F>>::lemma_combined_unit(coeffs, all_advice(parts), l);
        L::lemma_combined_unit(coeffs, all_vanishing(parts), l);
        <Vec<Vec<Vec<L>>> as Linear<F>>::lemma_combined_unit(coeffs, all_lookups(parts), l);
        <Vec<Vec<L>> as Linear<F>>::lemma_combined_unit(coeffs, all_permutations(parts), l);
        <Vec<Vec<L>> as Linear<F>>::lemma_combined_unit(coeffs, all_trashcans(parts), l);
        <Vec<F> as Linear<F>>::lemma_combined_unit(coeffs, all_challenges(parts), l);
        <F as Linear<F>>::lemma_combined_unit(coeffs, all_beta(parts), l);
        <F as Linear<F>>::lemma_combined_unit(coeffs, all_gamma(parts), l);
        <Vec<F> as Linear<F>>::lemma_combined_unit(coeffs, all_theta(parts), l);
        <F as Linear<F>>::lemma_combined_unit(coeffs, all_trash_challenge(parts), l);
        <Vec<F> as Linear<F>>::lemma_combined_unit(coeffs, all_y(parts), l);
    }

    proof fn lemma_combined_same(coeffs: Seq<int>, parts: Seq<TraceModel<L::Model>>) {
        <Vec<L> as Linear<F>>::lemma_combined_same(coeffs, all_fixed(parts));
        <Vec<Vec<L>> as Linear<F>>::lemma_combined_same(coeffs, all_advice(parts));
        L::lemma_combined_same(coeffs, all_vanishing(parts));
        <Vec<Vec<Vec<L>>> as Linear<F>>::lemma_combined_same(coeffs, all_lookups(parts));
        <Vec<Vec<L>> as Linear<F>>::lemma_combined_same(coeffs, all_permutations(parts));
        <Vec<Vec<L>> as Linear<F>>::lemma_combined_same(coeffs, all_trashcans(parts));
        <Vec<F> as Linear<F>>::lemma_combined_same(coeffs, all_challenges(parts));
        <F as Linear<F>>::lemma_combined_same(coeffs, all_beta(parts));
        <F as Linear<F>>::lemma_combined_same(coeffs, all_gamma(parts));
        <Vec<F> as Linear<F>>::lemma_combined_same(coeffs, all_theta(parts));
        <F as Linear<F>>::lemma_combined_same(coeffs, all_trash_challenge(parts));
        <Vec<F> as Linear<F>>::lemma_combined_same(coeffs, all_y(parts));
    }

    proof fn lemma_alike(
        a: TraceModel<L::Model>,
        b: TraceModel<L::Model>,
        c: TraceModel<L::Model>,
    ) {
        <Vec<L> as Linear<F>>::lemma_alike(a.fixed, b.fixed, c.fixed);
        <Vec<Vec<L>> as Linear<F>>::lemma_alike(a.advice, b.advice, c.advice);
        L::lemma_alike(a.vanishing, b.vanishing, c.vanishing);
        <Vec<Vec<Vec<L>>> as Linear<F>>::lemma_alike(a.lookups, b.lookups, c.lookups);
        <Vec<Vec<L>> as Linear<F>>::lemma_alike(a.permutations, b.permutations, c.permutations);
        <Vec<Vec<L>> as Linear<F>>::lemma_alike(a.trashcans, b.trashcans, c.trashcans);
        <Vec<F> as Linear<F>>::lemma_alike(a.challenges, b.challenges, c.challenges);
        <F as Linear<F>>::lemma_alike(a.beta, b.beta, c.beta);
        <F as Linear<F>>::lemma_alike(a.gamma, b.gamma, c.gamma);
        <Vec<F> as Linear<F>>::lemma_alike(a.theta, b.theta, c.theta);
        <F as Linear<F>>::lemma_alike(a.trash_challenge, b.trash_challenge, c.trash_challenge);
        <Vec<F> as Linear<F>>::lemma_alike(a.y, b.y, c.y);
    }

    proof fn lemma_combined_alike(coeffs: Seq<int>, parts: Seq<TraceModel<L::Model>>) {
        <Vec<L> as Linear<F>>::lemma_combined_alike(coeffs, all_fixed(parts));
        <Vec<Vec<L>> as Linear<F>>::lemma_combined_alike(coeffs, all_advice(parts));
        L::lemma_combined_alike(coeffs, all_vanishing(parts));
        <Vec<Vec<Vec<L>>> as Linear<F>>::lemma_combined_alike(coeffs, all_lookups(parts));
        <Vec<Vec<L>> as Linear<F>>::lemma_combined_alike(coeffs, all_permutations(parts));
        <Vec<Vec<L>> as Linear<F>>::lemma_combined_alike(coeffs, all_trashcans(parts));
        <Vec<F> as Linear<F>>::lemma_combined_alike(coeffs, all_challenges(parts));
        <F as Linear<F>>::lemma_combined_alike(coeffs, all_beta(parts));
        <F as Linear<F>>::lemma_combined_alike(coeffs, all_gamma(parts));
        <Vec<F> as Linear<F>>::lemma_combined_alike(coeffs, all_theta(parts));
        <F as Linear<F>>::lemma_combined_alike(coeffs, all_trash_challenge(parts));
        <Vec<F> as Linear<F>>::lemma_combined_alike(coeffs, all_y(parts));
    }

    fn combine(parts: &Vec<&Self>, coeffs: &Vec<F>) -> (r: Self) {
        let ghost m = Seq::new(parts@.len(), |j: int| parts@[j].model());
        let mut fixed: Vec<&Vec<L>> = Vec::new();
        let mut advice: Vec<&Vec<Vec<L>>> = Vec::new();
        let mut vanishing: Vec<&L> = Vec::new();
        let mut lookups: Vec<&Vec<Vec<Vec<L>>>> = Vec::new();
        let mut permutations: Vec<&Vec<Vec<L>>> = Vec::new();
        let mut trashcans: Vec<&Vec<Vec<L>>> = Vec::new();
        let mut challenges: Vec<&Vec<F>> = Vec::new();
        let mut beta: Vec<&F> = Vec::new();
        let mut gamma: Vec<&F> = Vec::new();
        let mut theta: Vec<&Vec<F>> = Vec::new();
        let mut trash_challenge: Vec<&F> = Vec::new();
        let mut y: Vec<&Vec<F>> = Vec::new();
        for j in 0..parts.len()
            invariant
                m == Seq::new(parts@.len(), |j: int| parts@[j].model()),
                fixed@.len() == j,
                forall|l: int| 0 <= l < j ==> (#[trigger] fixed@[l]).model() == m[l].fixed,
                advice@.len() == j,
                forall|l: int| 0 <= l < j ==> (#[trigger] advice@[l]).model() == m[l].advice,
                vanishing@.len() == j,
                forall|l: int| 0 <= l < j ==> (#[trigger] vanishing@[l]).model() == m[l].vanishing,
                lookups@.len() == j,
                forall|l: int| 0 <= l < j ==> (#[trigger] lookups@[l]).model() == m[l].lookups,
                permutations@.len() == j,
                forall|l: int|
                    0 <= l < j ==> (#[trigger] permutations@[l]).model() == m[l].permutations,
                trashcans@.len() == j,
                forall|l: int| 0 <= l < j ==> (#[trigger] trashcans@[l]).model() == m[l].trashcans,
                challenges@.len() == j,
                forall|l: int|
                    0 <= l < j ==> (#[trigger] challenges@[l]).model() == m[l].challenges,
                beta@.len() == j,
                forall|l: int| 0 <= l < j ==> (#[trigger] beta@[l]).model() == m[l].beta,
                gamma@.len() == j,
                forall|l: int| 0 <= l < j ==> (#[trigger] gamma@[l]).model() == m[l].gamma,
                theta@.len() == j,
                forall|l: int| 0 <= l < j ==> (#[trigger] theta@[l]).model() == m[l].theta,
                trash_challenge@.len() == j,
                forall|l: int|
                    0 <= l < j ==> (#[trigger] trash_challenge@[l]).model() == m[l].trash_challenge,
                y@.len() == j,
                forall|l: int| 0 <= l < j ==> (#[trigger] y@[l]).model() == m[l].y,
        {
            fixed.push(&parts[j].fixed);
            advice.push(&parts[j].advice);
            vanishing.push(&parts[j].vanishing);
            lookups.push(&parts[j].lookups);
            permutations.push(&parts[j].permutations);
            trashcans.push(&parts[j].trashcans);
            challenges.push(&parts[j].challenges);
            beta.push(&parts[j].beta);
            gamma.push(&parts[j].gamma);
            theta.push(&parts[j].theta);
            trash_challenge.push(&parts[j].trash_challenge);
            y.push(&parts[j].y);
        }
        proof {
            assert forall|j: int| 0 <= j < m.len() implies Self::alike(#[trigger] m[j], m[0]) by {
                assert(m[j] == parts@[j].model());
            }
            assert(Seq::new(fixed@.len(), |j: int| fixed@[j].model()) =~= all_fixed(m));
            assert(Seq::new(advice@.len(), |j: int| advice@[j].model()) =~= all_advice(m));
            assert(Seq::new(vanishing@.len(), |j: int| vanishing@[j].model()) =~= all_vanishing(m));
            assert(Seq::new(lookups@.len(), |j: int| lookups@[j].model()) =~= all_lookups(m));
            assert(Seq::new(permutations@.len(), |j: int| permutations@[j].model()) =~= all_permutations(
                m,
            ));
            assert(Seq::new(trashcans@.len(), |j: int| trashcans@[j].model()) =~= all_trashcans(m));
            assert(Seq::new(challenges@.len(), |j: int| challenges@[j].model()) =~= all_challenges(
                m,
            ));
            assert(Seq::new(beta@.len(), |j: int| beta@[j].model()) =~= all_beta(m));
            assert(Seq::new(gamma@.len(), |j: int| gamma@[j].model()) =~= all_gamma(m));
            assert(Seq::new(theta@.len(), |j: int| theta@[j].model()) =~= all_theta(m));
            assert(Seq::new(trash_challenge@.len(), |j: int| trash_challenge@[j].model()) =~= all_trash_challenge(
                m,
            ));
            assert(Seq::new(y@.len(), |j: int| y@[j].model()) =~= all_y(m));
        }
        Trace {
            fixed: Linear::combine(&fixed, coeffs),
            advice: Linear::combine(&advice, coeffs),
            vanishing: Linear::combine(&vanishing, coeffs),
            lookups: Linear::combine(&lookups, coeffs),
            permutations: Linear::combine(&permutations, coeffs),
            trashcans: Linear::combine(&trashcans, coeffs),
            challenges: Linear::combine(&challenges, coeffs),
            beta: Linear::combine(&beta, coeffs),
            gamma: Linear::combine(&gamma, coeffs),
            theta: Linear::combine(&theta, coeffs),
            trash_challenge: Linear::combine(&trash_challenge, coeffs),
            y: Linear::combine(&y, coeffs),
        }
    }

    fn is_like(&self, other: &Self) -> (r: bool) {
        self.fixed.is_like(&other.fixed)
            && self.advice.is_like(&other.advice)
            && self.vanishing.is_like(&other.vanishing)
            && self.lookups.is_like(&other.lookups)
            && self.permutations.is_like(&other.permutations)
            && self.trashcans.is_like(&other.trashcans)
            && self.challenges.is_like(&other.challenges)
            && self.beta.is_like(&other.beta)
            && self.gamma.is_like(&other.gamma)
            && self.theta.is_like(&other.theta)
            && self.trash_challenge.is_like(&other.trash_challenge)
            && self.y.is_like(&other.y)
    }

    fn same(&self, other: &Self) -> (r: bool) {
        self.fixed.same(&other.fixed)
            && self.advice.same(&other.advice)
            && self.vanishing.same(&other.vanishing)
            && self.lookups.same(&other.lookups)
            && self.permutations.same(&other.permutations)
            && self.trashcans.same(&other.trashcans)
            && self.challenges.same(&other.challenges)
            && self.beta.same(&other.beta)
            && self.gamma.same(&other.gamma)
            && self.theta.same(&other.theta)
            && self.trash_challenge.same(&other.trash_challenge)
            && self.y.same(&other.y)
    }
}

/// The trace of a prover, with columns by their values.
pub struct FoldingProverTrace<F: PrimeField> {
    /// The columns and challenges.
    pub trace: Trace<F, Vec<F>>,
    /// The coefficients of the instance columns of each proof.
    pub instance_polys: Vec<Vec<Vec<F>>>,
    /// The values of the instance columns of each proof.
    pub instance_values: Vec<Vec<Vec<F>>>,
}

/// The trace of a verifier, with columns by their commitments. The instances are
/// public and stand in no trace.
pub type VerifierFoldingTrace<F, C> = Trace<F, C>;

/// What the trace of a prover stands for.
#[verifier::ext_equal]
pub struct ProverModel {
    pub trace: TraceModel<Seq<int>>,
    pub instance_polys: Seq<Seq<Seq<int>>>,
    pub instance_values: Seq<Seq<Seq<int>>>,
}

/// The components `trace` of all parts.
pub open spec fn every_trace(parts: Seq<ProverModel>) -> Seq<TraceModel<Seq<int>>> {
    Seq::new(parts.len(), |j: int| parts[j].trace)
}

/// The components `instance_polys` of all parts.
pub open spec fn every_instance_polys(parts: Seq<ProverModel>) -> Seq<Seq<Seq<Seq<int>>>> {
    Seq::new(parts.len(), |j: int| parts[j].instance_polys)
}

/// The components `instance_values` of all parts.
pub open spec fn every_instance_values(parts: Seq<ProverModel>) -> Seq<Seq<Seq<Seq<int>>>> {
    Seq::new(parts.len(), |j: int| parts[j].instance_values)
}

impl<F: PrimeField> Linear<F> for FoldingProverTrace<F> {
    type Model = ProverModel;

    open spec fn model(&self) -> ProverModel {
        ProverModel {
            trace: self.trace.model(),
            instance_polys: self.instance_polys.model(),
            instance_values: self.instance_values.model(),
        }
    }

    open spec fn alike(a: ProverModel, b: ProverModel) -> bool {
        &&& <Trace<F, Vec<F>> as Linear<F>>::alike(a.trace, b.trace)
        &&& <Vec<Vec<Vec<F>>> as Linear<F>>::alike(a.instance_polys, b.instance_polys)
        &&& <Vec<Vec<Vec<F>>> as Linear<F>>::alike(a.instance_values, b.instance_values)
    }

    open spec fn combined(coeffs: Seq<int>, parts: Seq<ProverModel>) -> ProverModel {
        ProverModel {
            trace: <Trace<F, Vec<F>> as Linear<F>>::combined(coeffs, every_trace(parts)),
            instance_polys: <Vec<Vec<Vec<F>>> as Linear<F>>::combined(
                coeffs,
                every_instance_polys(parts),
            ),
            instance_values: <Vec<Vec<Vec<F>>> as Linear<F>>::combined(
                coeffs,
                every_instance_values(parts),
            ),
        }
    }

    open spec fn reduced(m: ProverModel) -> bool {
        &&& <Trace<F, Vec<F>> as Linear<F>>::reduced(m.trace)
        &&& <Vec<Vec<Vec<F>>> as Linear<F>>::reduced(m.instance_polys)
        &&& <Vec<Vec<Vec<F>>> as Linear<F>>::reduced(m.instance_values)
    }

    proof fn lemma_reduced(&self) {
        self.trace.lemma_reduced();
        self.instance_polys.lemma_reduced();
        self.instance_values.lemma_reduced();
    }

    proof fn lemma_combined_unit(coeffs: Seq<int>, parts: Seq<ProverModel>, l: int) {
        <Trace<F, Vec<F>> as Linear<F>>::lemma_combined_unit(coeffs, every_trace(parts), l);
        <Vec<Vec<Vec<F>>> as Linear<F>>::lemma_combined_unit(
            coeffs,
            every_instance_polys(parts),
            l,
        );
        <Vec<Vec<Vec<F>>> as Linear<F>>::lemma_combined_unit(
            coeffs,
            every_instance_values(parts),
            l,
        );
    }

    proof fn lemma_combined_same(coeffs: Seq<int>, parts: Seq<ProverModel>) {
        <Trace<F, Vec<F>> as Linear<F>>::lemma_combined_same(coeffs, every_trace(parts));
        <Vec<Vec<Vec<F>>> as Linear<F>>::lemma_combined_same(coeffs, every_instance_polys(parts));
        <Vec<Vec<Vec<F>>> as Linear<F>>::lemma_combined_same(coeffs, every_instance_values(parts));
    }

    proof fn lemma_alike(a: ProverModel, b: ProverModel, c: ProverModel) {
        <Trace<F, Vec<F>> as Linear<F>>::lemma_alike(a.trace, b.trace, c.trace);
        <Vec<Vec<Vec<F>>> as Linear<F>>::lemma_alike(
            a.instance_polys,
            b.instance_polys,
            c.instance_polys,
        );
        <Vec<Vec<Vec<F>>> as Linear<F>>::lemma_alike(
            a.instance_values,
            b.instance_values,
            c.instance_values,
        );
    }

    proof fn lemma_combined_alike(coeffs: Seq<int>, parts: Seq<ProverModel>) {
        <Trace<F, Vec<F>> as Linear<F>>::lemma_combined_alike(coeffs, every_trace(parts));
        <Vec<Vec<Vec<F>>> as Linear<F>>::lemma_combined_alike(coeffs, every_instance_polys(parts));
        <Vec<Vec<Vec<F>>> as Linear<F>>::lemma_combined_alike(coeffs, every_instance_values(parts));
    }

    fn combine(parts: &Vec<&Self>, coeffs: &Vec<F>) -> (r: Self) {
        let ghost m = Seq::new(parts@.len(), |j: int| parts@[j].model());
        let mut trace: Vec<&Trace<F, Vec<F>>> = Vec::new();
        let mut instance_polys: Vec<&Vec<Vec<Vec<F>>>> = Vec::new();
        let mut instance_values: Vec<&Vec<Vec<Vec<F>>>> = Vec::new();
        for j in 0..parts.len()
            invariant
                m == Seq::new(parts@.len(), |j: int| parts@[j].model()),
                trace@.len() == j,
                forall|l: int| 0 <= l < j ==> (#[trigger] trace@[l]).model() == m[l].trace,
                instance_polys@.len() == j,
                forall|l: int|
                    0 <= l < j ==> (#[trigger] instance_polys@[l]).model() == m[l].instance_polys,
                instance_values@.len() == j,
                forall|l: int|
                    0 <= l < j ==> (#[trigger] instance_values@[l]).model() == m[l].instance_values,
        {
            trace.push(&parts[j].trace);
            instance_polys.push(&parts[j].instance_polys);
            instance_values.push(&parts[j].instance_values);
        }
        proof {
            assert forall|j: int| 0 <= j < m.len() implies Self::alike(#[trigger] m[j], m[0]) by {
                assert(m[j] == parts@[j].model());
            }
            assert(Seq::new(trace@.len(), |j: int| trace@[j].model()) =~= every_trace(m));
            assert(Seq::new(instance_polys@.len(), |j: int| instance_polys@[j].model()) =~= every_instance_polys(
                m,
            ));
            assert(Seq::new(instance_values@.len(), |j: int| instance_values@[j].model()) =~= every_instance_values(
                m,
            ));
        }
        FoldingProverTrace {
            trace: Linear::combine(&trace, coeffs),
            instance_polys: Linear::combine(&instance_polys, coeffs),
            instance_values: Linear::combine(&instance_values, coeffs),
        }
    }

    fn is_like(&self, other: &Self) -> (r: bool) {
        self.trace.is_like(&other.trace)
            && self.instance_polys.is_like(&other.instance_polys)
            && self.instance_values.is_like(&other.instance_values)
    }

    fn same(&self, other: &Self) -> (r: bool) {
        self.trace.same(&other.trace)
            && self.instance_polys.same(&other.instance_polys)
            && self.instance_values.same(&other.instance_values)
    }
}

/// What a trace stands for has every column and every challenge of it, each in its
/// own place.
pub proof fn lemma_model_has_all_of_trace<F: PrimeField, L: Linear<F>>(
    t: Trace<F, L>,
    m: TraceModel<L::Model>,
)
    requires
        m == t.model(),
    ensures
        m.fixed.len() == t.fixed@.len(),
        forall|i: int| 0 <= i < t.fixed@.len() ==> m.fixed[i] == (#[trigger] t.fixed@[i]).model(),
        m.advice.len() == t.advice@.len(),
        forall|i: int|
            0 <= i < t.advice@.len() ==> (#[trigger] t.advice@[i])@.len() == m.advice[i].len(),
        forall|i: int, j: int|
            0 <= i < t.advice@.len() && 0 <= j < t.advice@[i]@.len() ==> m.advice[i][j] == (
            #[trigger] t.advice@[i]@[j]).model(),
        m.vanishing == t.vanishing.model(),
        m.lookups.len() == t.lookups@.len(),
        forall|i: int|
            0 <= i < t.lookups@.len() ==> (#[trigger] t.lookups@[i])@.len() == m.lookups[i].len(),
        forall|i: int, j: int|
            0 <= i < t.lookups@.len() && 0 <= j < t.lookups@[i]@.len() ==> (
            #[trigger] t.lookups@[i]@[j])@.len() == m.lookups[i][j].len(),
        forall|i: int, j: int, l: int|
            0 <= i < t.lookups@.len() && 0 <= j < t.lookups@[i]@.len() && 0 <= l
                < t.lookups@[i]@[j]@.len() ==> m.lookups[i][j][l] == (
            #[trigger] t.lookups@[i]@[j]@[l]).model(),
        m.permutations.len() == t.permutations@.len(),
        forall|i: int|
            0 <= i < t.permutations@.len() ==> (#[trigger] t.permutations@[i])@.len() == m.permutations[i].len(),
        forall|i: int, j: int|
            0 <= i < t.permutations@.len() && 0 <= j < t.permutations@[i]@.len() ==> m.permutations[i][j] == (
            #[trigger] t.permutations@[i]@[j]).model(),
        m.trashcans.len() == t.trashcans@.len(),
        forall|i: int|
            0 <= i < t.trashcans@.len() ==> (#[trigger] t.trashcans@[i])@.len() == m.trashcans[i].len(),
        forall|i: int, j: int|
            0 <= i < t.trashcans@.len() && 0 <= j < t.trashcans@[i]@.len() ==> m.trashcans[i][j] == (
            #[trigger] t.trashcans@[i]@[j]).model(),
        m.challenges == field::values(t.challenges@),
        m.beta == t.beta.value(),
        m.gamma == t.gamma.value(),
        m.theta == field::values(t.theta@),
        m.trash_challenge == t.trash_challenge.value(),
        m.y == field::values(t.y@),
{
}

/// The same of the trace of a prover, with its instance columns.
pub proof fn lemma_model_has_all_of_prover_trace<F: PrimeField>(
    t: FoldingProverTrace<F>,
    m: ProverModel,
)
    requires
        m == t.model(),
    ensures
        m.trace == t.trace.model(),
        m.instance_polys.len() == t.instance_polys@.len(),
        forall|i: int|
            0 <= i < t.instance_polys@.len() ==> (#[trigger] t.instance_polys@[i])@.len()
                == m.instance_polys[i].len(),
        forall|i: int, j: int|
            0 <= i < t.instance_polys@.len() && 0 <= j < t.instance_polys@[i]@.len()
                ==> m.instance_polys[i][j] == field::values((#[trigger] t.instance_polys@[i]@[j])@),
        m.instance_values.len() == t.instance_values@.len(),
        forall|i: int|
            0 <= i < t.instance_values@.len() ==> (#[trigger] t.instance_values@[i])@.len()
                == m.instance_values[i].len(),
        forall|i: int, j: int|
            0 <= i < t.instance_values@.len() && 0 <= j < t.instance_values@[i]@.len()
                ==> m.instance_values[i][j] == field::values(
                (#[trigger] t.instance_values@[i]@[j])@,
            ),
{
}

} // verus!
