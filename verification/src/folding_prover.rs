//! The prover that folds traces into one.
use crate::commitment::PolynomialCommitmentScheme;
use crate::domain::{self, EvaluationDomain};
use crate::error::Error;
use crate::evaluator::{self, Evaluator, FoldingPk};
use crate::field::{self, PrimeField};
use crate::folding;
use crate::interpolation;
use crate::linear::{self, Linear};
use crate::polynomial;
use crate::powers::{self, Pointwise};
use crate::residues;
use crate::traces::{FoldingProverTrace, ProverModel};
use crate::transcript::{Message, Transcript};
use std::marker::PhantomData;
use vstd::arithmetic::power::*;
use vstd::arithmetic::power2::*;
use vstd::prelude::*;

verus! {

/// This prover folds traces into one that it keeps: 2^k - 1 of them at a time.
/// The rows of a trace are joined by the products of `K` challenges.
pub struct ProtogalaxyProver<
    F: PrimeField,
    CS: PolynomialCommitmentScheme<F>,
    E: Evaluator<F>,
    const K: usize,
> {
    /// The circuit.
    pub folding_pk: FoldingPk<F, E>,
    /// The trace that was folded so far.
    pub folded_trace: FoldingProverTrace<F>,
    /// By how much the folded trace misses the circuit.
    pub error: F,
    /// The challenges that join the rows.
    pub beta: [F; K],
    /// The scheme that commits to polynomials.
    pub _commitment_scheme: PhantomData<CS>,
}

/// The value at `x` of the polynomial that tells the error with the challenges
/// `betas` moved along `deltas`.
pub open spec fn error_at(h: Seq<int>, betas: Seq<int>, deltas: Seq<int>, x: int) -> int {
    residues::sum(
        h.len(),
        |i: int|
            h[i] * powers::pow_of(
                Seq::new(betas.len(), |j: int| betas[j] + deltas[j] * x),
                (i + 1) as nat,
            ),
    )
}

/// The coefficients of the error polynomial, interpolated on 2^`k` points.
pub open spec fn error_coeffs<F: PrimeField>(
    h: Seq<int>,
    betas: Seq<int>,
    deltas: Seq<int>,
    k: nat,
) -> Seq<int> {
    interpolation::interpolate::<F>(
        Seq::new(
            pow2(k),
            |t: int|
                error_at(h, betas, deltas, interpolation::point::<F>(k, t as nat)) % F::modulus(),
        ),
        k,
    )
}

/// What the challenges of a round lead to.
pub struct Round {
    /// The coefficients of the error polynomial.
    pub f: Seq<int>,
    /// Its value at the second challenge.
    pub f_eval: int,
    /// The challenges that join the rows in the next round.
    pub betas: Seq<int>,
    /// The coefficients of the quotient.
    pub k: Seq<int>,
    /// Its value at the last challenge.
    pub k_eval: int,
    /// The value of the folding polynomial at the last challenge.
    pub g_eval: int,
    /// The value, at the last challenge, of the polynomial that vanishes on the
    /// domain.
    pub z_eval: int,
    /// The folded trace.
    pub folded: ProverModel,
}

impl<F: PrimeField, CS: PolynomialCommitmentScheme<F>, E: Evaluator<F>, const K: usize>
    ProtogalaxyProver<F, CS, E, K> {
    /// The challenges that join the rows.
    pub open spec fn betas(&self) -> Seq<int> {
        field::values(self.beta@)
    }

    /// The exponent of the size of the domain of the error polynomial.
    pub open spec fn error_k() -> nat {
        folding::bits_of((K - 1) as nat)
    }

    /// The coefficients of the error polynomial; it is zero where the error is.
    pub open spec fn f_coeffs(&self, deltas: Seq<int>) -> Seq<int> {
        if self.error.value() == 0 {
            Seq::new(pow2(Self::error_k()), |t: int| 0int)
        } else {
            error_coeffs::<F>(
                self.folding_pk.h(self.folded_trace.model()),
                self.betas(),
                deltas,
                Self::error_k(),
            )
        }
    }

    /// The values, on the coset, of the folding polynomial: by how much the trace
    /// that interpolates `parts` misses the circuit.
    pub open spec fn g_values(
        &self,
        betas: Seq<int>,
        dk: nat,
        extended: nat,
        parts: Seq<ProverModel>,
    ) -> Seq<int> {
        Seq::new(
            pow2(extended),
            |i: int|
                folding::joined(
                    self.folding_pk.h(
                        evaluator::folded_at::<F>(
                            dk,
                            parts,
                            interpolation::coset_point::<F>(extended, i as nat),
                        ),
                    ),
                    betas,
                    F::modulus(),
                ),
        )
    }

    /// The traces that are folded: the one that was folded so far, and the new
    /// ones.
    pub open spec fn parts(&self, traces: Seq<FoldingProverTrace<F>>) -> Seq<ProverModel> {
        seq![self.folded_trace.model()] + linear::list_model::<F, FoldingProverTrace<F>>(traces)
    }

    /// What the challenges lead to.
    pub open spec fn round(
        &self,
        traces: Seq<FoldingProverTrace<F>>,
        delta: int,
        alpha: int,
        gamma: int,
    ) -> Round {
        let p = F::modulus();
        let parts = self.parts(traces);
        let dk = folding::log2(parts.len());
        let q = (self.folding_pk.ev.folding_degree_of() - 1) as nat;
        let len = (pow2(dk) * q) as nat;
        let extended = domain::extension_of(dk, len);
        let deltas = folding::squares(delta, K as nat, p);
        let f = self.f_coeffs(deltas);
        let betas = folding::shifted(self.betas(), deltas, alpha, p);
        let g = self.g_values(betas, dk, extended, parts);
        let k = interpolation::interpolate_coset::<F>(
            folding::quotient::<F>(g, dk, extended),
            extended,
        ).take(len as int);
        Round {
            f,
            f_eval: polynomial::eval(f, alpha) % p,
            betas,
            k,
            k_eval: polynomial::eval(k, gamma) % p,
            g_eval: polynomial::eval(
                interpolation::interpolate_coset::<F>(g, extended).take(len as int),
                gamma,
            ) % p,
            z_eval: interpolation::vanishing(dk, gamma) % p,
            folded: evaluator::folded_at::<F>(dk, parts, gamma),
        }
    }

    /// What the prover sends up to the evaluation of the error polynomial, and the
    /// challenges in between.
    pub open spec fn opening_messages(
        params: &CS::Parameters,
        round: Round,
        delta: int,
        alpha: int,
    ) -> Seq<Message<<CS::Commitment as Linear<F>>::Model>> {
        seq![
            Message::Challenge(delta),
            Message::Commitment(CS::of_coeffs(params, round.f)),
            Message::Challenge(alpha),
        ]
    }

    /// What the prover sends in a round, and the challenges in between.
    pub open spec fn messages(
        params: &CS::Parameters,
        round: Round,
        delta: int,
        alpha: int,
        gamma: int,
    ) -> Seq<Message<<CS::Commitment as Linear<F>>::Model>> {
        Self::opening_messages(params, round, delta, alpha) + seq![
            Message::Scalar(round.f_eval),
            Message::Commitment(CS::of_coeffs(params, round.k)),
            Message::Challenge(gamma),
            Message::Scalar(round.k_eval),
        ]
    }

    /// A round takes the prover to `next`, and its transcript from `before` to
    /// `after`.
    pub open spec fn folds_to(
        &self,
        params: &CS::Parameters,
        traces: Seq<FoldingProverTrace<F>>,
        before: Seq<Message<<CS::Commitment as Linear<F>>::Model>>,
        after: Seq<Message<<CS::Commitment as Linear<F>>::Model>>,
        next: Self,
    ) -> bool {
        &&& next.folding_pk == self.folding_pk
        &&& exists|delta: int, alpha: int, gamma: int|
            {
                let round = #[trigger] self.round(traces, delta, alpha, gamma);
                &&& after == before + Self::messages(params, round, delta, alpha, gamma)
                &&& self.error.value() == round.f[0]
                &&& round.f_eval == 0
                &&& round.g_eval != 0
                &&& round.g_eval == (round.k_eval * round.z_eval) % F::modulus()
                &&& next.error.value() == round.g_eval
                &&& next.betas() == round.betas
                &&& next.folded_trace.model() == round.folded
            }
    }

    /// The traces can be folded: they have the columns that the circuit reads, and
    /// with the one that was folded so far they are as many as a power of two.
    pub open spec fn can_fold(
        &self,
        params: &CS::Parameters,
        traces: Seq<FoldingProverTrace<F>>,
    ) -> bool {
        let parts = self.parts(traces);
        let dk = folding::log2(parts.len());
        let degree = self.folding_pk.ev.folding_degree_of();
        &&& K >= 1
        &&& self.error.value() == 0 || K >= 2
        &&& pow2(K as nat) <= usize::MAX
        &&& domain::fits::<F>(2, Self::error_k())
        &&& folding::is_power_of_two(parts.len())
        &&& parts.len() <= usize::MAX
        &&& degree <= u32::MAX
        &&& domain::fits::<F>(degree, dk)
        &&& self.folding_pk.accepts(self.folded_trace.model())
        &&& linear::all_alike::<F, FoldingProverTrace<F>>(parts)
        &&& self.folded_trace.trace.advice@.len() == 1
        &&& CS::serves(params, pow2(Self::error_k()))
        &&& CS::serves(params, (pow2(dk) * (degree - 1)) as nat)
    }

    /// Starts with a trace. The challenges are one and the error is zero.
    pub fn init(folding_pk: FoldingPk<F, E>, folded_trace: FoldingProverTrace<F>) -> (r: Self)
        ensures
            r.folding_pk == folding_pk,
            r.folded_trace == folded_trace,
            r.error.value() == 0,
            r.betas() == Seq::new(K as nat, |i: int| 1int),
    {
        let one = F::one();
        let beta = [one; K];
        assert(field::values(beta@) =~= Seq::new(K as nat, |i: int| 1int));
        ProtogalaxyProver {
            folding_pk,
            folded_trace,
            error: F::zero(),
            beta,
            _commitment_scheme: PhantomData,
        }
    }

    /// Returns the value of each row of a trace.
    pub fn compute_h(&self, folded_trace: &FoldingProverTrace<F>) -> (r: Vec<F>)
        requires
            self.folding_pk.accepts(folded_trace.model()),
        ensures
            field::values(r@) == self.folding_pk.h(folded_trace.model()),
    {
        self.folding_pk.compute_h(folded_trace)
    }

    /// Returns by how much a trace misses the circuit, with the rows joined by the
    /// products of the given challenges.
    pub fn compute_error(&self, folded_trace: &FoldingProverTrace<F>, beta_pows: &[F; K]) -> (r: F)
        requires
            self.folding_pk.accepts(folded_trace.model()),
            pow2(K as nat) <= usize::MAX,
        ensures
            r.value() == folding::joined(
                self.folding_pk.h(folded_trace.model()),
                field::values(beta_pows@),
                F::modulus(),
            ),
    {
        let witness_poly = self.compute_h(folded_trace);
        folding::join_rows(&witness_poly, beta_pows)
    }

    /// Returns the coefficients of the polynomial that tells the error with the
    /// challenges moved along `deltas`.
    pub fn compute_f(&self, deltas: &[F; K]) -> (r: Vec<F>)
        requires
            K >= 1,
            self.error.value() == 0 || K >= 2,
            domain::fits::<F>(2, Self::error_k()),
            self.error.value() == 0 || self.folding_pk.accepts(self.folded_trace.model()),
        ensures
            field::values(r@) == self.f_coeffs(field::values(deltas@)),
    {
        if self.error.is(&F::zero()) {
            let domain: EvaluationDomain<F> = EvaluationDomain::new(2, folding::bit_length(K - 1));
            return domain.empty_coeff();
        }
        let witness_poly = self.compute_h(&self.folded_trace);
        proof {
            self.folding_pk.ev.lemma_rows(
                self.folding_pk.domain.k as nat,
                self.folding_pk.selectors.model(),
                self.folded_trace.model(),
            );
            assert(field::values(witness_poly@).len() == witness_poly@.len());
        }
        error_polynomial(&witness_poly, &self.beta, deltas)
    }

    /// Returns the values, on the coset, of the folding polynomial
    ///
    /// ```text
    /// G(X) = sum over the rows i of pow_i(beta) f_i(sum over the traces j of L_j(X) w_j)
    /// ```
    ///
    /// where f_i is the value of a row, pow_i(beta) the product of challenges that
    /// belongs to it, w_j a trace and L_j the basis polynomial that is one at the
    /// point of that trace.
    pub fn compute_poly_g(
        &self,
        domain: &EvaluationDomain<F>,
        beta: &[F; K],
        traces: &Vec<&FoldingProverTrace<F>>,
    ) -> (r: Vec<F>)
        requires
            domain.wf(),
            traces@.len() == domain.size(),
            linear::all_alike::<F, FoldingProverTrace<F>>(
                linear::models::<F, FoldingProverTrace<F>>(traces@),
            ),
            self.folding_pk.accepts(traces@[0].model()),
            pow2(K as nat) <= usize::MAX,
        ensures
            field::values(r@) == self.g_values(
                field::values(beta@),
                domain.k as nat,
                domain.extended_k as nat,
                linear::models::<F, FoldingProverTrace<F>>(traces@),
            ),
    {
        let ghost dk = domain.k as nat;
        let ghost e = domain.extended_k as nat;
        let ghost parts = linear::models::<F, FoldingProverTrace<F>>(traces@);
        let ghost all = self.g_values(field::values(beta@), dk, e, parts);
        let lifted_trace = folding::batch_traces(domain, traces);
        let mut values: Vec<F> = Vec::new();
        for i in 0..lifted_trace.len()
            invariant
                dk == domain.k,
                e == domain.extended_k,
                all == self.g_values(field::values(beta@), dk, e, parts),
                linear::all_alike::<F, FoldingProverTrace<F>>(parts),
                self.folding_pk.accepts(parts[0]),
                pow2(K as nat) <= usize::MAX,
                lifted_trace@.len() == pow2(e),
                forall|j: int|
                    0 <= j < lifted_trace@.len() ==> (#[trigger] lifted_trace@[j]).model()
                        == evaluator::folded_at::<F>(
                        dk,
                        parts,
                        interpolation::coset_point::<F>(e, j as nat),
                    ),
                values@.len() == i,
                forall|j: int| 0 <= j < i ==> #[trigger] values@[j].value() == all[j],
        {
            proof {
                self.folding_pk.lemma_accepts_folded(
                    dk,
                    parts,
                    interpolation::coset_point::<F>(e, i as nat),
                );
            }
            values.push(self.compute_error(&lifted_trace[i], beta));
        }
        assert(field::values(values@) =~= all);
        values
    }

    /// Returns the trace that interpolates the given ones, at `gamma`. Only traces
    /// of one proof are folded.
    pub fn fold_traces(
        domain: &EvaluationDomain<F>,
        traces: &Vec<&FoldingProverTrace<F>>,
        gamma: &F,
    ) -> (r: FoldingProverTrace<F>)
        requires
            domain.wf(),
            traces@.len() == domain.size(),
            linear::all_alike::<F, FoldingProverTrace<F>>(
                linear::models::<F, FoldingProverTrace<F>>(traces@),
            ),
            traces@[0].trace.advice@.len() == 1,
        ensures
            r.model() == evaluator::folded_at::<F>(
                domain.k as nat,
                linear::models::<F, FoldingProverTrace<F>>(traces@),
                gamma.value(),
            ),
    {
        folding::interpolate_traces(domain, traces, gamma)
    }

    /// Folds `traces` into the one that was folded so far.
    ///
    /// The prover draws a challenge and commits to the error polynomial, draws a
    /// second one and sends the value of the error polynomial there, commits to
    /// the quotient of the folding polynomial, draws a last challenge and sends the
    /// value of the quotient there.
    pub fn fold<T: Transcript<F, CS::Commitment>>(
        self,
        params: &CS::Parameters,
        traces: Vec<FoldingProverTrace<F>>,
        transcript: &mut T,
    ) -> (r: Result<Self, Error>)
        requires
            self.can_fold(params, traces@),
            !old(transcript).failed(),
        ensures
            (r matches Err(Error::Transcript)) == final(transcript).failed(),
            r matches Ok(next) ==> self.folds_to(
                params,
                traces@,
                old(transcript).history(),
                final(transcript).history(),
                next,
            ),
            r matches Err(Error::ErrorTerm) ==> exists|delta: int|
                {
                    &&& final(transcript).history() == old(transcript).history().push(
                        Message::Challenge(delta),
                    )
                    &&& self.error.value() != (#[trigger] self.round(traces@, delta, 0, 0)).f[0]
                },
            r matches Err(Error::ErrorEvaluation) ==> exists|delta: int, alpha: int|
                {
                    let round = #[trigger] self.round(traces@, delta, alpha, 0);
                    &&& final(transcript).history() == old(transcript).history()
                        + Self::opening_messages(params, round, delta, alpha)
                    &&& round.f_eval != 0
                },
            r matches Err(Error::ZeroEvaluation) ==> exists|delta: int, alpha: int, gamma: int|
                {
                    let round = #[trigger] self.round(traces@, delta, alpha, gamma);
                    &&& final(transcript).history() == old(transcript).history()
                        + Self::messages(params, round, delta, alpha, gamma)
                    &&& round.g_eval == 0
                },
            r matches Err(Error::Quotient) ==> exists|delta: int, alpha: int, gamma: int|
                {
                    let round = #[trigger] self.round(traces@, delta, alpha, gamma);
                    &&& final(transcript).history() == old(transcript).history()
                        + Self::messages(params, round, delta, alpha, gamma)
                    &&& round.g_eval != 0
                    &&& round.g_eval != (round.k_eval * round.z_eval) % F::modulus()
                },
            r matches Err(e) ==> e == Error::Transcript || e == Error::ErrorTerm || e
                == Error::ErrorEvaluation || e == Error::ZeroEvaluation || e == Error::Quotient,
    {
        let ghost p = F::modulus();
        let ghost start = transcript.history();
        let ghost parts = self.parts(traces@);
        let ghost dk = folding::log2(parts.len());
        proof {
            F::lemma_field();
        }
        let delta = transcript.squeeze_challenge();
        let delta_powers: [F; K] = folding::repeated_squares(&delta);
        let f_poly = self.compute_f(&delta_powers);
        let ghost d = delta.value();
        let ghost first = self.round(traces@, d, 0, 0);
        proof {
            assert(field::values(f_poly@) == first.f);
            lemma_pow2_pos(Self::error_k());
            assert(f_poly@.len() == field::values(f_poly@).len());
        }
        if !self.error.is(&f_poly[0]) {
            proof {
                assert(f_poly@[0].value() == first.f[0]);
            }
            return Err(Error::ErrorTerm);
        }
        let commitment = CS::commit(params, &f_poly);
        if let Err(e) = transcript.write_commitment(commitment) {
            return Err(e);
        }
        let alpha = transcript.squeeze_challenge();
        let f_at_alpha = polynomial::eval_polynomial(&f_poly, &alpha);
        let ghost a = alpha.value();
        let ghost second = self.round(traces@, d, a, 0);
        proof {
            assert(transcript.history() =~= start + Self::opening_messages(params, second, d, a));
        }
        if !f_at_alpha.is(&F::zero()) {
            return Err(Error::ErrorEvaluation);
        }
        if let Err(e) = transcript.write_scalar(&f_at_alpha) {
            return Err(e);
        }
        let beta_star = folding::shift_challenges(&self.beta, &delta_powers, &alpha);
        let all = gather(&self.folded_trace, &traces);
        proof {
            assert(linear::models::<F, FoldingProverTrace<F>>(all@) =~= parts);
        }
        let folding_degree: u32 = self.folding_pk.ev.folding_degree();
        let dk_domain: EvaluationDomain<F> = EvaluationDomain::new(
            folding_degree,
            folding::exact_log2(all.len()),
        );
        let ghost extended = dk_domain.extended_k as nat;
        proof {
            domain::lemma_extension_is(
                extended,
                dk,
                (dk_domain.n * dk_domain.quotient_poly_degree) as nat,
            );
        }
        let poly_g = self.compute_poly_g(&dk_domain, &beta_star, &all);
        let ghost g = self.g_values(field::values(beta_star@), dk, extended, parts);
        assert(poly_g@.len() == pow2(extended)) by {
            assert(field::values(poly_g@).len() == g.len());
        }
        let poly_k_coeff = folding::quotient_poly(&dk_domain, &poly_g);
        let commitment = CS::commit(params, &poly_k_coeff);
        if let Err(e) = transcript.write_commitment(commitment) {
            return Err(e);
        }
        let gamma = transcript.squeeze_challenge();
        let ghost c = gamma.value();
        let ghost round = self.round(traces@, d, a, c);
        let poly_g_coeff = dk_domain.extended_to_coeff(&poly_g);
        let g_in_gamma = polynomial::eval_polynomial(&poly_g_coeff, &gamma);
        let k_in_gamma = polynomial::eval_polynomial(&poly_k_coeff, &gamma);
        let z_in_gamma = folding::eval_vanishing(&dk_domain, &gamma);
        proof {
            assert(z_in_gamma.value() == round.z_eval);
            assert(k_in_gamma.value() == round.k_eval);
            assert(g_in_gamma.value() == round.g_eval);
        }
        if let Err(e) = transcript.write_scalar(&k_in_gamma) {
            return Err(e);
        }
        proof {
            assert(transcript.history() =~= start + Self::messages(params, round, d, a, c));
        }
        if let Err(e) = folding::check_quotient(&g_in_gamma, &k_in_gamma, &z_in_gamma) {
            return Err(e);
        }
        let folded_trace = Self::fold_traces(&dk_domain, &all, &gamma);
        let ProtogalaxyProver { folding_pk, .. } = self;
        Ok(
            ProtogalaxyProver {
                folding_pk,
                folded_trace,
                error: g_in_gamma,
                beta: beta_star,
                _commitment_scheme: PhantomData,
            },
        )
    }
}

/// Returns the coefficients of the polynomial that tells the error, for rows with the
/// values `h`, with the challenges `betas` moved along `deltas`.
pub fn error_polynomial<F: PrimeField, const K: usize>(
    h: &Vec<F>,
    betas: &[F; K],
    deltas: &[F; K],
) -> (r: Vec<F>)
    requires
        K >= 2,
        domain::fits::<F>(2, folding::bits_of((K - 1) as nat)),
    ensures
        field::values(r@) == error_coeffs::<F>(
            field::values(h@),
            field::values(betas@),
            field::values(deltas@),
            folding::bits_of((K - 1) as nat),
        ),
{
    let ghost p = F::modulus();
    let ghost kf = folding::bits_of((K - 1) as nat);
    let ghost b = field::values(betas@);
    let ghost d = field::values(deltas@);
    let ghost hv = field::values(h@);
    proof {
        F::lemma_field();
    }
    let domain: EvaluationDomain<F> = EvaluationDomain::new(2, folding::bit_length(K - 1));
    let n: usize = domain.n as usize;
    assert(n >= 2) by {
        lemma2_to64();
        if kf > 1 {
            lemma_pow2_strictly_increases(1, kf);
        } else if kf == 0 {
            assert(false);
        }
    }
    let one_poly = constant_values::<F>(n);
    let mut lagrange_polys: Vec<Vec<F>> = Vec::new();
    for j in 0..K
        invariant
            domain.wf(),
            domain.k == kf,
            n == domain.size(),
            n >= 2,
            p == F::modulus(),
            p > 3,
            b == field::values(betas@),
            d == field::values(deltas@),
            lagrange_polys@.len() == j,
            forall|l: int|
                0 <= l < j ==> (#[trigger] lagrange_polys@[l])@.len() == n
                    && forall|t: int|
                    0 <= t < n ==> residues::cong(
                        #[trigger] lagrange_polys@[l]@[t].value(),
                        b[l] + d[l] * interpolation::point::<F>(kf, t as nat),
                        p,
                    ),
    {
        let mut poly = domain.empty_coeff();
        assert(poly@.len() == n) by {
            assert(field::values(poly@).len() == n);
        }
        let ghost blank = poly@;
        poly.set(0, betas[j]);
        poly.set(1, deltas[j]);
        let values = domain.coeff_to_lagrange(&poly);
        proof {
            let c = field::values(poly@);
            let (bj, dj) = (b[j as int], d[j as int]);
            assert forall|t: int| 2 <= t < n implies #[trigger] c[t] == 0 by {
                assert(field::values(blank)[t] == 0);
            }
            assert forall|t: int| 0 <= t < n implies residues::cong(
                #[trigger] values@[t].value(),
                bj + dj * interpolation::point::<F>(kf, t as nat),
                p,
            ) by {
                let x = interpolation::point::<F>(kf, t as nat);
                lemma_eval_linear(c, bj, dj, x);
                residues::lemma_mod_cong(polynomial::eval(c, x), p);
            }
        }
        lagrange_polys.push(values);
    }
    let mut res: Vec<F> = domain::zeros(n);
    assert(res@.len() == n) by {
        assert(field::values(res@).len() == n);
    }
    assert forall|t: int| 0 <= t < n implies #[trigger] res@[t].value() == 0 by {
        assert(field::values(res@)[t] == 0);
    }
    for i in 0..h.len()
        invariant
            p == F::modulus(),
            p > 3,
            domain.wf(),
            domain.k == kf,
            n == domain.size(),
            b.len() == K,
            d.len() == K,
            field::values(h@) == hv,
            h@.len() == hv.len(),
            one_poly@.len() == n,
            forall|t: int| 0 <= t < n ==> #[trigger] one_poly@[t].value() == 1,
            lagrange_polys@.len() == K,
            forall|l: int|
                0 <= l < K ==> (#[trigger] lagrange_polys@[l])@.len() == n
                    && forall|t: int|
                    0 <= t < n ==> residues::cong(
                        #[trigger] lagrange_polys@[l]@[t].value(),
                        b[l] + d[l] * interpolation::point::<F>(kf, t as nat),
                        p,
                    ),
            res@.len() == n,
            forall|t: int|
                0 <= t < n ==> residues::cong(
                    #[trigger] res@[t].value(),
                    error_at(
                        hv.take(i as int),
                        b,
                        d,
                        interpolation::point::<F>(kf, t as nat),
                    ),
                    p,
                ),
    {
        let pow_i_poly: Vec<F> = powers::pow_i(lagrange_polys.as_slice(), i + 1, &one_poly);
        let ghost pv = pow_i_poly.places();
        assert(pv =~= field::values(pow_i_poly@));
        let mut next: Vec<F> = Vec::new();
        for t in 0..n
            invariant
                p == F::modulus(),
                p > 3,
                n == domain.size(),
                i < h@.len(),
                b.len() == K,
                d.len() == K,
                pv == field::values(pow_i_poly@),
                pv == Seq::new(
                    one_poly.places().len(),
                    |t: int|
                        (one_poly.places()[t] * powers::pow_of(
                            powers::at_place::<F, Vec<F>>(lagrange_polys@, t),
                            (i + 1) as nat,
                        )) % p,
                ),
                field::values(h@) == hv,
                h@.len() == hv.len(),
                one_poly@.len() == n,
                forall|t: int| 0 <= t < n ==> #[trigger] one_poly@[t].value() == 1,
                lagrange_polys@.len() == K,
                forall|l: int|
                    0 <= l < K ==> (#[trigger] lagrange_polys@[l])@.len() == n
                        && forall|t: int|
                        0 <= t < n ==> residues::cong(
                            #[trigger] lagrange_polys@[l]@[t].value(),
                            b[l] + d[l] * interpolation::point::<F>(kf, t as nat),
                            p,
                        ),
                res@.len() == n,
                forall|t: int|
                    0 <= t < n ==> residues::cong(
                        #[trigger] res@[t].value(),
                        error_at(
                            hv.take(i as int),
                            b,
                            d,
                            interpolation::point::<F>(kf, t as nat),
                        ),
                        p,
                    ),
                next@.len() == t,
                forall|l: int|
                    0 <= l < t ==> residues::cong(
                        #[trigger] next@[l].value(),
                        error_at(
                            hv.take(i + 1),
                            b,
                            d,
                            interpolation::point::<F>(kf, l as nat),
                        ),
                        p,
                    ),
        {
            assert(field::values(pow_i_poly@).len() == n);
            let term = pow_i_poly[t].mul(&h[i]);
            let sum = res[t].add(&term);
            proof {
                let x = interpolation::point::<F>(kf, t as nat);
                let place = powers::at_place::<F, Vec<F>>(lagrange_polys@, t as int);
                let line = Seq::new(K as nat, |j: int| b[j] + d[j] * x);
                assert forall|l: int| 0 <= l < K implies residues::cong(
                    #[trigger] place[l],
                    line[l],
                    p,
                ) by {
                    assert(place[l] == lagrange_polys@[l]@[t as int].value());
                }
                lemma_pow_of_cong(place, line, (i + 1) as nat, p);
                let q = powers::pow_of(place, (i + 1) as nat);
                let ql = powers::pow_of(line, (i + 1) as nat);
                assert(pv[t as int] == (one_poly.places()[t as int] * q) % p);
                assert(one_poly.places()[t as int] == one_poly@[t as int].value());
                assert(1 * q == q);
                assert(pow_i_poly@[t as int].value() == pv[t as int]);
                residues::lemma_mod_cong(q, p);
                let hi = hv[i as int];
                assert(h@[i as int].value() == field::values(h@)[i as int]);
                residues::lemma_cong_ops(pv[t as int], ql, hi, hi, p);
                residues::lemma_mod_cong(pv[t as int] * hi, p);
                assert(ql * hi == hi * ql) by (nonlinear_arith);
                lemma_error_at_step(hv, b, d, x, i as int);
                residues::lemma_cong_ops(
                    res@[t as int].value(),
                    error_at(hv.take(i as int), b, d, x),
                    term.value(),
                    hi * ql,
                    p,
                );
                residues::lemma_mod_cong(res@[t as int].value() + term.value(), p);
            }
            next.push(sum);
        }
        res = next;
    }
    let r = domain.lagrange_to_coeff(&res);
    proof {
        assert(hv.take(hv.len() as int) =~= hv);
        assert forall|t: int| 0 <= t < n implies #[trigger] field::values(res@)[t] == error_at(
            hv,
            b,
            d,
            interpolation::point::<F>(kf, t as nat),
        ) % p by {
            res@[t].lemma_value();
            residues::lemma_residue_is(
                res@[t].value(),
                error_at(hv, b, d, interpolation::point::<F>(kf, t as nat)),
                p,
            );
        }
        assert(field::values(res@) =~= Seq::new(
            pow2(kf),
            |t: int|
                error_at(hv, b, d, interpolation::point::<F>(kf, t as nat)) % F::modulus(),
        ));
    }
    r
}

/// Returns references to `first` and to the elements of `rest`.
pub(crate) fn gather<'a, T>(first: &'a T, rest: &'a Vec<T>) -> (r: Vec<&'a T>)
    ensures
        r@.len() == rest@.len() + 1,
        r@[0] == first,
        forall|j: int| 1 <= j < r@.len() ==> *(#[trigger] r@[j]) == rest@[j - 1],
{
    let mut r: Vec<&'a T> = Vec::new();
    r.push(first);
    for j in 0..rest.len()
        invariant
            r@.len() == j + 1,
            r@[0] == first,
            forall|l: int| 1 <= l < r@.len() ==> *(#[trigger] r@[l]) == rest@[l - 1],
    {
        r.push(&rest[j]);
    }
    r
}

/// Returns the values of the polynomial one.
fn constant_values<F: PrimeField>(n: usize) -> (r: Vec<F>)
    ensures
        r@.len() == n,
        forall|t: int| 0 <= t < n ==> #[trigger] r@[t].value() == 1,
{
    let mut r: Vec<F> = Vec::new();
    for t in 0..n
        invariant
            r@.len() == t,
            forall|l: int| 0 <= l < t ==> #[trigger] r@[l].value() == 1,
    {
        r.push(F::one());
    }
    r
}

/// The value of a polynomial of degree one.
pub proof fn lemma_eval_linear(c: Seq<int>, a: int, b: int, x: int)
    requires
        c.len() >= 2,
        c[0] == a,
        c[1] == b,
        forall|t: int| 2 <= t < c.len() ==> #[trigger] c[t] == 0,
    ensures
        polynomial::eval(c, x) == a + b * x,
{
    let s = seq![a, b];
    polynomial::lemma_eval_pad(s, c, x);
    residues::lemma_pow_step(x, 0);
    reveal_with_fuel(residues::sum, 3);
    assert(polynomial::eval(s, x) == s[0] * pow(x, 0) + s[1] * pow(x, 1));
    assert(a * 1 == a);
}

/// Congruent factors give congruent products.
pub proof fn lemma_pow_of_cong(a: Seq<int>, b: Seq<int>, i: nat, p: int)
    requires
        p > 0,
        a.len() == b.len(),
        forall|j: int| 0 <= j < a.len() ==> residues::cong(#[trigger] a[j], b[j], p),
    ensures
        residues::cong(powers::pow_of(a, i), powers::pow_of(b, i), p),
{
    lemma_product_cong(a, b, i, a.len(), p);
}

proof fn lemma_product_cong(a: Seq<int>, b: Seq<int>, i: nat, n: nat, p: int)
    requires
        p > 0,
        n <= a.len(),
        n <= b.len(),
        forall|j: int| 0 <= j < n ==> residues::cong(#[trigger] a[j], b[j], p),
    ensures
        residues::cong(powers::product(a, i, n), powers::product(b, i, n), p),
    decreases n,
{
    if n > 0 {
        let m = (n - 1) as nat;
        lemma_product_cong(a, b, i, m, p);
        let set = powers::bit(i, m);
        let (u, v): (int, int) = if set {
            (a[n - 1], b[n - 1])
        } else {
            (1, 1)
        };
        assert(residues::cong(a[n - 1], b[n - 1], p));
        residues::lemma_cong_ops(powers::product(a, i, m), powers::product(b, i, m), u, v, p);
    }
}

/// One more row in the error.
proof fn lemma_error_at_step(h: Seq<int>, betas: Seq<int>, deltas: Seq<int>, x: int, i: int)
    requires
        0 <= i < h.len(),
    ensures
        error_at(h.take(i + 1), betas, deltas, x) == error_at(h.take(i), betas, deltas, x) + h[i]
            * powers::pow_of(
            Seq::new(betas.len(), |j: int| betas[j] + deltas[j] * x),
            (i + 1) as nat,
        ),
{
    let line = Seq::new(betas.len(), |j: int| betas[j] + deltas[j] * x);
    let f = |l: int| h.take(i)[l] * powers::pow_of(line, (l + 1) as nat);
    let g = |l: int| h.take(i + 1)[l] * powers::pow_of(line, (l + 1) as nat);
    residues::lemma_sum_eq(i as nat, f, g);
}

} // verus!
