//! The prover that folds traces into one in a single round, and prepares the proof
//! of the folded trace.
use crate::commitment::PolynomialCommitmentScheme;
use crate::domain::{self, EvaluationDomain};
use crate::error::Error;
use crate::evaluator::{self, Evaluator, FoldingPk};
use crate::field::{self, PrimeField};
use crate::folding;
use crate::interpolation;
use crate::linear::{self, Linear};
use crate::parallel;
use crate::polynomial;
use crate::traces::{FoldingProverTrace, ProverModel};
use crate::transcript::{Message, Transcript};
use std::marker::PhantomData;
use vstd::arithmetic::power2::*;
use vstd::prelude::*;

verus! {

/// This prover folds a power of two of traces into one, in a single round, so that
/// one proof serves all of them. A trace has 2^`K` rows.
pub struct ProtogalaxyProverOneShot<
    F: PrimeField,
    CS: PolynomialCommitmentScheme<F>,
    const K: usize,
> {
    _phantom_data: PhantomData<(F, CS)>,
}

/// What a prover has after folding, for the proof of the folded trace.
pub struct OneShotFolding<F: PrimeField> {
    /// The folded trace.
    pub folded_trace: FoldingProverTrace<F>,
    /// The challenge that joined the rows.
    pub beta: F,
    /// The coefficients of the polynomial of the error terms.
    pub error_coeff: Vec<F>,
    /// The coefficients of the folded fixed columns.
    pub fixed_polys: Vec<Vec<F>>,
    /// The values of the folded fixed columns on the coset.
    pub fixed_cosets: Vec<Vec<F>>,
}

/// A polynomial to be opened at a point.
pub struct ProverQuery<'a, F: PrimeField> {
    /// The point.
    pub point: F,
    /// The coefficients of the polynomial.
    pub poly: &'a Vec<F>,
}

/// The values of all rows, for all points of the coset.
pub open spec fn g_rows<F: PrimeField, E: Evaluator<F>>(
    pk: &FoldingPk<F, E>,
    dk: nat,
    extended: nat,
    parts: Seq<ProverModel>,
) -> Seq<Seq<int>> {
    Seq::new(
        pow2(extended),
        |i: int|
            pk.h(
                evaluator::folded_at::<F>(
                    dk,
                    parts,
                    interpolation::coset_point::<F>(extended, i as nat),
                ),
            ),
    )
}

/// The rows of each point, joined with weights.
pub open spec fn joined_rows(rows: Seq<Seq<int>>, weights: Seq<int>, p: int) -> Seq<int> {
    Seq::new(rows.len(), |i: int| polynomial::dot(rows[i], weights) % p)
}

/// The value at `gamma` of the polynomial that row `j` is on the coset.
pub open spec fn error_term<F: PrimeField>(
    rows: Seq<Seq<int>>,
    extended: nat,
    len: nat,
    gamma: int,
    j: int,
) -> int {
    polynomial::eval(
        interpolation::interpolate_coset::<F>(linear::column(rows, j), extended).take(len as int),
        gamma,
    ) % F::modulus()
}

/// The models of a list of traces.
pub open spec fn parts_of<F: PrimeField>(traces: Seq<FoldingProverTrace<F>>) -> Seq<ProverModel> {
    linear::list_model::<F, FoldingProverTrace<F>>(traces)
}

/// What the challenges of the round lead to.
pub struct OneShotRound {
    /// The coefficients of the quotient.
    pub k: Seq<int>,
    /// Its value at the last challenge.
    pub k_eval: int,
    /// The error terms, one for each row.
    pub errors: Seq<int>,
    /// The folded trace.
    pub folded: ProverModel,
}

/// What the challenges lead to.
pub open spec fn one_shot_round<F: PrimeField, E: Evaluator<F>>(
    pk: &FoldingPk<F, E>,
    parts: Seq<ProverModel>,
    beta: int,
    gamma: int,
) -> OneShotRound {
    let p = F::modulus();
    let k = pk.domain.k as nat;
    let dk = folding::log2(parts.len());
    let len = (pow2(dk) * (pk.ev.folding_degree_of() - 1)) as nat;
    let extended = domain::extension_of(dk, len);
    let rows = g_rows(pk, dk, extended, parts);
    let g = joined_rows(rows, interpolation::lagranges::<F>(k, beta), p);
    let quotient = interpolation::interpolate_coset::<F>(
        folding::quotient::<F>(g, dk, extended),
        extended,
    ).take(len as int);
    OneShotRound {
        k: quotient,
        k_eval: polynomial::eval(quotient, gamma) % p,
        errors: Seq::new(pow2(k), |j: int| error_term::<F>(rows, extended, len, gamma, j)),
        folded: evaluator::folded_at::<F>(dk, parts, gamma),
    }
}

/// The traces can be folded: they have the columns that the circuit reads, are as
/// many as a power of two, and have 2^`K` rows.
pub open spec fn can_fold<F: PrimeField, CS: PolynomialCommitmentScheme<F>, E: Evaluator<F>>(
    params: &CS::Parameters,
    pk: &FoldingPk<F, E>,
    traces: Seq<FoldingProverTrace<F>>,
    rows: nat,
) -> bool {
    let parts = parts_of(traces);
    let dk = folding::log2(parts.len());
    let degree = pk.ev.folding_degree_of();
    &&& pk.domain.size() == pow2(rows)
    &&& folding::is_power_of_two(parts.len())
    &&& degree <= u32::MAX
    &&& domain::fits::<F>(degree, dk)
    &&& linear::all_alike::<F, FoldingProverTrace<F>>(parts)
    &&& pk.accepts(parts[0])
    &&& traces[0].trace.advice@.len() == 1
    &&& CS::serves(params, (pow2(dk) * (degree - 1)) as nat)
    &&& CS::serves_values(params, pk.domain.size())
    &&& forall|i: int|
        0 <= i < parts[0].trace.fixed.len() ==> (#[trigger] parts[0].trace.fixed[i]).len()
            == pk.domain.size()
}

impl<F: PrimeField, CS: PolynomialCommitmentScheme<F>, const K: usize> ProtogalaxyProverOneShot<
    F,
    CS,
    K,
> {
    /// What the prover sends, and the challenges in between.
    pub open spec fn messages(
        params: &CS::Parameters,
        round: OneShotRound,
        beta: int,
        gamma: int,
    ) -> Seq<Message<<CS::Commitment as Linear<F>>::Model>> {
        seq![
            Message::Challenge(beta),
            Message::Commitment(CS::of_coeffs(params, round.k)),
            Message::Challenge(gamma),
            Message::Scalar(round.k_eval),
            Message::Commitment(CS::of_values(params, round.errors)),
        ]
    }

    /// A round over `traces` gives `folding`, and takes the transcript from `before`
    /// to `after`.
    pub open spec fn folds_to<E: Evaluator<F>>(
        params: &CS::Parameters,
        folding_pk: &FoldingPk<F, E>,
        traces: Seq<FoldingProverTrace<F>>,
        before: Seq<Message<<CS::Commitment as Linear<F>>::Model>>,
        after: Seq<Message<<CS::Commitment as Linear<F>>::Model>>,
        folding: OneShotFolding<F>,
    ) -> bool {
        let k = folding_pk.domain.k as nat;
        let e = folding_pk.domain.extended_k as nat;
        exists|beta: int, gamma: int|
            {
                let round = #[trigger] one_shot_round(
                    folding_pk,
                    parts_of(traces),
                    beta,
                    gamma,
                );
                &&& after == before + Self::messages(params, round, beta, gamma)
                &&& folding.beta.value() == beta
                &&& folding.folded_trace.model() == round.folded
                &&& field::values(folding.error_coeff@) == interpolation::interpolate::<F>(
                    round.errors,
                    k,
                )
                &&& folding.fixed_polys.model() == all_interpolated::<F>(
                    round.folded.trace.fixed,
                    k,
                )
                &&& folding.fixed_cosets.model() == all_on_coset::<F>(
                    all_interpolated::<F>(round.folded.trace.fixed, k),
                    e,
                )
            }
    }

    /// Folds `traces`.
    ///
    /// The prover draws a challenge and commits to the quotient of the folding
    /// polynomial, draws a second one and sends the value of the quotient there,
    /// and commits to the error terms. With the folded trace come the folded fixed
    /// columns, which take the place of those of the circuit in the proof of the
    /// folded trace.
    pub fn fold<E: Evaluator<F>, T: Transcript<F, CS::Commitment>>(
        params: &CS::Parameters,
        folding_pk: &FoldingPk<F, E>,
        traces: &Vec<FoldingProverTrace<F>>,
        transcript: &mut T,
    ) -> (r: Result<OneShotFolding<F>, Error>)
        requires
            can_fold::<F, CS, E>(params, folding_pk, traces@, K as nat),
            !old(transcript).failed(),
        ensures
            (r matches Err(Error::Transcript)) == final(transcript).failed(),
            r matches Ok(folding) ==> Self::folds_to(
                params,
                folding_pk,
                traces@,
                old(transcript).history(),
                final(transcript).history(),
                folding,
            ),
            r matches Err(e) ==> e == Error::Transcript,
    {
        let ghost start = transcript.history();
        let ghost p = F::modulus();
        let ghost k = folding_pk.domain.k as nat;
        let ghost parts = parts_of(traces@);
        let ghost dk = folding::log2(parts.len());
        proof {
            F::lemma_field();
        }
        let all = references(traces);
        proof {
            assert(linear::models::<F, FoldingProverTrace<F>>(all@) =~= parts);
        }
        let beta_pg = transcript.squeeze_challenge();
        let dk_domain: EvaluationDomain<F> = EvaluationDomain::new(
            folding_pk.ev.folding_degree(),
            folding::exact_log2(all.len()),
        );
        let ghost extended = dk_domain.extended_k as nat;
        let ghost len = (dk_domain.n * dk_domain.quotient_poly_degree) as nat;
        proof {
            domain::lemma_extension_is(extended, dk, len);
        }
        let lagrange_on_beta = domain::lagrange_evals_at(&folding_pk.domain, &beta_pg);
        let ghost weights = interpolation::lagranges::<F>(k, beta_pg.value());
        assert(field::values(lagrange_on_beta@) =~= weights);
        let (poly_g, poly_g_unbatched) = Self::compute_poly_g(
            folding_pk,
            &dk_domain,
            &lagrange_on_beta,
            &all,
        );
        let ghost rows = g_rows(folding_pk, dk, extended, parts);
        let ghost g = joined_rows(rows, weights, p);
        assert(poly_g@.len() == pow2(extended)) by {
            assert(field::values(poly_g@).len() == g.len());
        }
        let poly_k_coeff = folding::quotient_poly(&dk_domain, &poly_g);
        let poly_k_commitment = CS::commit(params, &poly_k_coeff);
        if let Err(e) = transcript.write_commitment(poly_k_commitment) {
            return Err(e);
        }
        let gamma = transcript.squeeze_challenge();
        let ghost round = one_shot_round(folding_pk, parts, beta_pg.value(), gamma.value());
        let k_in_gamma = polynomial::eval_polynomial(&poly_k_coeff, &gamma);
        if let Err(e) = transcript.write_scalar(&k_in_gamma) {
            return Err(e);
        }
        proof {
            assert forall|i: int| 0 <= i < rows.len() implies (#[trigger] rows[i]).len() == pow2(
                k,
            ) by {
                folding_pk.lemma_accepts_folded(
                    dk,
                    parts,
                    interpolation::coset_point::<F>(extended, i as nat),
                );
            }
            let m: Seq<Seq<int>> = poly_g_unbatched.model();
            assert forall|i: int| 0 <= i < poly_g_unbatched@.len() implies (
            #[trigger] poly_g_unbatched@[i])@.len() == pow2(k) by {
                assert(m[i] == rows[i]);
                assert(m[i] == poly_g_unbatched@[i].model());
            }
            assert(poly_g_unbatched@.len() == m.len());
        }
        let error_terms = compute_error_terms(
            folding_pk.domain.n as usize,
            &dk_domain,
            &poly_g_unbatched,
            &gamma,
        );
        assert(field::values(error_terms@) =~= round.errors);
        assert(error_terms@.len() == folding_pk.domain.size()) by {
            assert(field::values(error_terms@).len() == round.errors.len());
        }
        let folded_trace = Self::fold_traces(&dk_domain, &all, &gamma);
        let error_coeff = folding_pk.domain.lagrange_to_coeff(&error_terms);
        let committed_error = CS::commit_lagrange(params, &error_terms);
        if let Err(e) = transcript.write_commitment(committed_error) {
            return Err(e);
        }
        proof {
            assert(transcript.history() =~= start + Self::messages(
                params,
                round,
                beta_pg.value(),
                gamma.value(),
            ));
            let folded = folded_trace.model();
            let coeffs = interpolation::lagranges::<F>(dk, gamma.value());
            <FoldingProverTrace<F> as Linear<F>>::lemma_combined_alike(coeffs, parts);
            assert forall|i: int| 0 <= i < folded.trace.fixed.len() implies (
            #[trigger] folded.trace.fixed[i]).len() == folding_pk.domain.size() by {
                assert(<Vec<F> as Linear<F>>::alike(
                    folded.trace.fixed[i],
                    parts[0].trace.fixed[i],
                ));
            }
        }
        let (fixed_polys, fixed_cosets) = update_fixed(
            &folding_pk.domain,
            &folded_trace.trace.fixed,
        );
        Ok(OneShotFolding { folded_trace, beta: beta_pg, error_coeff, fixed_polys, fixed_cosets })
    }

    /// Returns the values, on the coset, of the folding polynomial, in which the
    /// rows are joined with the weights `beta_coeffs`; and the rows for each point,
    /// before they are joined.
    pub fn compute_poly_g<E: Evaluator<F>>(
        folding_pk: &FoldingPk<F, E>,
        domain: &EvaluationDomain<F>,
        beta_coeffs: &Vec<F>,
        traces: &Vec<&FoldingProverTrace<F>>,
    ) -> (r: (Vec<F>, Vec<Vec<F>>))
        requires
            domain.wf(),
            traces@.len() == domain.size(),
            linear::all_alike::<F, FoldingProverTrace<F>>(
                linear::models::<F, FoldingProverTrace<F>>(traces@),
            ),
            folding_pk.accepts(traces@[0].model()),
        ensures
            ({
                let rows = g_rows(
                    folding_pk,
                    domain.k as nat,
                    domain.extended_k as nat,
                    linear::models::<F, FoldingProverTrace<F>>(traces@),
                );
                &&& r.1.model() == rows
                &&& field::values(r.0@) == joined_rows(
                    rows,
                    field::values(beta_coeffs@),
                    F::modulus(),
                )
            }),
    {
        let ghost dk = domain.k as nat;
        let ghost e = domain.extended_k as nat;
        let ghost parts = linear::models::<F, FoldingProverTrace<F>>(traces@);
        let ghost rows = g_rows(folding_pk, dk, e, parts);
        let ghost w = field::values(beta_coeffs@);
        let ghost g = joined_rows(rows, w, F::modulus());
        let lifted_folding_trace = folding::batch_traces(domain, traces);
        let mut g_poly: Vec<F> = Vec::new();
        let mut g_poly_unbatched: Vec<Vec<F>> = Vec::new();
        for i in 0..lifted_folding_trace.len()
            invariant
                parts == linear::models::<F, FoldingProverTrace<F>>(traces@),
                linear::all_alike::<F, FoldingProverTrace<F>>(parts),
                folding_pk.accepts(parts[0]),
                rows == g_rows(folding_pk, dk, e, parts),
                w == field::values(beta_coeffs@),
                g == joined_rows(rows, w, F::modulus()),
                lifted_folding_trace@.len() == pow2(e),
                forall|j: int|
                    0 <= j < lifted_folding_trace@.len() ==> (
                    #[trigger] lifted_folding_trace@[j]).model() == evaluator::folded_at::<F>(
                        dk,
                        parts,
                        interpolation::coset_point::<F>(e, j as nat),
                    ),
                g_poly@.len() == i,
                g_poly_unbatched@.len() == i,
                forall|j: int| 0 <= j < i ==> #[trigger] g_poly@[j].value() == g[j],
                forall|j: int|
                    0 <= j < i ==> field::values((#[trigger] g_poly_unbatched@[j])@) == rows[j],
        {
            proof {
                folding_pk.lemma_accepts_folded(
                    dk,
                    parts,
                    interpolation::coset_point::<F>(e, i as nat),
                );
            }
            let witness_poly = folding_pk.compute_h(&lifted_folding_trace[i]);
            g_poly.push(parallel::inner_product(&witness_poly, beta_coeffs));
            g_poly_unbatched.push(witness_poly);
        }
        proof {
            assert(field::values(g_poly@) =~= g);
            let m: Seq<Seq<int>> = g_poly_unbatched.model();
            assert forall|j: int| 0 <= j < m.len() implies #[trigger] m[j] == rows[j] by {
                assert(m[j] =~= field::values(g_poly_unbatched@[j]@));
            }
            assert(m =~= rows);
        }
        (g_poly, g_poly_unbatched)
    }

    /// Returns the trace that interpolates the given ones, at `gamma`. Only traces
    /// of one proof are folded.
    pub fn fold_traces(
        dk_domain: &EvaluationDomain<F>,
        traces: &Vec<&FoldingProverTrace<F>>,
        gamma: &F,
    ) -> (r: FoldingProverTrace<F>)
        requires
            dk_domain.wf(),
            traces@.len() == dk_domain.size(),
            linear::all_alike::<F, FoldingProverTrace<F>>(
                linear::models::<F, FoldingProverTrace<F>>(traces@),
            ),
            traces@[0].trace.advice@.len() == 1,
        ensures
            r.model() == evaluator::folded_at::<F>(
                dk_domain.k as nat,
                linear::models::<F, FoldingProverTrace<F>>(traces@),
                gamma.value(),
            ),
    {
        folding::interpolate_traces(dk_domain, traces, gamma)
    }
}

/// Returns references to all elements.
pub(crate) fn references<T>(s: &Vec<T>) -> (r: Vec<&T>)
    ensures
        r@.len() == s@.len(),
        forall|j: int| 0 <= j < r@.len() ==> *(#[trigger] r@[j]) == s@[j],
{
    let mut r: Vec<&T> = Vec::new();
    for j in 0..s.len()
        invariant
            r@.len() == j,
            forall|l: int| 0 <= l < j ==> *(#[trigger] r@[l]) == s@[l],
    {
        r.push(&s[j]);
    }
    r
}

/// Returns the error terms: for each row, its value at `gamma_pg`, from its values
/// on the coset.
pub fn compute_error_terms<F: PrimeField>(
    pk_domain_size: usize,
    dk_domain: &EvaluationDomain<F>,
    poly_g_unbatched: &Vec<Vec<F>>,
    gamma_pg: &F,
) -> (r: Vec<F>)
    requires
        dk_domain.wf(),
        poly_g_unbatched@.len() == dk_domain.extended_size(),
        forall|i: int|
            0 <= i < poly_g_unbatched@.len() ==> (#[trigger] poly_g_unbatched@[i])@.len()
                >= pk_domain_size,
    ensures
        field::values(r@) == Seq::new(
            pk_domain_size as nat,
            |j: int|
                error_term::<F>(
                    poly_g_unbatched.model(),
                    dk_domain.extended_k as nat,
                    (dk_domain.n * dk_domain.quotient_poly_degree) as nat,
                    gamma_pg.value(),
                    j,
                ),
        ),
{
    let ghost rows: Seq<Seq<int>> = poly_g_unbatched.model();
    let ghost e = dk_domain.extended_k as nat;
    let ghost len = (dk_domain.n * dk_domain.quotient_poly_degree) as nat;
    let column_term = |j: usize| -> (t: F)
        requires
            j < pk_domain_size,
        ensures
            t.value() == error_term::<F>(
                poly_g_unbatched.model(),
                dk_domain.extended_k as nat,
                (dk_domain.n * dk_domain.quotient_poly_degree) as nat,
                gamma_pg.value(),
                j as int,
            ),
        { column_error_term(dk_domain, poly_g_unbatched, gamma_pg, j) };
    let r = parallel::map_indices(pk_domain_size, column_term);
    proof {
        let all = Seq::new(
            pk_domain_size as nat,
            |j: int| error_term::<F>(rows, e, len, gamma_pg.value(), j),
        );
        assert forall|j: int| 0 <= j < r@.len() implies #[trigger] field::values(r@)[j]
            == all[j] by {
            let i = j as usize;
            assert(call_ensures(column_term, (i,), r@[i as int]));
        }
        assert(field::values(r@) =~= all);
    }
    r
}

/// Returns the error term of the row `j`.
fn column_error_term<F: PrimeField>(
    dk_domain: &EvaluationDomain<F>,
    poly_g_unbatched: &Vec<Vec<F>>,
    gamma_pg: &F,
    j: usize,
) -> (r: F)
    requires
        dk_domain.wf(),
        poly_g_unbatched@.len() == dk_domain.extended_size(),
        forall|i: int|
            0 <= i < poly_g_unbatched@.len() ==> j < (#[trigger] poly_g_unbatched@[i])@.len(),
    ensures
        r.value() == error_term::<F>(
            poly_g_unbatched.model(),
            dk_domain.extended_k as nat,
            (dk_domain.n * dk_domain.quotient_poly_degree) as nat,
            gamma_pg.value(),
            j as int,
        ),
{
    let ghost rows: Seq<Seq<int>> = poly_g_unbatched.model();
    let mut poly_evals: Vec<F> = Vec::new();
    for i in 0..poly_g_unbatched.len()
        invariant
            rows == poly_g_unbatched.model(),
            forall|i: int|
                0 <= i < poly_g_unbatched@.len() ==> j < (#[trigger] poly_g_unbatched@[i])@.len(),
            poly_evals@.len() == i,
            forall|l: int| 0 <= l < i ==> #[trigger] poly_evals@[l].value() == rows[l][j as int],
    {
        proof {
            assert(rows[i as int] == poly_g_unbatched@[i as int].model());
        }
        poly_evals.push(poly_g_unbatched[i][j]);
    }
    assert(field::values(poly_evals@) =~= linear::column(rows, j as int));
    let coeff_poly = dk_domain.extended_to_coeff(&poly_evals);
    polynomial::eval_polynomial(&coeff_poly, gamma_pg)
}

/// The values of a polynomial on the coset of 2^`extended` points.
pub open spec fn on_coset<F: PrimeField>(c: Seq<int>, extended: nat) -> Seq<int> {
    Seq::new(
        pow2(extended),
        |i: int|
            polynomial::eval(c, interpolation::coset_point::<F>(extended, i as nat))
                % F::modulus(),
    )
}

/// The coefficients of the polynomials that take the values of the columns.
pub open spec fn all_interpolated<F: PrimeField>(columns: Seq<Seq<int>>, k: nat) -> Seq<
    Seq<int>,
> {
    Seq::new(columns.len(), |i: int| interpolation::interpolate::<F>(columns[i], k))
}

/// The values of polynomials on the coset.
pub open spec fn all_on_coset<F: PrimeField>(polys: Seq<Seq<int>>, extended: nat) -> Seq<
    Seq<int>,
> {
    Seq::new(polys.len(), |i: int| on_coset::<F>(polys[i], extended))
}

/// Returns the coefficients of the polynomials that take the values of columns.
pub fn interpolate_columns<F: PrimeField>(
    domain: &EvaluationDomain<F>,
    columns: &Vec<Vec<F>>,
) -> (r: Vec<Vec<F>>)
    requires
        domain.wf(),
        forall|i: int|
            0 <= i < columns.model().len() ==> (#[trigger] columns.model()[i]).len()
                == domain.size(),
    ensures
        r.model() == all_interpolated::<F>(columns.model(), domain.k as nat),
{
    let ghost m: Seq<Seq<int>> = columns.model();
    let ghost all = all_interpolated::<F>(m, domain.k as nat);
    let mut r: Vec<Vec<F>> = Vec::new();
    for i in 0..columns.len()
        invariant
            domain.wf(),
            m == columns.model(),
            all == all_interpolated::<F>(m, domain.k as nat),
            forall|l: int| 0 <= l < m.len() ==> (#[trigger] m[l]).len() == domain.size(),
            r@.len() == i,
            forall|l: int| 0 <= l < i ==> field::values((#[trigger] r@[l])@) == all[l],
    {
        proof {
            assert(m[i as int] =~= field::values(columns@[i as int]@));
        }
        r.push(domain.lagrange_to_coeff(&columns[i]));
    }
    proof {
        let a: Seq<Seq<int>> = r.model();
        assert forall|l: int| 0 <= l < m.len() implies #[trigger] a[l] == all[l] by {
            assert(a[l] =~= field::values(r@[l]@));
        }
        assert(a =~= all);
    }
    r
}

/// Returns the coefficients of the folded fixed columns, and their values on the
/// coset.
pub fn update_fixed<F: PrimeField>(
    domain: &EvaluationDomain<F>,
    fixed_values: &Vec<Vec<F>>,
) -> (r: (Vec<Vec<F>>, Vec<Vec<F>>))
    requires
        domain.wf(),
        forall|i: int|
            0 <= i < fixed_values.model().len() ==> (#[trigger] fixed_values.model()[i]).len()
                == domain.size(),
    ensures
        r.0.model() == all_interpolated::<F>(fixed_values.model(), domain.k as nat),
        r.1.model() == all_on_coset::<F>(
            all_interpolated::<F>(fixed_values.model(), domain.k as nat),
            domain.extended_k as nat,
        ),
{
    let ghost e = domain.extended_k as nat;
    let fixed_polys = interpolate_columns(domain, fixed_values);
    let ghost m: Seq<Seq<int>> = fixed_polys.model();
    let ghost all = all_on_coset::<F>(m, e);
    let mut fixed_cosets: Vec<Vec<F>> = Vec::new();
    for i in 0..fixed_polys.len()
        invariant
            domain.wf(),
            e == domain.extended_k,
            m == fixed_polys.model(),
            m == all_interpolated::<F>(fixed_values.model(), domain.k as nat),
            all == all_on_coset::<F>(m, e),
            forall|l: int|
                0 <= l < fixed_values.model().len() ==> (
                #[trigger] fixed_values.model()[l]).len() == domain.size(),
            fixed_cosets@.len() == i,
            forall|l: int| 0 <= l < i ==> field::values((#[trigger] fixed_cosets@[l])@) == all[l],
    {
        proof {
            assert(m[i as int] =~= field::values(fixed_polys@[i as int]@));
            assert(fixed_values.model()[i as int].len() == domain.size());
            assert(m[i as int].len() == domain.size());
        }
        let coset = domain.coeff_to_extended(&fixed_polys[i]);
        assert(field::values(coset@) =~= all[i as int]);
        fixed_cosets.push(coset);
    }
    proof {
        let b: Seq<Seq<int>> = fixed_cosets.model();
        assert forall|l: int| 0 <= l < m.len() implies #[trigger] b[l] == all[l] by {
            assert(b[l] =~= field::values(fixed_cosets@[l]@));
        }
        assert(b =~= all);
    }
    (fixed_polys, fixed_cosets)
}

/// Returns the values, on the coset, of the identities of the folded trace less the
/// error terms. What is left vanishes on the domain.
pub fn correct_identities<F: PrimeField>(
    domain: &EvaluationDomain<F>,
    h_poly: &Vec<F>,
    error_coeff: &Vec<F>,
) -> (r: Vec<F>)
    requires
        domain.wf(),
        h_poly@.len() == domain.extended_size(),
        error_coeff@.len() == domain.size(),
    ensures
        field::values(r@) == Seq::new(
            domain.extended_size(),
            |i: int|
                (h_poly@[i].value() - on_coset::<F>(
                    field::values(error_coeff@),
                    domain.extended_k as nat,
                )[i]) % F::modulus(),
        ),
{
    let correction = domain.coeff_to_extended(error_coeff);
    let ghost c = on_coset::<F>(field::values(error_coeff@), domain.extended_k as nat);
    let ghost all = Seq::new(
        domain.extended_size(),
        |i: int| (h_poly@[i].value() - c[i]) % F::modulus(),
    );
    let mut r: Vec<F> = Vec::new();
    for i in 0..h_poly.len()
        invariant
            h_poly@.len() == correction@.len(),
            all.len() == h_poly@.len(),
            all == Seq::new(
                domain.extended_size(),
                |i: int| (h_poly@[i].value() - c[i]) % F::modulus(),
            ),
            forall|l: int| 0 <= l < correction@.len() ==> #[trigger] correction@[l].value() == c[l],
            r@.len() == i,
            forall|l: int| 0 <= l < i ==> #[trigger] r@[l].value() == all[l],
    {
        r.push(h_poly[i].sub(&correction[i]));
    }
    assert(field::values(r@) =~= all);
    r
}

/// Adds the openings of the polynomial of the error terms: at the point `x` of the
/// proof, where it corrects the identities, and at the challenge `beta`, where it
/// is the error term of the verifier.
pub fn push_error_queries<'a, F: PrimeField>(
    queries: &mut Vec<ProverQuery<'a, F>>,
    x: &F,
    beta: &F,
    error_coeff: &'a Vec<F>,
)
    ensures
        final(queries)@ == old(queries)@.push(
            ProverQuery { point: *x, poly: error_coeff },
        ).push(ProverQuery { point: *beta, poly: error_coeff }),
{
    queries.push(ProverQuery { point: *x, poly: error_coeff });
    queries.push(ProverQuery { point: *beta, poly: error_coeff });
}

impl<F: PrimeField> OneShotFolding<F> {
    /// Returns the coefficients of the folded advice columns of each proof.
    pub fn advice_polys(&self, domain: &EvaluationDomain<F>) -> (r: Vec<Vec<Vec<F>>>)
        requires
            domain.wf(),
            forall|i: int, c: int|
                #![trigger self.folded_trace.model().trace.advice[i][c]]
                0 <= i < self.folded_trace.model().trace.advice.len() && 0 <= c
                    < self.folded_trace.model().trace.advice[i].len()
                    ==> self.folded_trace.model().trace.advice[i][c].len() == domain.size(),
        ensures
            r.model() == Seq::new(
                self.folded_trace.model().trace.advice.len(),
                |i: int|
                    all_interpolated::<F>(
                        self.folded_trace.model().trace.advice[i],
                        domain.k as nat,
                    ),
            ),
    {
        let ghost m: Seq<Seq<Seq<int>>> = self.folded_trace.model().trace.advice;
        let ghost all = Seq::new(
            m.len(),
            |i: int| all_interpolated::<F>(m[i], domain.k as nat),
        );
        let advice = &self.folded_trace.trace.advice;
        let mut r: Vec<Vec<Vec<F>>> = Vec::new();
        for i in 0..advice.len()
            invariant
                domain.wf(),
                m == advice.model(),
                all == Seq::new(
                    m.len(),
                    |i: int| all_interpolated::<F>(m[i], domain.k as nat),
                ),
                forall|i: int, c: int|
                    #![trigger m[i][c]]
                    0 <= i < m.len() && 0 <= c < m[i].len() ==> m[i][c].len() == domain.size(),
                r@.len() == i,
                forall|l: int| 0 <= l < i ==> (#[trigger] r@[l]).model() == all[l],
        {
            proof {
                assert(m[i as int] == advice@[i as int].model());
            }
            r.push(interpolate_columns(domain, &advice[i]));
        }
        assert(r.model() =~= all);
        r
    }

    /// Returns the values, on the coset, of the identities of the folded trace less
    /// its error terms.
    pub fn correct(&self, domain: &EvaluationDomain<F>, h_poly: &Vec<F>) -> (r: Vec<F>)
        requires
            domain.wf(),
            h_poly@.len() == domain.extended_size(),
            self.error_coeff@.len() == domain.size(),
        ensures
            field::values(r@) == Seq::new(
                domain.extended_size(),
                |i: int|
                    (h_poly@[i].value() - on_coset::<F>(
                        field::values(self.error_coeff@),
                        domain.extended_k as nat,
                    )[i]) % F::modulus(),
            ),
    {
        correct_identities(domain, h_poly, &self.error_coeff)
    }

    /// The value at `x` of the polynomial of the error terms.
    pub open spec fn correction_at(&self, x: int) -> int {
        polynomial::eval(field::values(self.error_coeff@), x) % F::modulus()
    }

    /// Sends the value of the polynomial of the error terms at the point `x` of the
    /// proof, where it corrects the identities.
    pub fn send_correction<C: Linear<F>, T: Transcript<F, C>>(
        &self,
        x: &F,
        transcript: &mut T,
    ) -> (r: Result<(), Error>)
        requires
            !old(transcript).failed(),
        ensures
            (r matches Err(Error::Transcript)) == final(transcript).failed(),
            r matches Err(e) ==> e == Error::Transcript,
            r is Ok ==> final(transcript).history() == old(transcript).history().push(
                Message::Scalar(self.correction_at(x.value())),
            ),
    {
        let correction_eval = polynomial::eval_polynomial(&self.error_coeff, x);
        transcript.write_scalar(&correction_eval)
    }

    /// Adds the openings of the polynomial of the error terms, at the point `x` of the
    /// proof and at the challenge that joined the rows.
    pub fn push_queries<'a>(&'a self, queries: &mut Vec<ProverQuery<'a, F>>, x: &F)
        ensures
            final(queries)@ == old(queries)@.push(
                ProverQuery { point: *x, poly: &self.error_coeff },
            ).push(ProverQuery { point: self.beta, poly: &self.error_coeff }),
    {
        push_error_queries(queries, x, &self.beta, &self.error_coeff);
    }
}

} // verus!
