//! The scheme that commits to a polynomial by its value at one point. It hides
//! and binds nothing towards those who know the point, but has the algebra of
//! the schemes that do.
use crate::commitment::{self, PolynomialCommitmentScheme};
use crate::domain::EvaluationDomain;
use crate::field::PrimeField;
use crate::interpolation;
use crate::linear::{self, Linear};
use crate::polynomial;
use crate::residues;
use vstd::arithmetic::power::*;
use vstd::prelude::*;

verus! {

/// The scheme.
pub struct PointScheme;

/// The point, and the domain on which columns have their values.
pub struct PointParameters<F: PrimeField> {
    /// The point.
    pub point: F,
    /// The domain.
    pub domain: EvaluationDomain<F>,
}

impl<F: PrimeField> PolynomialCommitmentScheme<F> for PointScheme {
    type Parameters = PointParameters<F>;

    type Commitment = F;

    open spec fn serves(params: &PointParameters<F>, len: nat) -> bool {
        true
    }

    open spec fn serves_values(params: &PointParameters<F>, len: nat) -> bool {
        params.domain.wf() && len == params.domain.size()
    }

    open spec fn of_coeffs(params: &PointParameters<F>, c: Seq<int>) -> int {
        polynomial::eval(c, params.point.value()) % F::modulus()
    }

    open spec fn of_values(params: &PointParameters<F>, v: Seq<int>) -> int {
        polynomial::eval(
            interpolation::interpolate::<F>(v, params.domain.k as nat),
            params.point.value(),
        ) % F::modulus()
    }

    fn commit(params: &PointParameters<F>, poly: &Vec<F>) -> (r: F) {
        polynomial::eval_polynomial(poly, &params.point)
    }

    fn commit_lagrange(params: &PointParameters<F>, poly: &Vec<F>) -> (r: F) {
        let coeffs = params.domain.lagrange_to_coeff(poly);
        polynomial::eval_polynomial(&coeffs, &params.point)
    }
}

/// The scheme takes combinations of polynomials to those of their commitments.
pub proof fn lemma_point_scheme_homomorphic<F: PrimeField>(params: &PointParameters<F>)
    ensures
        commitment::is_homomorphic::<F, PointScheme>(params),
{
    F::lemma_field();
    let p = F::modulus();
    let x = params.point.value();
    let k = params.domain.k as nat;
    let f = commitment::to_coeffs::<F, PointScheme>(params);
    assert forall|coeffs: Seq<int>, parts: Seq<Seq<int>>|
        linear::all_alike::<F, Vec<F>>(parts) && coeffs.len() == parts.len()
            && commitment::of_all(commitment::coeffs_served::<F, PointScheme>(params))(
            parts,
        ) implies f(#[trigger] <Vec<F> as Linear<F>>::combined(coeffs, parts))
        == <F as Linear<F>>::combined(coeffs, commitment::map(parts, f)) by {
        let sums = commitment::map(parts, f);
        let w = |i: int| pow(x, i as nat);
        assert forall|j: int| 0 <= j < parts.len() implies residues::cong(
            #[trigger] sums[j],
            linear::weighted(parts[j], w),
            p,
        ) by {
            assert(sums[j] == f(parts[j]));
            residues::lemma_sum_eq(
                parts[j].len(),
                |i: int| parts[j][i] * w(i),
                |i: int| parts[j][i] * pow(x, i as nat),
            );
            residues::lemma_mod_cong(polynomial::eval(parts[j], x), p);
        }
        linear::lemma_weighted_combined::<F>(coeffs, parts, w, sums);
        let c = <Vec<F> as Linear<F>>::combined(coeffs, parts);
        residues::lemma_sum_eq(
            c.len(),
            |i: int| c[i] * w(i),
            |i: int| c[i] * pow(x, i as nat),
        );
    }
    let g = commitment::to_column::<F, PointScheme>(params);
    assert forall|coeffs: Seq<int>, parts: Seq<Seq<int>>|
        linear::all_alike::<F, Vec<F>>(parts) && coeffs.len() == parts.len()
            && commitment::of_all(commitment::column_served::<F, PointScheme>(params))(
            parts,
        ) implies g(#[trigger] <Vec<F> as Linear<F>>::combined(coeffs, parts))
        == <F as Linear<F>>::combined(coeffs, commitment::map(parts, g)) by {
        let sums = commitment::map(parts, g);
        let w = |i: int| interpolation::lagrange::<F>(k, i, x);
        assert forall|j: int| 0 <= j < parts.len() implies residues::cong(
            #[trigger] sums[j],
            linear::weighted(parts[j], w),
            p,
        ) && parts[j].len() == params.domain.size() && params.domain.wf() by {
            assert(sums[j] == g(parts[j]));
            assert(commitment::column_served::<F, PointScheme>(params)(parts[j]));
            interpolation::lemma_lagrange_combination::<F>(k, parts[j], x);
            residues::lemma_sum_eq(
                parts[j].len(),
                |i: int| parts[j][i] * w(i),
                |i: int| parts[j][i] * interpolation::lagrange::<F>(k, i, x),
            );
            residues::lemma_mod_cong(
                polynomial::eval(interpolation::interpolate::<F>(parts[j], k), x),
                p,
            );
        }
        assert(residues::cong(sums[0], linear::weighted(parts[0], w), p));
        linear::lemma_weighted_combined::<F>(coeffs, parts, w, sums);
        let c = <Vec<F> as Linear<F>>::combined(coeffs, parts);
        interpolation::lemma_lagrange_combination::<F>(k, c, x);
        residues::lemma_sum_eq(
            c.len(),
            |i: int| c[i] * w(i),
            |i: int| c[i] * interpolation::lagrange::<F>(k, i, x),
        );
    }
}

/// A polynomial has one commitment, whether it is given by coefficients or by the
/// values that it takes on the domain.
pub proof fn lemma_point_scheme_forms_agree<F: PrimeField>(
    params: &PointParameters<F>,
    c: Seq<int>,
    v: Seq<int>,
)
    requires
        params.domain.wf(),
        c.len() == params.domain.size(),
        v.len() == params.domain.size(),
        forall|i: int|
            0 <= i < v.len() ==> residues::cong(
                #[trigger] v[i],
                polynomial::eval(
                    c,
                    interpolation::point::<F>(params.domain.k as nat, i as nat),
                ),
                F::modulus(),
            ),
    ensures
        <PointScheme as PolynomialCommitmentScheme<F>>::of_values(params, v)
            == <PointScheme as PolynomialCommitmentScheme<F>>::of_coeffs(params, c),
{
    F::lemma_field();
    let p = F::modulus();
    let k = params.domain.k as nat;
    let x = params.point.value();
    interpolation::lemma_interpolate_values::<F>(c, v, k);
    let d = interpolation::interpolate::<F>(v, k);
    assert forall|j: int| 0 <= j < d.len() implies residues::cong(#[trigger] d[j], c[j], p) by {
        residues::lemma_mod_cong(c[j], p);
    }
    polynomial::lemma_eval_cong(d, c, x, x, p);
}

} // verus!
