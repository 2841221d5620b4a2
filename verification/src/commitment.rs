//! Commitments to polynomials.
use crate::field::{self, PrimeField};
use crate::linear::{self, Linear};
use crate::traces::{self, FoldingProverTrace, ProverModel, Trace, TraceModel, VerifierFoldingTrace};
use vstd::prelude::*;

verus! {

/// A scheme that commits to polynomials.
pub trait PolynomialCommitmentScheme<F: PrimeField>: Sized {
    /// What both sides agree on.
    type Parameters;

    /// A commitment.
    type Commitment: Linear<F>;

    /// The parameters serve polynomials with `len` coefficients.
    spec fn serves(params: &Self::Parameters, len: nat) -> bool;

    /// The parameters serve polynomials given by `len` values.
    spec fn serves_values(params: &Self::Parameters, len: nat) -> bool;

    /// The commitment to the polynomial with the coefficients `c`.
    spec fn of_coeffs(params: &Self::Parameters, c: Seq<int>) -> <Self::Commitment as Linear<
        F,
    >>::Model;

    /// The commitment to the polynomial with the values `v`.
    spec fn of_values(params: &Self::Parameters, v: Seq<int>) -> <Self::Commitment as Linear<
        F,
    >>::Model;

    /// Returns the commitment to the polynomial with the coefficients `poly`.
    fn commit(params: &Self::Parameters, poly: &Vec<F>) -> (r: Self::Commitment)
        requires
            Self::serves(params, poly@.len()),
        ensures
            r.model() == Self::of_coeffs(params, field::values(poly@)),
    ;

    /// Returns the commitment to the polynomial with the values `poly`.
    fn commit_lagrange(params: &Self::Parameters, poly: &Vec<F>) -> (r: Self::Commitment)
        requires
            Self::serves_values(params, poly@.len()),
        ensures
            r.model() == Self::of_values(params, field::values(poly@)),
    ;
}

/// What `f` gives for each element.
pub open spec fn map<M, N>(s: Seq<M>, f: spec_fn(M) -> N) -> Seq<N> {
    Seq::new(s.len(), |i: int| f(s[i]))
}

/// `f`, on the elements of a list.
pub open spec fn on_list<M, N>(f: spec_fn(M) -> N) -> spec_fn(Seq<M>) -> Seq<N> {
    |s: Seq<M>| map(s, f)
}

/// `ok` holds of all elements of a list.
pub open spec fn of_all<M>(ok: spec_fn(M) -> bool) -> spec_fn(Seq<M>) -> bool {
    |s: Seq<M>| forall|i: int| 0 <= i < s.len() ==> ok(#[trigger] s[i])
}

/// The commitment to a column that is given by its values.
pub open spec fn to_column<F: PrimeField, CS: PolynomialCommitmentScheme<F>>(
    params: &CS::Parameters,
) -> spec_fn(Seq<int>) -> <CS::Commitment as Linear<F>>::Model {
    |v: Seq<int>| CS::of_values(params, v)
}

/// The commitment to a polynomial that is given by its coefficients.
pub open spec fn to_coeffs<F: PrimeField, CS: PolynomialCommitmentScheme<F>>(
    params: &CS::Parameters,
) -> spec_fn(Seq<int>) -> <CS::Commitment as Linear<F>>::Model {
    |c: Seq<int>| CS::of_coeffs(params, c)
}

/// The parameters serve a column.
pub open spec fn column_served<F: PrimeField, CS: PolynomialCommitmentScheme<F>>(
    params: &CS::Parameters,
) -> spec_fn(Seq<int>) -> bool {
    |v: Seq<int>| CS::serves_values(params, v.len())
}

/// The parameters serve a polynomial.
pub open spec fn coeffs_served<F: PrimeField, CS: PolynomialCommitmentScheme<F>>(
    params: &CS::Parameters,
) -> spec_fn(Seq<int>) -> bool {
    |c: Seq<int>| CS::serves(params, c.len())
}

/// The parameters serve all columns of a trace.
pub open spec fn served<F: PrimeField, CS: PolynomialCommitmentScheme<F>>(
    params: &CS::Parameters,
    m: ProverModel,
) -> bool {
    let ok = column_served::<F, CS>(params);
    let t = m.trace;
    &&& of_all(ok)(t.fixed)
    &&& of_all(of_all(ok))(t.advice)
    &&& coeffs_served::<F, CS>(params)(t.vanishing)
    &&& of_all(of_all(of_all(ok)))(t.lookups)
    &&& of_all(of_all(ok))(t.permutations)
    &&& of_all(of_all(ok))(t.trashcans)
}

/// The trace of the verifier that belongs to one of the prover: commitments in
/// place of columns.
pub open spec fn committed<F: PrimeField, CS: PolynomialCommitmentScheme<F>>(
    params: &CS::Parameters,
    m: ProverModel,
) -> TraceModel<<CS::Commitment as Linear<F>>::Model> {
    let f = to_column::<F, CS>(params);
    let t = m.trace;
    TraceModel {
        fixed: map(t.fixed, f),
        advice: map(t.advice, on_list(f)),
        vanishing: CS::of_coeffs(params, t.vanishing),
        lookups: map(t.lookups, on_list(on_list(f))),
        permutations: map(t.permutations, on_list(f)),
        trashcans: map(t.trashcans, on_list(f)),
        challenges: t.challenges,
        beta: t.beta,
        gamma: t.gamma,
        theta: t.theta,
        trash_challenge: t.trash_challenge,
        y: t.y,
    }
}

/// Returns the commitments to the columns of a list.
fn commit_columns<F: PrimeField, CS: PolynomialCommitmentScheme<F>>(
    params: &CS::Parameters,
    columns: &Vec<Vec<F>>,
) -> (r: Vec<CS::Commitment>)
    requires
        of_all(column_served::<F, CS>(params))(columns.model()),
    ensures
        r.model() == map(columns.model(), to_column::<F, CS>(params)),
        r@.len() == columns@.len(),
        forall|i: int|
            0 <= i < r@.len() ==> (#[trigger] r@[i]).model() == CS::of_values(
                params,
                field::values(columns@[i]@),
            ),
{
    let ghost m: Seq<Seq<int>> = columns.model();
    let ghost f = to_column::<F, CS>(params);
    let mut r: Vec<CS::Commitment> = Vec::new();
    for i in 0..columns.len()
        invariant
            m == columns.model(),
            f == to_column::<F, CS>(params),
            of_all(column_served::<F, CS>(params))(m),
            r@.len() == i,
            forall|l: int| 0 <= l < i ==> (#[trigger] r@[l]).model() == f(m[l]),
            forall|l: int|
                0 <= l < i ==> (#[trigger] r@[l]).model() == CS::of_values(
                    params,
                    field::values(columns@[l]@),
                ),
    {
        proof {
            assert(m[i as int] == columns@[i as int].model());
            assert(m[i as int] =~= field::values(columns@[i as int]@));
            assert(column_served::<F, CS>(params)(m[i as int]));
        }
        r.push(CS::commit_lagrange(params, &columns[i]));
    }
    assert(r.model() =~= map(m, f));
    r
}

/// Returns the commitments to the columns of a list of lists.
fn commit_lists<F: PrimeField, CS: PolynomialCommitmentScheme<F>>(
    params: &CS::Parameters,
    columns: &Vec<Vec<Vec<F>>>,
) -> (r: Vec<Vec<CS::Commitment>>)
    requires
        of_all(of_all(column_served::<F, CS>(params)))(columns.model()),
    ensures
        r.model() == map(columns.model(), on_list(to_column::<F, CS>(params))),
        r@.len() == columns@.len(),
        forall|i: int| 0 <= i < r@.len() ==> (#[trigger] r@[i])@.len() == columns@[i]@.len(),
        forall|i: int, j: int|
            0 <= i < r@.len() && 0 <= j < r@[i]@.len() ==> (#[trigger] r@[i]@[j]).model()
                == CS::of_values(params, field::values(columns@[i]@[j]@)),
{
    let ghost m: Seq<Seq<Seq<int>>> = columns.model();
    let ghost f = on_list(to_column::<F, CS>(params));
    let mut r: Vec<Vec<CS::Commitment>> = Vec::new();
    for i in 0..columns.len()
        invariant
            m == columns.model(),
            f == on_list(to_column::<F, CS>(params)),
            of_all(of_all(column_served::<F, CS>(params)))(m),
            r@.len() == i,
            forall|l: int| 0 <= l < i ==> (#[trigger] r@[l]).model() == f(m[l]),
            forall|l: int| 0 <= l < i ==> (#[trigger] r@[l])@.len() == columns@[l]@.len(),
            forall|l: int, j: int|
                0 <= l < i && 0 <= j < r@[l]@.len() ==> (#[trigger] r@[l]@[j]).model()
                    == CS::of_values(params, field::values(columns@[l]@[j]@)),
    {
        proof {
            assert(m[i as int] == columns@[i as int].model());
            assert(of_all(column_served::<F, CS>(params))(m[i as int]));
        }
        r.push(commit_columns::<F, CS>(params, &columns[i]));
    }
    assert(r.model() =~= map(m, f));
    r
}

/// Returns the commitments to the columns of a list of lists of lists.
fn commit_nested<F: PrimeField, CS: PolynomialCommitmentScheme<F>>(
    params: &CS::Parameters,
    columns: &Vec<Vec<Vec<Vec<F>>>>,
) -> (r: Vec<Vec<Vec<CS::Commitment>>>)
    requires
        of_all(of_all(of_all(column_served::<F, CS>(params))))(columns.model()),
    ensures
        r.model() == map(columns.model(), on_list(on_list(to_column::<F, CS>(params)))),
        r@.len() == columns@.len(),
        forall|i: int| 0 <= i < r@.len() ==> (#[trigger] r@[i])@.len() == columns@[i]@.len(),
        forall|i: int, j: int|
            0 <= i < r@.len() && 0 <= j < r@[i]@.len() ==> (#[trigger] r@[i]@[j])@.len()
                == columns@[i]@[j]@.len(),
        forall|i: int, j: int, l: int|
            0 <= i < r@.len() && 0 <= j < r@[i]@.len() && 0 <= l < r@[i]@[j]@.len() ==> (
            #[trigger] r@[i]@[j]@[l]).model() == CS::of_values(
                params,
                field::values(columns@[i]@[j]@[l]@),
            ),
{
    let ghost m: Seq<Seq<Seq<Seq<int>>>> = columns.model();
    let ghost f = on_list(on_list(to_column::<F, CS>(params)));
    let mut r: Vec<Vec<Vec<CS::Commitment>>> = Vec::new();
    for i in 0..columns.len()
        invariant
            m == columns.model(),
            f == on_list(on_list(to_column::<F, CS>(params))),
            of_all(of_all(of_all(column_served::<F, CS>(params))))(m),
            r@.len() == i,
            forall|l: int| 0 <= l < i ==> (#[trigger] r@[l]).model() == f(m[l]),
            forall|l: int| 0 <= l < i ==> (#[trigger] r@[l])@.len() == columns@[l]@.len(),
            forall|l: int, j: int|
                0 <= l < i && 0 <= j < r@[l]@.len() ==> (#[trigger] r@[l]@[j])@.len()
                    == columns@[l]@[j]@.len(),
            forall|l: int, j: int, t: int|
                0 <= l < i && 0 <= j < r@[l]@.len() && 0 <= t < r@[l]@[j]@.len() ==> (
                #[trigger] r@[l]@[j]@[t]).model() == CS::of_values(
                    params,
                    field::values(columns@[l]@[j]@[t]@),
                ),
    {
        proof {
            assert(m[i as int] == columns@[i as int].model());
            assert(of_all(of_all(column_served::<F, CS>(params)))(m[i as int]));
        }
        r.push(commit_lists::<F, CS>(params, &columns[i]));
    }
    assert(r.model() =~= map(m, f));
    r
}

/// Returns a copy of a list of elements.
fn copied<F: PrimeField>(s: &Vec<F>) -> (r: Vec<F>)
    ensures
        r@ == s@,
{
    let mut r: Vec<F> = Vec::new();
    for i in 0..s.len()
        invariant
            r@ =~= s@.take(i as int),
    {
        r.push(s[i]);
    }
    assert(r@ =~= s@);
    r
}

impl<F: PrimeField> FoldingProverTrace<F> {
    /// Returns the trace of the verifier that belongs to this one.
    pub fn commit<CS: PolynomialCommitmentScheme<F>>(&self, params: &CS::Parameters) -> (r:
        VerifierFoldingTrace<F, CS::Commitment>)
        requires
            served::<F, CS>(params, self.model()),
        ensures
            r.model() == committed::<F, CS>(params, self.model()),
            r.fixed@.len() == self.trace.fixed@.len(),
            forall|i: int|
                0 <= i < r.fixed@.len() ==> (#[trigger] r.fixed@[i]).model() == CS::of_values(
                    params,
                    field::values(self.trace.fixed@[i]@),
                ),
            r.advice@.len() == self.trace.advice@.len(),
            forall|i: int|
                0 <= i < r.advice@.len() ==> (#[trigger] r.advice@[i])@.len()
                    == self.trace.advice@[i]@.len(),
            forall|i: int, j: int|
                0 <= i < r.advice@.len() && 0 <= j < r.advice@[i]@.len() ==> (
                #[trigger] r.advice@[i]@[j]).model() == CS::of_values(
                    params,
                    field::values(self.trace.advice@[i]@[j]@),
                ),
            r.vanishing.model() == CS::of_coeffs(params, field::values(self.trace.vanishing@)),
            r.lookups@.len() == self.trace.lookups@.len(),
            forall|i: int|
                0 <= i < r.lookups@.len() ==> (#[trigger] r.lookups@[i])@.len()
                    == self.trace.lookups@[i]@.len(),
            forall|i: int, j: int|
                0 <= i < r.lookups@.len() && 0 <= j < r.lookups@[i]@.len() ==> (
                #[trigger] r.lookups@[i]@[j])@.len() == self.trace.lookups@[i]@[j]@.len(),
            forall|i: int, j: int, l: int|
                0 <= i < r.lookups@.len() && 0 <= j < r.lookups@[i]@.len() && 0 <= l
                    < r.lookups@[i]@[j]@.len() ==> (#[trigger] r.lookups@[i]@[j]@[l]).model()
                    == CS::of_values(params, field::values(self.trace.lookups@[i]@[j]@[l]@)),
            r.permutations@.len() == self.trace.permutations@.len(),
            forall|i: int|
                0 <= i < r.permutations@.len() ==> (#[trigger] r.permutations@[i])@.len()
                    == self.trace.permutations@[i]@.len(),
            forall|i: int, j: int|
                0 <= i < r.permutations@.len() && 0 <= j < r.permutations@[i]@.len() ==> (
                #[trigger] r.permutations@[i]@[j]).model() == CS::of_values(
                    params,
                    field::values(self.trace.permutations@[i]@[j]@),
                ),
            r.trashcans@.len() == self.trace.trashcans@.len(),
            forall|i: int|
                0 <= i < r.trashcans@.len() ==> (#[trigger] r.trashcans@[i])@.len()
                    == self.trace.trashcans@[i]@.len(),
            forall|i: int, j: int|
                0 <= i < r.trashcans@.len() && 0 <= j < r.trashcans@[i]@.len() ==> (
                #[trigger] r.trashcans@[i]@[j]).model() == CS::of_values(
                    params,
                    field::values(self.trace.trashcans@[i]@[j]@),
                ),
            r.challenges@ == self.trace.challenges@,
            r.beta == self.trace.beta,
            r.gamma == self.trace.gamma,
            r.theta@ == self.trace.theta@,
            r.trash_challenge == self.trace.trash_challenge,
            r.y@ == self.trace.y@,
    {
        let t = &self.trace;
        proof {
            let v: Seq<int> = t.vanishing.model();
            assert(v =~= field::values(t.vanishing@));
        }
        let r = Trace {
            fixed: commit_columns::<F, CS>(params, &t.fixed),
            advice: commit_lists::<F, CS>(params, &t.advice),
            vanishing: CS::commit(params, &t.vanishing),
            lookups: commit_nested::<F, CS>(params, &t.lookups),
            permutations: commit_lists::<F, CS>(params, &t.permutations),
            trashcans: commit_lists::<F, CS>(params, &t.trashcans),
            challenges: copied(&t.challenges),
            beta: t.beta,
            gamma: t.gamma,
            theta: copied(&t.theta),
            trash_challenge: t.trash_challenge,
            y: copied(&t.y),
        };
        r
    }
}

/// `f` takes combinations to combinations, where `ok` holds of the parts.
pub open spec fn is_homomorphism<F: PrimeField, T: Linear<F>, U: Linear<F>>(
    ok: spec_fn(T::Model) -> bool,
    f: spec_fn(T::Model) -> U::Model,
) -> bool {
    forall|coeffs: Seq<int>, parts: Seq<T::Model>|
        linear::all_alike::<F, T>(parts) && coeffs.len() == parts.len() && of_all(ok)(parts)
            ==> f(#[trigger] T::combined(coeffs, parts)) == U::combined(coeffs, map(parts, f))
}

/// A homomorphism of the elements gives one of the lists.
pub proof fn lemma_homomorphism_on_lists<F: PrimeField, T: Linear<F>, U: Linear<F>>(
    ok: spec_fn(T::Model) -> bool,
    f: spec_fn(T::Model) -> U::Model,
)
    requires
        is_homomorphism::<F, T, U>(ok, f),
    ensures
        is_homomorphism::<F, Vec<T>, Vec<U>>(of_all(ok), on_list(f)),
{
    let g = on_list(f);
    assert forall|coeffs: Seq<int>, parts: Seq<Seq<T::Model>>|
        linear::all_alike::<F, Vec<T>>(parts) && coeffs.len() == parts.len() && of_all(
            of_all(ok),
        )(parts) implies g(#[trigger] <Vec<T> as Linear<F>>::combined(coeffs, parts)) == <Vec<
        U,
    > as Linear<F>>::combined(coeffs, map(parts, g)) by {
        let left = g(<Vec<T> as Linear<F>>::combined(coeffs, parts));
        let right = <Vec<U> as Linear<F>>::combined(coeffs, map(parts, g));
        assert forall|i: int| 0 <= i < parts[0].len() implies left[i] == right[i] by {
            let c = linear::column(parts, i);
            assert forall|j: int| 0 <= j < parts.len() implies linear::lists_alike::<F, T>(
                #[trigger] parts[j],
                parts[0],
            ) by {
                assert(<Vec<T> as Linear<F>>::alike(parts[j], parts[0]));
            }
            linear::lemma_column_alike::<F, T>(parts, i);
            assert(of_all(ok)(c)) by {
                assert forall|j: int| 0 <= j < c.len() implies ok(#[trigger] c[j]) by {
                    assert(of_all(ok)(parts[j]));
                    assert(ok(parts[j][i]));
                }
            }
            assert(left[i] == f(T::combined(coeffs, c)));
            assert(linear::column(map(parts, g), i) =~= map(c, f)) by {
                assert forall|j: int| 0 <= j < parts.len() implies #[trigger] linear::column(
                    map(parts, g),
                    i,
                )[j] == map(c, f)[j] by {
                    assert(map(parts, g)[j] == g(parts[j]));
                }
            }
        }
        assert(left =~= right);
    }
}

/// The scheme takes combinations of polynomials to those of their commitments.
pub open spec fn is_homomorphic<F: PrimeField, CS: PolynomialCommitmentScheme<F>>(
    params: &CS::Parameters,
) -> bool {
    &&& is_homomorphism::<F, Vec<F>, CS::Commitment>(
        column_served::<F, CS>(params),
        to_column::<F, CS>(params),
    )
    &&& is_homomorphism::<F, Vec<F>, CS::Commitment>(
        coeffs_served::<F, CS>(params),
        to_coeffs::<F, CS>(params),
    )
}

/// Folding and committing can be exchanged: the commitments to the columns of a
/// folded trace are the folded commitments to the columns of the traces.
pub proof fn lemma_commit_of_combined<F: PrimeField, CS: PolynomialCommitmentScheme<F>>(
    params: &CS::Parameters,
    coeffs: Seq<int>,
    parts: Seq<ProverModel>,
)
    requires
        is_homomorphic::<F, CS>(params),
        linear::all_alike::<F, FoldingProverTrace<F>>(parts),
        coeffs.len() == parts.len(),
        forall|j: int| 0 <= j < parts.len() ==> served::<F, CS>(params, #[trigger] parts[j]),
    ensures
        committed::<F, CS>(
            params,
            <FoldingProverTrace<F> as Linear<F>>::combined(coeffs, parts),
        ) == <Trace<F, CS::Commitment> as Linear<F>>::combined(
            coeffs,
            map(parts, |m: ProverModel| committed::<F, CS>(params, m)),
        ),
{
    let ok = column_served::<F, CS>(params);
    let f = to_column::<F, CS>(params);
    lemma_homomorphism_on_lists::<F, Vec<F>, CS::Commitment>(ok, f);
    lemma_homomorphism_on_lists::<F, Vec<Vec<F>>, Vec<CS::Commitment>>(of_all(ok), on_list(f));
    lemma_homomorphism_on_lists::<F, Vec<Vec<Vec<F>>>, Vec<Vec<CS::Commitment>>>(
        of_all(of_all(ok)),
        on_list(on_list(f)),
    );
    let t = traces::every_trace(parts);
    let g = |m: ProverModel| committed::<F, CS>(params, m);
    let c = map(parts, g);
    assert forall|j: int| 0 <= j < parts.len() implies <Trace<F, Vec<F>> as Linear<F>>::alike(
        #[trigger] t[j],
        t[0],
    ) by {
        assert(<FoldingProverTrace<F> as Linear<F>>::alike(parts[j], parts[0]));
    }
    let left = committed::<F, CS>(
        params,
        <FoldingProverTrace<F> as Linear<F>>::combined(coeffs, parts),
    );
    let right = <Trace<F, CS::Commitment> as Linear<F>>::combined(coeffs, c);
    assert(left.fixed == right.fixed) by {
        let parts_fixed = traces::all_fixed(t);
        assert forall|j: int| 0 <= j < t.len() implies <Vec<Vec<F>> as Linear<F>>::alike(
            #[trigger] parts_fixed[j],
            parts_fixed[0],
        ) && of_all(ok)(parts_fixed[j]) by {
            assert(<Trace<F, Vec<F>> as Linear<F>>::alike(t[j], t[0]));
            assert(served::<F, CS>(params, parts[j]));
        }
        assert(map(parts_fixed, on_list(f)) =~= traces::all_fixed(c));
    }
    assert(left.advice == right.advice) by {
        let parts_advice = traces::all_advice(t);
        assert forall|j: int| 0 <= j < t.len() implies <Vec<Vec<Vec<F>>> as Linear<F>>::alike(
            #[trigger] parts_advice[j],
            parts_advice[0],
        ) && of_all(of_all(ok))(parts_advice[j]) by {
            assert(<Trace<F, Vec<F>> as Linear<F>>::alike(t[j], t[0]));
            assert(served::<F, CS>(params, parts[j]));
        }
        assert(map(parts_advice, on_list(on_list(f))) =~= traces::all_advice(c));
    }
    assert(left.lookups == right.lookups) by {
        let parts_lookups = traces::all_lookups(t);
        assert forall|j: int| 0 <= j < t.len() implies <Vec<Vec<Vec<Vec<F>>>> as Linear<F>>::alike(
            #[trigger] parts_lookups[j],
            parts_lookups[0],
        ) && of_all(of_all(of_all(ok)))(parts_lookups[j]) by {
            assert(<Trace<F, Vec<F>> as Linear<F>>::alike(t[j], t[0]));
            assert(served::<F, CS>(params, parts[j]));
        }
        assert(map(parts_lookups, on_list(on_list(on_list(f)))) =~= traces::all_lookups(c));
    }
    assert(left.permutations == right.permutations) by {
        let parts_permutations = traces::all_permutations(t);
        assert forall|j: int| 0 <= j < t.len() implies <Vec<Vec<Vec<F>>> as Linear<F>>::alike(
            #[trigger] parts_permutations[j],
            parts_permutations[0],
        ) && of_all(of_all(ok))(parts_permutations[j]) by {
            assert(<Trace<F, Vec<F>> as Linear<F>>::alike(t[j], t[0]));
            assert(served::<F, CS>(params, parts[j]));
        }
        assert(map(parts_permutations, on_list(on_list(f))) =~= traces::all_permutations(c));
    }
    assert(left.trashcans == right.trashcans) by {
        let parts_trashcans = traces::all_trashcans(t);
        assert forall|j: int| 0 <= j < t.len() implies <Vec<Vec<Vec<F>>> as Linear<F>>::alike(
            #[trigger] parts_trashcans[j],
            parts_trashcans[0],
        ) && of_all(of_all(ok))(parts_trashcans[j]) by {
            assert(<Trace<F, Vec<F>> as Linear<F>>::alike(t[j], t[0]));
            assert(served::<F, CS>(params, parts[j]));
        }
        assert(map(parts_trashcans, on_list(on_list(f))) =~= traces::all_trashcans(c));
    }
    assert(left.vanishing == right.vanishing) by {
        let parts_vanishing = traces::all_vanishing(t);
        let h = to_coeffs::<F, CS>(params);
        assert forall|j: int| 0 <= j < t.len() implies <Vec<F> as Linear<F>>::alike(
            #[trigger] parts_vanishing[j],
            parts_vanishing[0],
        ) && coeffs_served::<F, CS>(params)(parts_vanishing[j]) by {
            assert(<Trace<F, Vec<F>> as Linear<F>>::alike(t[j], t[0]));
            assert(served::<F, CS>(params, parts[j]));
        }
        assert(map(parts_vanishing, h) =~= traces::all_vanishing(c));
        assert(h(<Vec<F> as Linear<F>>::combined(coeffs, parts_vanishing)) == left.vanishing);
    }
    assert(traces::all_challenges(t) =~= traces::all_challenges(c));
    assert(traces::all_beta(t) =~= traces::all_beta(c));
    assert(traces::all_gamma(t) =~= traces::all_gamma(c));
    assert(traces::all_theta(t) =~= traces::all_theta(c));
    assert(traces::all_trash_challenge(t) =~= traces::all_trash_challenge(c));
    assert(traces::all_y(t) =~= traces::all_y(c));
    assert(left =~= right);
}

/// Equal images under a map that keeps elements apart come from equal lists.
proof fn lemma_map_keeps_apart<M, N>(a: Seq<M>, b: Seq<M>, f: spec_fn(M) -> N)
    requires
        map(a, f) == map(b, f),
        forall|i: int| 0 <= i < a.len() && f(#[trigger] a[i]) == f(b[i]) ==> a[i] == b[i],
    ensures
        a == b,
{
    assert(map(a, f).len() == a.len());
    assert forall|i: int| 0 <= i < a.len() implies a[i] == b[i] by {
        assert(map(a, f)[i] == f(a[i]));
        assert(map(b, f)[i] == f(b[i]));
    }
    assert(a =~= b);
}

/// Where no two polynomials have the same commitment, no two traces have: equal
/// commitments mean equal columns, each in its place, and equal challenges.
pub proof fn lemma_commitments_bind<F: PrimeField, CS: PolynomialCommitmentScheme<F>>(
    params: &CS::Parameters,
    a: ProverModel,
    b: ProverModel,
)
    requires
        forall|v: Seq<int>, w: Seq<int>|
            #[trigger] CS::of_values(params, v) == #[trigger] CS::of_values(params, w) ==> v == w,
        forall|c: Seq<int>, d: Seq<int>|
            #[trigger] CS::of_coeffs(params, c) == #[trigger] CS::of_coeffs(params, d) ==> c == d,
        committed::<F, CS>(params, a) == committed::<F, CS>(params, b),
    ensures
        a.trace == b.trace,
{
    let f = to_column::<F, CS>(params);
    let g = on_list(f);
    let h = on_list(g);
    assert forall|v: Seq<int>, w: Seq<int>| #[trigger] f(v) == #[trigger] f(w) implies v == w by {
        assert(f(v) == CS::of_values(params, v));
        assert(f(w) == CS::of_values(params, w));
    }
    assert forall|v: Seq<Seq<int>>, w: Seq<Seq<int>>| #[trigger] g(v) == #[trigger] g(w) implies v
        == w by {
        lemma_map_keeps_apart(v, w, f);
    }
    assert forall|v: Seq<Seq<Seq<int>>>, w: Seq<Seq<Seq<int>>>| #[trigger] h(v) == #[trigger] h(
        w,
    ) implies v == w by {
        lemma_map_keeps_apart(v, w, g);
    }
    let (s, t) = (a.trace, b.trace);
    lemma_map_keeps_apart(s.fixed, t.fixed, f);
    lemma_map_keeps_apart(s.advice, t.advice, g);
    lemma_map_keeps_apart(s.lookups, t.lookups, h);
    lemma_map_keeps_apart(s.permutations, t.permutations, g);
    lemma_map_keeps_apart(s.trashcans, t.trashcans, g);
    assert(s =~= t);
}

} // verus!
