//! What the rows of a circuit say about its gates.
use crate::circuit::{self, Expression, Queried, QueriedPolynomials};
use crate::completeness_oneshot;
use crate::constraint_system::{self, ConstraintSystem};
use crate::evaluator::{Evaluator, SelectorsModel};
use crate::field::PrimeField;
use crate::interpolation;
use crate::opening_laws;
use crate::polynomial;
use crate::residues;
use crate::traces::{ProverModel, TraceModel};
use vstd::arithmetic::power2::*;
use vstd::prelude::*;

verus! {

/// Evaluation takes sums to sums, products to products, and what negates or scales
/// to what does so; a constant is its value, and a query what it gives.
pub proof fn lemma_evaluation_is_a_homomorphism<F: PrimeField>(
    a: Box<Expression<F>>,
    b: Box<Expression<F>>,
    c: F,
    i: usize,
    q: Queried,
)
    ensures
        Expression::Sum(a, b).meaning(q) == a.meaning(q) + b.meaning(q),
        Expression::Product(a, b).meaning(q) == a.meaning(q) * b.meaning(q),
        Expression::Negated(a).meaning(q) + a.meaning(q) == 0,
        Expression::Scaled(a, c).meaning(q) == Expression::Product(
            a,
            Box::new(Expression::Constant(c)),
        ).meaning(q),
        Expression::Constant(c).meaning(q) == c.value(),
        Expression::<F>::Fixed(i).meaning(q) == q.fixed[i as int],
        Expression::<F>::Advice(i).meaning(q) == q.advice[i as int],
        Expression::<F>::Instance(i).meaning(q) == q.instance[i as int],
        Expression::<F>::Challenge(i).meaning(q) == q.challenges[i as int],
{
    reveal_with_fuel(Expression::meaning, 3);
}

/// Degrees add up in products, and the greater one counts in sums. What negates or
/// scales keeps them. A query of a column has the degree one, a constant the degree
/// zero, and a challenge has either.
pub proof fn lemma_degrees<F: PrimeField>(
    a: Box<Expression<F>>,
    b: Box<Expression<F>>,
    c: F,
    i: usize,
    challenges: bool,
)
    ensures
        Expression::Product(a, b).degree_of(challenges) == a.degree_of(challenges) + b.degree_of(
            challenges,
        ),
        Expression::Sum(a, b).degree_of(challenges) >= a.degree_of(challenges),
        Expression::Sum(a, b).degree_of(challenges) >= b.degree_of(challenges),
        Expression::Sum(a, b).degree_of(challenges) == a.degree_of(challenges) || Expression::Sum(
            a,
            b,
        ).degree_of(challenges) == b.degree_of(challenges),
        Expression::Negated(a).degree_of(challenges) == a.degree_of(challenges),
        Expression::Scaled(a, c).degree_of(challenges) == a.degree_of(challenges),
        Expression::Constant(c).degree_of(challenges) == 0,
        Expression::<F>::Fixed(i).degree_of(challenges) == 1,
        Expression::<F>::Advice(i).degree_of(challenges) == 1,
        Expression::<F>::Instance(i).degree_of(challenges) == 1,
        Expression::<F>::Challenge(i).degree_of(true) == 1,
        Expression::<F>::Challenge(i).degree_of(false) == 0,
{
    reveal_with_fuel(Expression::degree_of, 2);
}

/// An expression has a value as soon as all its queries and challenges exist.
pub proof fn lemma_within<F: PrimeField>(
    a: Box<Expression<F>>,
    b: Box<Expression<F>>,
    c: F,
    i: usize,
    fixed: nat,
    advice: nat,
    instance: nat,
    challenges: nat,
)
    ensures
        Expression::Sum(a, b).within(fixed, advice, instance, challenges) <==> a.within(
            fixed,
            advice,
            instance,
            challenges,
        ) && b.within(fixed, advice, instance, challenges),
        Expression::Product(a, b).within(fixed, advice, instance, challenges) <==> a.within(
            fixed,
            advice,
            instance,
            challenges,
        ) && b.within(fixed, advice, instance, challenges),
        Expression::Negated(a).within(fixed, advice, instance, challenges) <==> a.within(
            fixed,
            advice,
            instance,
            challenges,
        ),
        Expression::Scaled(a, c).within(fixed, advice, instance, challenges) <==> a.within(
            fixed,
            advice,
            instance,
            challenges,
        ),
        Expression::Constant(c).within(fixed, advice, instance, challenges),
        Expression::<F>::Fixed(i).within(fixed, advice, instance, challenges) <==> i < fixed,
        Expression::<F>::Advice(i).within(fixed, advice, instance, challenges) <==> i < advice,
        Expression::<F>::Instance(i).within(fixed, advice, instance, challenges) <==> i < instance,
        Expression::<F>::Challenge(i).within(fixed, advice, instance, challenges) <==> i
            < challenges,
{
    reveal_with_fuel(Expression::within, 2);
}

/// The polynomials that are constant.
spec fn constants(v: Seq<int>) -> Seq<Seq<int>> {
    Seq::new(v.len(), |i: int| seq![v[i]])
}

proof fn lemma_constants(v: Seq<int>, w: Seq<int>, p: int)
    requires
        p > 0,
        v.len() == w.len(),
        forall|i: int| 0 <= i < v.len() ==> residues::cong(#[trigger] v[i], w[i], p),
    ensures
        circuit::all_take_values(constants(v), w, 0, p),
{
    assert forall|i: int| 0 <= i < v.len() implies residues::cong(
        polynomial::eval(#[trigger] constants(v)[i], 0),
        w[i],
        p,
    ) by {
        let c = constants(v)[i];
        polynomial::lemma_eval_first(c, 0);
        assert(0 * polynomial::eval(c.skip(1), 0) == 0);
        assert(residues::cong(v[i], w[i], p));
    }
}

/// Two lists of values agree up to multiples of `p`.
pub open spec fn congruent(v: Seq<int>, w: Seq<int>, p: int) -> bool {
    &&& v.len() == w.len()
    &&& forall|i: int| 0 <= i < v.len() ==> residues::cong(#[trigger] v[i], w[i], p)
}

/// The value of an expression depends on the residues of what its queries give, and
/// on nothing else.
pub proof fn lemma_meaning_of_residues<F: PrimeField>(e: Expression<F>, v: Queried, w: Queried)
    requires
        e.within(v.fixed.len(), v.advice.len(), v.instance.len(), v.challenges.len()),
        congruent(v.fixed, w.fixed, F::modulus()),
        congruent(v.advice, w.advice, F::modulus()),
        congruent(v.instance, w.instance, F::modulus()),
        congruent(v.challenges, w.challenges, F::modulus()),
    ensures
        residues::cong(e.meaning(v), e.meaning(w), F::modulus()),
{
    F::lemma_field();
    let p = F::modulus();
    let q = QueriedPolynomials {
        fixed: constants(v.fixed),
        advice: constants(v.advice),
        instance: constants(v.instance),
        challenges: constants(v.challenges),
    };
    lemma_constants(v.fixed, v.fixed, p);
    lemma_constants(v.advice, v.advice, p);
    lemma_constants(v.instance, v.instance, p);
    lemma_constants(v.challenges, v.challenges, p);
    lemma_constants(v.fixed, w.fixed, p);
    lemma_constants(v.advice, w.advice, p);
    lemma_constants(v.instance, w.instance, p);
    lemma_constants(v.challenges, w.challenges, p);
    e.lemma_polynomial_eval(q, v, 0);
    e.lemma_polynomial_eval(q, w, 0);
}

/// What the queries of columns open to at `x`.
pub open spec fn opened<F: PrimeField>(
    k: nat,
    columns: Seq<Seq<int>>,
    queries: Seq<(usize, i32)>,
    x: int,
) -> Seq<int> {
    Seq::new(
        queries.len(),
        |q: int| completeness_oneshot::query_eval::<F>(k, columns, queries[q], x),
    )
}

proof fn lemma_opened<F: PrimeField>(
    k: nat,
    columns: Seq<Seq<int>>,
    queries: Seq<(usize, i32)>,
    row: nat,
)
    requires
        k <= F::two_adicity(),
        constraint_system::have_queried(columns, queries, k),
        row < pow2(k),
    ensures
        congruent(
            constraint_system::queried_in_row(columns, queries, k, row as int),
            opened::<F>(k, columns, queries, interpolation::point::<F>(k, row)),
            F::modulus(),
        ),
{
    F::lemma_field();
    let p = F::modulus();
    let v = constraint_system::queried_in_row(columns, queries, k, row as int);
    let w = opened::<F>(k, columns, queries, interpolation::point::<F>(k, row));
    assert forall|q: int| 0 <= q < v.len() implies residues::cong(#[trigger] v[q], w[q], p) by {
        opening_laws::lemma_query_reads_what_it_opens_to::<F>(columns, queries, k, row, q);
        residues::lemma_mod_cong(v[q], p);
    }
}

/// The value of a row is that of the gates, joined by the challenges `y`, on what
/// the openings give at the point of the row: what the prover computes row by row,
/// the verifier computes from openings.
pub proof fn lemma_row_is_gates_on_openings<F: PrimeField>(
    cs: &ConstraintSystem<F>,
    k: nat,
    s: SelectorsModel,
    m: ProverModel,
    row: nat,
)
    requires
        k <= F::two_adicity(),
        cs.accepts(k, s, m),
        row < pow2(k),
    ensures
        ({
            let x = interpolation::point::<F>(k, row);
            let v = Queried {
                fixed: opened::<F>(k, m.trace.fixed, cs.fixed_queries@, x),
                advice: opened::<F>(k, m.trace.advice[0], cs.advice_queries@, x),
                instance: opened::<F>(k, m.instance_values[0], cs.instance_queries@, x),
                challenges: m.trace.challenges,
            };
            residues::cong(
                cs.h(k, s, m)[row as int],
                residues::sum(
                    cs.gates@.len(),
                    |g: int| m.trace.y[g] * cs.gates@[g].meaning(v),
                ),
                F::modulus(),
            )
        }),
{
    F::lemma_field();
    let p = F::modulus();
    let x = interpolation::point::<F>(k, row);
    let v = Queried {
        fixed: opened::<F>(k, m.trace.fixed, cs.fixed_queries@, x),
        advice: opened::<F>(k, m.trace.advice[0], cs.advice_queries@, x),
        instance: opened::<F>(k, m.instance_values[0], cs.instance_queries@, x),
        challenges: m.trace.challenges,
    };
    let u = cs.queried(k, m, row as int);
    lemma_opened::<F>(k, m.trace.fixed, cs.fixed_queries@, row);
    lemma_opened::<F>(k, m.trace.advice[0], cs.advice_queries@, row);
    lemma_opened::<F>(k, m.instance_values[0], cs.instance_queries@, row);
    let f = |g: int| m.trace.y[g] * cs.gates@[g].meaning(u);
    let e = |g: int| m.trace.y[g] * cs.gates@[g].meaning(v);
    assert forall|g: int| 0 <= g < cs.gates@.len() implies residues::cong(
        #[trigger] f(g),
        e(g),
        p,
    ) by {
        lemma_meaning_of_residues(cs.gates@[g], u, v);
        residues::lemma_cong_ops(
            m.trace.y[g],
            m.trace.y[g],
            cs.gates@[g].meaning(u),
            cs.gates@[g].meaning(v),
            p,
        );
    }
    residues::lemma_sum_cong(cs.gates@.len(), f, e, p);
    residues::lemma_sum_eq(
        cs.gates@.len(),
        e,
        |g: int| m.trace.y[g] * cs.gates@[g].meaning(v),
    );
    residues::lemma_sum_eq(
        cs.gates@.len(),
        f,
        |g: int| m.trace.y[g] * cs.gates@[g].meaning(cs.queried(k, m, row as int)),
    );
    residues::lemma_mod_cong(residues::sum(cs.gates@.len(), f), p);
}

/// No gate is left out: with the challenge one for a gate and zero for others, the
/// value of a row is that of this one.
pub proof fn lemma_no_gate_is_left_out<F: PrimeField>(
    cs: &ConstraintSystem<F>,
    k: nat,
    s: SelectorsModel,
    m: ProverModel,
    row: int,
    gate: int,
)
    requires
        0 <= row < pow2(k),
        0 <= gate < cs.gates@.len(),
        m.trace.y.len() >= cs.gates@.len(),
        forall|g: int|
            0 <= g < cs.gates@.len() ==> #[trigger] m.trace.y[g] == if g == gate {
                1int
            } else {
                0
            },
    ensures
        cs.h(k, s, m)[row] == cs.gates@[gate].meaning(cs.queried(k, m, row)) % F::modulus(),
{
    F::lemma_field();
    let p = F::modulus();
    let u = cs.queried(k, m, row);
    let f = |g: int| m.trace.y[g] * cs.gates@[g].meaning(u);
    assert forall|g: int| 0 <= g < cs.gates@.len() && g != gate implies residues::cong(
        #[trigger] f(g),
        0,
        p,
    ) by {
        assert(m.trace.y[g] == 0);
        assert(0 * cs.gates@[g].meaning(u) == 0);
    }
    residues::lemma_sum_single(cs.gates@.len(), f, gate, p);
    assert(m.trace.y[gate] == 1);
    assert(1 * cs.gates@[gate].meaning(u) == cs.gates@[gate].meaning(u));
    residues::lemma_sum_eq(
        cs.gates@.len(),
        f,
        |g: int| m.trace.y[g] * cs.gates@[g].meaning(cs.queried(k, m, row)),
    );
}

/// The value of a row is linear in the challenges that join the gates.
pub proof fn lemma_rows_are_linear_in_y<F: PrimeField>(
    cs: &ConstraintSystem<F>,
    k: nat,
    s: SelectorsModel,
    m: ProverModel,
    y: Seq<int>,
    z: Seq<int>,
    c: int,
    row: int,
)
    requires
        0 <= row < pow2(k),
        y.len() == cs.gates@.len(),
        z.len() == y.len(),
    ensures
        ({
            let with = |y: Seq<int>|
                ProverModel { trace: TraceModel { y, ..m.trace }, ..m };
            residues::cong(
                cs.h(
                    k,
                    s,
                    with(Seq::new(y.len(), |g: int| y[g] + c * z[g])),
                )[row],
                cs.h(k, s, with(y))[row] + c * cs.h(k, s, with(z))[row],
                F::modulus(),
            )
        }),
{
    F::lemma_field();
    let p = F::modulus();
    let n = cs.gates@.len();
    let with = |y: Seq<int>| ProverModel { trace: TraceModel { y, ..m.trace }, ..m };
    let both = Seq::new(y.len(), |g: int| y[g] + c * z[g]);
    let u = cs.queried(k, m, row);
    assert(cs.queried(k, with(y), row) == u);
    assert(cs.queried(k, with(z), row) == u);
    assert(cs.queried(k, with(both), row) == u);
    let of = |y: Seq<int>| (|g: int| y[g] * cs.gates@[g].meaning(u));
    let scaled = |g: int| c * of(z)(g);
    let sums = |g: int| of(y)(g) + scaled(g);
    assert forall|g: int| 0 <= g < n implies #[trigger] of(both)(g) == sums(g) by {
        let (a, b, t) = (y[g], z[g], cs.gates@[g].meaning(u));
        assert((a + c * b) * t == a * t + c * (b * t)) by (nonlinear_arith);
    }
    residues::lemma_sum_eq(n, of(both), sums);
    residues::lemma_sum_add(n, of(y), scaled);
    residues::lemma_sum_scale(n, of(z), c);
    lemma_row_value(cs, k, s, with(y), u, row);
    lemma_row_value(cs, k, s, with(z), u, row);
    lemma_row_value(cs, k, s, with(both), u, row);
    residues::lemma_sum_eq(n, of(y), |g: int| with(y).trace.y[g] * cs.gates@[g].meaning(u));
    residues::lemma_sum_eq(n, of(z), |g: int| with(z).trace.y[g] * cs.gates@[g].meaning(u));
    residues::lemma_sum_eq(n, of(both), |g: int| with(both).trace.y[g] * cs.gates@[g].meaning(u));
    let (a, b) = (residues::sum(n, of(y)), residues::sum(n, of(z)));
    residues::lemma_mod_cong(a, p);
    residues::lemma_mod_cong(b, p);
    residues::lemma_cong_ops(c, c, b % p, b, p);
    residues::lemma_cong_ops(a % p, a, c * (b % p), c * b, p);
    residues::lemma_mod_cong(a + c * b, p);
}

proof fn lemma_row_value<F: PrimeField>(
    cs: &ConstraintSystem<F>,
    k: nat,
    s: SelectorsModel,
    m: ProverModel,
    u: Queried,
    row: int,
)
    requires
        0 <= row < pow2(k),
        u == cs.queried(k, m, row),
    ensures
        cs.h(k, s, m)[row] == residues::sum(
            cs.gates@.len(),
            |g: int| m.trace.y[g] * cs.gates@[g].meaning(u),
        ) % F::modulus(),
{
    residues::lemma_sum_eq(
        cs.gates@.len(),
        |g: int| m.trace.y[g] * cs.gates@[g].meaning(u),
        |g: int| m.trace.y[g] * cs.gates@[g].meaning(cs.queried(k, m, row)),
    );
}

/// The degree of a circuit is the greatest of its gates, which one of them has; for
/// folding, where the challenges count too, it is two more.
pub proof fn lemma_degree_is_greatest<F: PrimeField>(cs: &ConstraintSystem<F>)
    ensures
        forall|g: int|
            0 <= g < cs.gates@.len() ==> {
                &&& (#[trigger] cs.gates@[g]).degree_of(false) <= cs.degree_of()
                &&& cs.gates@[g].degree_of(true) + 2 <= cs.folding_degree_of()
            },
        cs.gates@.len() == 0 ==> cs.degree_of() == 0 && cs.folding_degree_of() == 2,
        cs.gates@.len() > 0 ==> {
            &&& exists|g: int|
                0 <= g < cs.gates@.len() && (#[trigger] cs.gates@[g]).degree_of(false)
                    == cs.degree_of()
            &&& exists|g: int|
                0 <= g < cs.gates@.len() && (#[trigger] cs.gates@[g]).degree_of(true) + 2
                    == cs.folding_degree_of()
        },
{
    lemma_greatest_degree(cs.gates@, false, cs.gates@.len());
    lemma_greatest_degree(cs.gates@, true, cs.gates@.len());
}

proof fn lemma_greatest_degree<F: PrimeField>(
    gates: Seq<Expression<F>>,
    challenges: bool,
    n: nat,
)
    requires
        n <= gates.len(),
    ensures
        ({
            let d = constraint_system::max_degree(gates, challenges, n);
            &&& n == 0 ==> d == 0
            &&& forall|g: int| 0 <= g < n ==> (#[trigger] gates[g]).degree_of(challenges) <= d
            &&& n > 0 ==> exists|g: int|
                0 <= g < n && (#[trigger] gates[g]).degree_of(challenges) == d
        }),
    decreases n,
{
    if n > 0 {
        let m = (n - 1) as nat;
        lemma_greatest_degree(gates, challenges, m);
        let last = gates[n - 1];
    }
}

/// A circuit accepts every trace that has what it reads: columns of all rows, as many
/// as are queried, a challenge for each gate, and what the gates read.
pub proof fn lemma_accepts_what_it_can_read<F: PrimeField>(
    cs: &ConstraintSystem<F>,
    k: nat,
    s: SelectorsModel,
    m: ProverModel,
)
    requires
        m.trace.advice.len() > 0,
        m.instance_values.len() > 0,
        forall|c: int|
            0 <= c < m.trace.fixed.len() ==> (#[trigger] m.trace.fixed[c]).len() == pow2(k),
        forall|c: int|
            0 <= c < m.trace.advice[0].len() ==> (#[trigger] m.trace.advice[0][c]).len() == pow2(k),
        forall|c: int|
            0 <= c < m.instance_values[0].len() ==> (#[trigger] m.instance_values[0][c]).len()
                == pow2(k),
        forall|q: int|
            0 <= q < cs.fixed_queries@.len() ==> (#[trigger] cs.fixed_queries@[q]).0
                < m.trace.fixed.len(),
        forall|q: int|
            0 <= q < cs.advice_queries@.len() ==> (#[trigger] cs.advice_queries@[q]).0
                < m.trace.advice[0].len(),
        forall|q: int|
            0 <= q < cs.instance_queries@.len() ==> (#[trigger] cs.instance_queries@[q]).0
                < m.instance_values[0].len(),
        cs.gates@.len() <= m.trace.y.len(),
        forall|g: int|
            0 <= g < cs.gates@.len() ==> (#[trigger] cs.gates@[g]).within(
                cs.fixed_queries@.len(),
                cs.advice_queries@.len(),
                cs.instance_queries@.len(),
                m.trace.challenges.len(),
            ),
    ensures
        cs.accepts(k, s, m),
{
}

} // verus!
