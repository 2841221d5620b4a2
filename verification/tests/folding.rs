//! Folding of the traces of circuits, with prover and verifier.
use protogalaxy::circuit::Expression;
use protogalaxy::constraint_system::ConstraintSystem;
use protogalaxy::domain::EvaluationDomain;
use protogalaxy::error::Error;
use protogalaxy::evaluator::{Evaluator, FoldingPk, Selectors};
use protogalaxy::field::PrimeField;
use protogalaxy::folding_prover::ProtogalaxyProver;
use protogalaxy::folding_verifier::{self, ProtogalaxyVerifier};
use protogalaxy::goldilocks::Goldilocks;
use protogalaxy::linear::Linear;
use protogalaxy::point_scheme::{PointParameters, PointScheme};
use protogalaxy::polynomial::eval_polynomial;
use protogalaxy::prover_oneshot::{
    self, OneShotFolding, ProtogalaxyProverOneShot, ProverQuery,
};
use protogalaxy::traces::{FoldingProverTrace, Trace, VerifierFoldingTrace};
use protogalaxy::transcript::{Item, ScriptedTranscript, Transcript};
use protogalaxy::verifier_oneshot::{
    self, FinalEvals, OneShotOpening, ProtogalaxyVerifierOneShot, VerifierQuery,
};
use rand_chacha::rand_core::{RngCore, SeedableRng};
use rand_chacha::ChaCha8Rng;

type G = Goldilocks;

fn g(v: u64) -> G {
    Goldilocks::from(v)
}

type Prover<const K: usize> = ProtogalaxyProver<G, PointScheme, ConstraintSystem<G>, K>;
type Verifier<const K: usize> = ProtogalaxyVerifier<G, PointScheme, K>;
type ProverOneShot<const K: usize> = ProtogalaxyProverOneShot<G, PointScheme, K>;
type VerifierOneShot<const K: usize> = ProtogalaxyVerifierOneShot<G, PointScheme, K>;
type Script = ScriptedTranscript<G, G>;

fn boxed(e: Expression<G>) -> Box<Expression<G>> {
    Box::new(e)
}

fn minus(a: Expression<G>, b: Expression<G>) -> Expression<G> {
    Expression::Sum(boxed(a), boxed(Expression::Negated(boxed(b))))
}

fn times(a: Expression<G>, b: Expression<G>) -> Expression<G> {
    Expression::Product(boxed(a), boxed(b))
}

/// The circuit with the gates q (`product` - c) and q (d - t^2 a), where t is a
/// challenge by which a is compressed, as for a lookup.
fn circuit_of(product: Expression<G>) -> ConstraintSystem<G> {
    let square = times(Expression::Challenge(0), Expression::Challenge(0));
    let compressed = times(square, Expression::Advice(0));
    ConstraintSystem {
        gates: vec![
            times(Expression::Fixed(0), minus(product, Expression::Advice(2))),
            times(Expression::Fixed(0), minus(Expression::Advice(3), compressed)),
        ],
        fixed_queries: vec![(0, 0)],
        advice_queries: vec![(0, 0), (1, 0), (2, 0), (3, 0)],
        instance_queries: vec![],
    }
}

/// The circuit of products a b.
fn mul_circuit() -> ConstraintSystem<G> {
    circuit_of(times(Expression::Advice(0), Expression::Advice(1)))
}

/// The same, with a further gate s (a - i), where i is an instance.
fn mul_circuit_with_instance() -> ConstraintSystem<G> {
    let mut cs = mul_circuit();
    cs.gates.push(times(
        Expression::Fixed(1),
        minus(Expression::Advice(0), Expression::Instance(0)),
    ));
    cs.fixed_queries.push((1, 0));
    cs.instance_queries.push((0, 0));
    cs
}

/// The circuit of products a a b b.
fn fourth_power_circuit() -> ConstraintSystem<G> {
    let a2 = times(Expression::Advice(0), Expression::Advice(0));
    let b2 = times(Expression::Advice(1), Expression::Advice(1));
    circuit_of(times(a2, b2))
}

fn pk(k: u32, ev: ConstraintSystem<G>) -> FoldingPk<G, ConstraintSystem<G>> {
    FoldingPk {
        domain: EvaluationDomain::new(4, k),
        ev,
        selectors: Selectors {
            l0: vec![],
            l_last: vec![],
            l_active_row: vec![],
            permutation_pk_cosets: vec![],
        },
    }
}

fn params(k: u32) -> PointParameters<G> {
    PointParameters { point: g(987654321987654321), domain: EvaluationDomain::new(2, k) }
}

/// The trace of a witness: a and b are the witness, c is `result` of it.
fn trace(
    k: u32,
    witness: &[u64],
    result: fn(G) -> G,
    instance: Option<u64>,
    seed: u64,
) -> FoldingProverTrace<G> {
    let n = 1usize << k;
    let mut q = vec![g(0); n];
    let mut a = vec![g(0); n];
    let mut c = vec![g(0); n];
    let mut d = vec![g(0); n];
    let challenge = g(seed + 9);
    for (i, w) in witness.iter().enumerate() {
        q[i] = g(1);
        a[i] = g(*w);
        c[i] = result(g(*w));
        d[i] = square(challenge).mul(&g(*w));
    }
    let mut fixed = vec![q];
    let mut instances = vec![];
    if let Some(public) = instance {
        let mut s = vec![g(0); n];
        s[0] = g(1);
        fixed.push(s);
        let mut column = vec![g(0); n];
        column[0] = g(public);
        instances.push(column);
    }
    FoldingProverTrace {
        trace: Trace {
            fixed,
            advice: vec![vec![a.clone(), a, c, d]],
            vanishing: vec![g(seed + 1), g(seed + 2)],
            lookups: vec![vec![]],
            permutations: vec![vec![]],
            trashcans: vec![vec![]],
            challenges: vec![challenge],
            beta: g(seed + 3),
            gamma: g(seed + 4),
            theta: vec![g(seed + 5)],
            trash_challenge: g(seed + 6),
            y: vec![g(seed + 7), g(seed + 8), g(seed + 10)],
        },
        instance_polys: vec![vec![]],
        instance_values: vec![instances],
    }
}

fn square(v: G) -> G {
    v.mul(&v)
}

fn fourth_power(v: G) -> G {
    square(square(v))
}

fn commitments(
    params: &PointParameters<G>,
    traces: &[FoldingProverTrace<G>],
) -> Vec<VerifierFoldingTrace<G, G>> {
    traces.iter().map(|t| t.commit::<PointScheme>(params)).collect()
}

fn challenges() -> Vec<G> {
    vec![g(1111111111111), g(2222222222222222), g(333333333333333333)]
}

fn bytes(rng: &mut ChaCha8Rng) -> Vec<u64> {
    let mut bytes = [0u8; 1 << 8];
    rng.fill_bytes(&mut bytes);
    bytes.iter().map(|byte| *byte as u64 + 1).collect()
}

/// Folds with prover and verifier, and has the verifier check the folded trace.
fn fold_and_check<const K: usize>(
    k: u32,
    circuit: fn() -> ConstraintSystem<G>,
    mut traces: Vec<FoldingProverTrace<G>>,
) -> (Prover<K>, Verifier<K>, Result<(), Error>) {
    let params = params(k);
    let mut committed = commitments(&params, &traces);
    let degree = circuit().degree();
    let rest = traces.split_off(1);
    let prover = Prover::<K>::init(pk(k, circuit()), traces.remove(0));
    let mut transcript = Script::new(challenges(), vec![]);
    let prover = match prover.fold(&params, rest, &mut transcript) {
        Ok(prover) => prover,
        Err(e) => panic!("the prover failed: {:?}", e),
    };

    let rest = committed.split_off(1);
    let verifier = Verifier::<K>::init(committed.remove(0));
    let mut transcript = Script::new(challenges(), transcript.finalize());
    let verifier = match verifier.fold(degree, rest, &mut transcript) {
        Ok(verifier) => verifier,
        Err(e) => panic!("the verifier failed: {:?}", e),
    };
    assert!(verifier.has_commitments(&params, &prover.folded_trace));
    let result = verifier.is_sat(
        &params,
        &prover.folding_pk.domain,
        &prover.folding_pk.ev,
        &prover.folded_trace,
        &prover.folding_pk.selectors,
    );
    (prover, verifier, result)
}

#[test]
fn folding_test() {
    const K: usize = 14;
    let k = 4; // number of folding instances

    let mut rng = ChaCha8Rng::from_seed([0u8; 32]);
    let witness = bytes(&mut rng);
    let traces =
        (0..k).map(|i| trace(K as u32, &witness, square, None, 100 * i)).collect::<Vec<_>>();

    let (prover, verifier, result) = fold_and_check::<K>(K as u32, mul_circuit, traces);
    assert_eq!(result, Ok(()));
    assert_eq!(prover.error, verifier.error_term);
    assert_eq!(prover.beta, verifier.beta_powers);
}

#[test]
fn folding_test_with_instance() {
    const K: usize = 14;
    let k = 4; // number of folding instances

    let mut rng = ChaCha8Rng::from_seed([0u8; 32]);
    let mut rand_bytes = [0u8; 1 << 8];
    rng.fill_bytes(&mut rand_bytes);

    let traces = (0..k)
        .map(|i| {
            let witness = bytes(&mut rng);
            trace(K as u32, &witness, square, Some(witness[0]), 100 * i)
        })
        .collect::<Vec<_>>();
    let first = traces[0].instance_values[0][0][0];
    assert!(traces.iter().any(|t| t.instance_values[0][0][0] != first));

    let (prover, verifier, result) =
        fold_and_check::<K>(K as u32, mul_circuit_with_instance, traces);
    assert_eq!(result, Ok(()));
    assert_eq!(prover.error, verifier.error_term);
    // The instances are folded as all else is.
    assert!(prover.folded_trace.instance_values[0][0][0] != g(0));
}

/// Traces of three rows that satisfy the circuit of products.
fn small_traces(count: u64) -> Vec<FoldingProverTrace<G>> {
    (0..count)
        .map(|i| trace(3, &[i + 2, 3 * i + 1, 7 * i + 5], square, None, 10 * i))
        .collect()
}

#[test]
fn prover_starts_with_ones_and_no_error() {
    let prover = Prover::<3>::init(pk(3, mul_circuit()), small_traces(1).remove(0));
    assert_eq!(prover.beta, [g(1), g(1), g(1)]);
    assert_eq!(prover.error, g(0));
    let committed = commitments(&params(3), &small_traces(1)).remove(0);
    let verifier = Verifier::<3>::init(committed);
    assert_eq!(verifier.beta_powers, [g(1), g(1), g(1)]);
    assert_eq!(verifier.error_term, g(0));
}

#[test]
fn rows_are_the_gates_joined_by_challenges() {
    let mut t = trace(2, &[5, 6], square, Some(9), 0);
    t.trace.y = vec![g(10), g(7), g(100)];
    t.trace.advice[0][2][1] = g(30);
    let prover = Prover::<2>::init(pk(2, mul_circuit_with_instance()), t);
    // Row 0: 10 (5 * 5 - 25) + 100 (5 - 9); row 1: 10 (6 * 6 - 30).
    let h = prover.compute_h(&prover.folded_trace);
    assert_eq!(h, vec![g(0).sub(&g(400)), g(60), g(0), g(0)]);
    // Joined with the products 2, 3 and 2 * 3 of the challenges 2 and 3.
    let e = prover.compute_error(&prover.folded_trace, &[g(2), g(3)]);
    assert_eq!(e, g(0).sub(&g(620)));
}

#[test]
fn rotated_queries_wrap() {
    // One gate, a(next) - a.
    let cs = ConstraintSystem {
        gates: vec![minus(Expression::Advice(1), Expression::Advice(0))],
        fixed_queries: vec![],
        advice_queries: vec![(0, 0), (0, 1), (0, -1)],
        instance_queries: vec![],
    };
    let mut t = trace(2, &[1, 10, 100, 1000], square, None, 0);
    t.trace.y = vec![g(1)];
    let key = pk(2, cs);
    assert_eq!(
        key.compute_h(&t),
        vec![g(9), g(90), g(900), g(0).sub(&g(999))]
    );
}

#[test]
fn degrees_of_circuits() {
    assert_eq!(mul_circuit().degree(), 3);
    // Four factors, the challenge that joins the gates, and one more.
    assert_eq!(mul_circuit().folding_degree(), 6);
    assert_eq!(fourth_power_circuit().degree(), 5);
    let e = times(Expression::Challenge(0), Expression::Scaled(boxed(Expression::Advice(0)), g(3)));
    assert_eq!(e.degree(true), 2);
    assert_eq!(e.degree(false), 1);
    assert_eq!(e.evaluate(&vec![], &vec![g(5)], &vec![], &vec![g(7)]), g(105));
    let c: Expression<G> = Expression::Constant(g(4));
    assert_eq!(c.degree(true), 0);
    assert_eq!(c.evaluate(&vec![], &vec![], &vec![], &vec![]), g(4));
}

#[test]
fn honest_folding_is_accepted() {
    for count in [2, 4, 8] {
        let (prover, verifier, result) =
            fold_and_check::<3>(3, mul_circuit, small_traces(count));
        assert_eq!(result, Ok(()));
        assert_eq!(prover.error, verifier.error_term);
        assert!(prover
            .folded_trace
            .commit::<PointScheme>(&params(3))
            .same(&verifier.verifier_folding_trace));
        // The error is by how much the folded trace misses the circuit.
        let e = prover.compute_error(&prover.folded_trace, &prover.beta);
        assert_eq!(e, prover.error);
    }
}

#[test]
fn one_satisfied_trace_alone_is_refused() {
    // A trace that satisfies the circuit has no error, for which nothing is sent.
    let mut transcript = Script::new(challenges(), vec![]);
    let prover = Prover::<3>::init(pk(3, mul_circuit()), small_traces(1).remove(0));
    let result = prover.fold(&params(3), vec![], &mut transcript);
    assert!(matches!(result, Err(Error::ZeroEvaluation)));
}

#[test]
fn prover_refuses_traces_that_miss_the_circuit() {
    let mut traces = small_traces(2);
    traces[1].trace.advice[0][2][0] = g(5);
    let rest = traces.split_off(1);
    let prover = Prover::<3>::init(pk(3, mul_circuit()), traces.remove(0));
    let mut transcript = Script::new(challenges(), vec![]);
    let result = prover.fold(&params(3), rest, &mut transcript);
    assert!(matches!(result, Err(Error::Quotient)));
}

#[test]
fn prover_refuses_a_zero_evaluation() {
    let blank = |i| trace(3, &[], square, None, i);
    let prover = Prover::<3>::init(pk(3, mul_circuit()), blank(1));
    let mut transcript = Script::new(challenges(), vec![]);
    let result = prover.fold(&params(3), vec![blank(2)], &mut transcript);
    assert!(matches!(result, Err(Error::ZeroEvaluation)));
}

#[test]
fn prover_refuses_an_error_that_does_not_vanish() {
    let (prover, _, _) = fold_and_check::<3>(3, mul_circuit, small_traces(2));
    assert!(prover.error != g(0));
    // The error polynomial starts with the error.
    let f = prover.compute_f(&[g(3), g(9), g(81)]);
    assert_eq!(f.len(), 4);
    assert_eq!(f[0], prover.error);
    // It tells the error with the challenges moved.
    let x = g(12);
    let moved = [
        prover.beta[0].add(&x.mul(&g(3))),
        prover.beta[1].add(&x.mul(&g(9))),
        prover.beta[2].add(&x.mul(&g(81))),
    ];
    let e = prover.compute_error(&prover.folded_trace, &moved);
    assert_eq!(eval_polynomial(&f, &x), e);

    let mut transcript = Script::new(challenges(), vec![]);
    let result = prover.fold(&params(3), small_traces(1), &mut transcript);
    assert!(matches!(result, Err(Error::ErrorEvaluation)));
}

#[test]
fn prover_refuses_an_error_polynomial_with_too_few_points() {
    // With two challenges there are two points only, so that the product of both
    // challenges, which belongs to the third row, is not told from a constant.
    let traces = (0..2)
        .map(|i| trace(2, &[i + 2, i + 5, 3 * i + 4, i + 9], square, None, 10 * i))
        .collect();
    let (prover, _, result) = fold_and_check::<2>(2, mul_circuit, traces);
    assert_eq!(result, Ok(()));
    assert!(prover.error != g(0));
    let mut transcript = Script::new(challenges(), vec![]);
    let result = prover.fold(&params(2), vec![trace(2, &[2], square, None, 7)], &mut transcript);
    assert!(matches!(result, Err(Error::ErrorTerm)));
}

#[test]
fn error_polynomial_of_zero_is_zero() {
    let prover = Prover::<5>::init(pk(3, mul_circuit()), small_traces(1).remove(0));
    let f = prover.compute_f(&[g(1), g(2), g(3), g(4), g(5)]);
    assert_eq!(f, vec![g(0); 8]);
}

#[test]
fn verifier_refuses_another_quotient() {
    let mut traces = small_traces(4);
    let params = params(3);
    let mut committed = commitments(&params, &traces);
    let rest = traces.split_off(1);
    let prover = Prover::<3>::init(pk(3, mul_circuit()), traces.remove(0));
    let mut transcript = Script::new(challenges(), vec![]);
    let prover = match prover.fold(&params, rest, &mut transcript) {
        Ok(prover) => prover,
        Err(e) => panic!("the prover failed: {:?}", e),
    };
    let mut items = transcript.finalize();
    assert_eq!(items.len(), 4);
    assert!(matches!(&items[1], Item::Scalar(v) if v.residue() == 0));
    if let Some(Item::Scalar(v)) = items.pop() {
        items.push(Item::Scalar(v.add(&g(1))));
    }
    let rest = committed.split_off(1);
    let verifier = Verifier::<3>::init(committed.remove(0));
    let mut transcript = Script::new(challenges(), items);
    let verifier = match verifier.fold(3, rest, &mut transcript) {
        Ok(verifier) => verifier,
        Err(e) => panic!("the verifier failed: {:?}", e),
    };
    assert!(verifier.error_term != prover.error);
    assert!(verifier.has_commitments(&params, &prover.folded_trace));
    let result = verifier.is_sat(
        &params,
        &prover.folding_pk.domain,
        &prover.folding_pk.ev,
        &prover.folded_trace,
        &prover.folding_pk.selectors,
    );
    assert_eq!(result, Err(Error::Opening));
}

#[test]
fn verifier_is_bound_to_each_value_that_it_reads() {
    let dk: EvaluationDomain<G> = EvaluationDomain::new(2, 2);
    let gamma = g(424242);
    let term = |f: u64, k: u64| {
        folding_verifier::next_error_term(&dk, &g(10), &g(f), &gamma, &g(k))
    };
    assert!(term(4, 6) != term(5, 6));
    assert!(term(4, 6) != term(4, 7));
    assert_eq!(term(4, 6), term(4, 6));
}

#[test]
fn rows_do_not_read_the_instance_polynomials() {
    let key = pk(2, mul_circuit_with_instance());
    let t = trace(2, &[5, 6], square, Some(9), 0);
    let mut other = trace(2, &[5, 6], square, Some(9), 0);
    other.instance_polys = vec![vec![vec![g(1), g(2)]]];
    other.trace.vanishing = vec![g(1000)];
    assert_eq!(key.compute_h(&t), key.compute_h(&other));
    // Public inputs enter through the values.
    other.instance_values[0][0][0] = g(5);
    assert!(key.compute_h(&t) != key.compute_h(&other));
}

#[test]
fn verifier_refuses_another_witness() {
    let (mut prover, verifier, result) = fold_and_check::<3>(3, mul_circuit, small_traces(4));
    assert_eq!(result, Ok(()));
    assert!(verifier.has_commitments(&params(3), &prover.folded_trace));
    prover.folded_trace.trace.advice[0][0][1] = g(77);
    assert!(!verifier.has_commitments(&params(3), &prover.folded_trace));
}

#[test]
fn verifier_refuses_a_short_transcript() {
    let params = params(3);
    let mut committed = commitments(&params, &small_traces(2));
    let rest = committed.split_off(1);
    let verifier = Verifier::<3>::init(committed.remove(0));
    let items = vec![Item::Commitment(g(1)), Item::Scalar(g(0))];
    let mut transcript = Script::new(challenges(), items);
    assert!(matches!(verifier.fold(3, rest, &mut transcript), Err(Error::Transcript)));

    // A scalar where a commitment is due.
    let mut committed = commitments(&params, &small_traces(2));
    let rest = committed.split_off(1);
    let verifier = Verifier::<3>::init(committed.remove(0));
    let mut transcript = Script::new(challenges(), vec![Item::Scalar(g(1))]);
    assert!(matches!(verifier.fold(3, rest, &mut transcript), Err(Error::Transcript)));
}

#[test]
fn verifier_computes_the_error_term() {
    // Two traces: L_0(X) = (1 + X) / 2 and Z(X) = X^2 - 1.
    let params = params(3);
    let mut committed = commitments(&params, &small_traces(2));
    let rest = committed.split_off(1);
    let mut verifier = Verifier::<3>::init(committed.remove(0));
    verifier.error_term = g(10);
    let items = vec![
        Item::Commitment(g(0)),
        Item::Scalar(g(4)),
        Item::Commitment(g(0)),
        Item::Scalar(g(6)),
    ];
    let mut transcript = Script::new(vec![g(2), g(3), g(5)], items);
    let verifier = match verifier.fold(3, rest, &mut transcript) {
        Ok(verifier) => verifier,
        Err(e) => panic!("the verifier failed: {:?}", e),
    };
    // (10 + 4) * 3 + 24 * 6.
    assert_eq!(verifier.error_term, g(186));
    // 1 + 3 * 2, 1 + 3 * 4, 1 + 3 * 16.
    assert_eq!(verifier.beta_powers, [g(7), g(13), g(49)]);
}

#[test]
fn folding_at_a_point_of_the_domain_gives_the_trace_of_the_point() {
    let traces = small_traces(4);
    let domain: EvaluationDomain<G> = EvaluationDomain::new(2, 2);
    let refs = traces.iter().collect::<Vec<_>>();
    let mut x = g(1);
    for t in traces.iter() {
        let folded = Prover::<3>::fold_traces(&domain, &refs, &x);
        assert!(folded.same(t));
        x = x.mul(&domain.omega);
    }
}

#[test]
fn copies_fold_to_themselves() {
    let t = small_traces(3).remove(2);
    let domain: EvaluationDomain<G> = EvaluationDomain::new(2, 2);
    let folded = Prover::<3>::fold_traces(&domain, &vec![&t, &t, &t, &t], &g(123456789));
    assert!(folded.same(&t));
    // The fixed columns are the same in all traces of a circuit.
    let traces = small_traces(4);
    let folded =
        Prover::<3>::fold_traces(&domain, &traces.iter().collect::<Vec<_>>(), &g(123456789));
    assert_eq!(folded.trace.fixed, traces[0].trace.fixed);
    assert!(!folded.same(&traces[0]));
}

#[test]
fn traces_of_other_arrangements_are_told_apart() {
    let t = small_traces(2);
    assert!(t[0].is_like(&t[1]));
    let mut longer = small_traces(1).remove(0);
    longer.trace.advice[0][1].push(g(0));
    assert!(!longer.is_like(&t[0]));
    let mut fewer = small_traces(1).remove(0);
    fewer.trace.y.pop();
    assert!(!t[0].is_like(&fewer));
    let mut other = small_traces(1).remove(0);
    other.instance_values.push(vec![]);
    assert!(!other.is_like(&t[0]));
}

#[test]
fn missing_columns_are_noticed() {
    let key = pk(3, mul_circuit());
    let reads = |t: &FoldingProverTrace<G>| key.ev.reads(&key.domain, &key.selectors, t);
    assert!(reads(&small_traces(1)[0]));
    // A column with too few rows, a missing column, a missing proof.
    let mut t = small_traces(1).remove(0);
    t.trace.advice[0][2].pop();
    assert!(!reads(&t));
    let mut t = small_traces(1).remove(0);
    t.trace.advice[0].pop();
    assert!(!reads(&t));
    let mut t = small_traces(1).remove(0);
    t.trace.advice.clear();
    assert!(!reads(&t));
    // Too few challenges, for the gates and to join them.
    let mut t = small_traces(1).remove(0);
    t.trace.challenges.clear();
    assert!(!reads(&t));
    let mut t = small_traces(1).remove(0);
    t.trace.y = vec![g(1)];
    assert!(!reads(&t));
    // The instance column of the other circuit.
    let other = mul_circuit_with_instance();
    assert!(!other.reads(&key.domain, &key.selectors, &small_traces(1)[0]));
    let e = times(Expression::Fixed(1), Expression::Challenge(2));
    assert!(e.is_within(2, 0, 0, 3));
    assert!(!e.is_within(1, 0, 0, 3));
    assert!(!e.is_within(2, 0, 0, 2));
}

#[test]
fn folding_commitments_is_committing_to_the_folded_trace() {
    let params = params(3);
    let traces = small_traces(4);
    let committed = commitments(&params, &traces);
    let domain: EvaluationDomain<G> = EvaluationDomain::new(2, 2);
    let gamma = g(424242);
    let folded =
        Prover::<3>::fold_traces(&domain, &traces.iter().collect::<Vec<_>>(), &gamma);
    let refs = committed.iter().collect::<Vec<_>>();
    let folded_commitments = folding_verifier::fold_traces(&domain, &refs, &gamma);
    assert!(folded.commit::<PointScheme>(&params).same(&folded_commitments));
    assert!(!traces[0].commit::<PointScheme>(&params).same(&folded_commitments));
}

#[test]
fn challenges_run_out_as_zero() {
    let mut transcript = Script::new(vec![g(5)], vec![]);
    assert_eq!(transcript.squeeze_challenge(), g(5));
    assert_eq!(transcript.squeeze_challenge(), g(0));
}

/// Folds in a single round with prover and verifier, and checks what the proof of
/// the folded trace rests on.
fn fold_once_and_check<const K: usize>(
    circuit: fn() -> ConstraintSystem<G>,
    traces: Vec<FoldingProverTrace<G>>,
) {
    let params = params(K as u32);
    let key = pk(K as u32, circuit());
    let mut transcript = Script::new(challenges(), vec![]);
    let folding = match ProverOneShot::<K>::fold(&params, &key, &traces, &mut transcript) {
        Ok(folding) => folding,
        Err(e) => panic!("the prover failed: {:?}", e),
    };
    assert_eq!(folding.beta, challenges()[0]);

    let committed = commitments(&params, &traces);
    let mut transcript = Script::new(challenges(), transcript.finalize());
    let degree = circuit().degree();
    let (verifier, opening) =
        match VerifierOneShot::<K>::fold(degree, &committed, &mut transcript) {
            Ok(folded) => folded,
            Err(e) => panic!("the verifier failed: {:?}", e),
        };
    assert_eq!(opening.gamma, challenges()[1]);
    assert!(verifier.has_commitments(&params, &folding.folded_trace));
    let result = verifier.is_sat(
        &params,
        &key.domain,
        &key.ev,
        &folding.folded_trace,
        &key.selectors,
    );
    assert_eq!(result, Ok(()));

    // The polynomial of the error terms opens to the error term at the challenge.
    assert_eq!(eval_polynomial(&folding.error_coeff, &folding.beta), verifier.error_term);
    assert!(verifier.error_term != g(0));
    // It takes the values of the rows of the folded trace.
    let rows = key.compute_h(&folding.folded_trace);
    assert_eq!(key.domain.coeff_to_lagrange(&folding.error_coeff), rows);
    assert_eq!(eval_polynomial(&folding.error_coeff, &params.point), opening.committed_error);
    // Joined by the basis polynomials at the challenge, they are the error term.
    let weights = protogalaxy::domain::lagrange_evals_at(&key.domain, &folding.beta);
    let joined = rows.iter().zip(&weights).fold(g(0), |sum, (row, w)| sum.add(&row.mul(w)));
    assert_eq!(joined, verifier.error_term);
    // The folded fixed columns.
    assert_eq!(folding.fixed_polys.len(), folding.folded_trace.trace.fixed.len());
    for (poly, values) in folding.fixed_polys.iter().zip(&folding.folded_trace.trace.fixed) {
        assert_eq!(&key.domain.coeff_to_lagrange(poly), values);
    }
    for (poly, coset) in folding.fixed_polys.iter().zip(&folding.fixed_cosets) {
        assert_eq!(&key.domain.coeff_to_extended(poly), coset);
    }
}

#[test]
fn folding_test_oneshot() {
    const K: usize = 15;
    let k = 4; // number of folding instances

    let mut rng = ChaCha8Rng::from_seed([0u8; 32]);
    let witness = bytes(&mut rng);
    let traces = (0..k)
        .map(|i| trace(K as u32, &witness, fourth_power, None, 100 * i))
        .collect::<Vec<_>>();
    fold_once_and_check::<K>(fourth_power_circuit, traces);
}

#[test]
fn folding_test_oneshot_with_instance() {
    const K: usize = 15;
    let k = 4; // number of folding instances

    let mut rng = ChaCha8Rng::from_seed([0u8; 32]);
    let traces = (0..k)
        .map(|i| {
            let witness = bytes(&mut rng);
            trace(K as u32, &witness, square, Some(witness[0]), 100 * i)
        })
        .collect::<Vec<_>>();
    fold_once_and_check::<K>(mul_circuit_with_instance, traces);
}

#[test]
fn one_shot_verifier_refuses_what_does_not_fit() {
    let params = params(3);
    let key = pk(3, mul_circuit());
    let traces = small_traces(4);
    let mut transcript = Script::new(challenges(), vec![]);
    let folding = match ProverOneShot::<3>::fold(&params, &key, &traces, &mut transcript) {
        Ok(folding) => folding,
        Err(e) => panic!("the prover failed: {:?}", e),
    };
    let committed = commitments(&params, &traces);
    let mut items = transcript.finalize();
    assert_eq!(items.len(), 3);
    // Without the commitment to the error terms.
    items.pop();
    let mut transcript = Script::new(challenges(), items);
    let result = VerifierOneShot::<3>::fold(3, &committed, &mut transcript);
    assert!(matches!(result, Err(Error::Transcript)));
    // With another value of the quotient.
    let items = vec![Item::Commitment(g(1)), Item::Scalar(g(2)), Item::Commitment(g(3))];
    let mut transcript = Script::new(challenges(), items);
    let (verifier, _) = match VerifierOneShot::<3>::fold(3, &committed, &mut transcript) {
        Ok(folded) => folded,
        Err(e) => panic!("the verifier failed: {:?}", e),
    };
    assert!(verifier.has_commitments(&params, &folding.folded_trace));
    let result = verifier.is_sat(
        &params,
        &key.domain,
        &key.ev,
        &folding.folded_trace,
        &key.selectors,
    );
    assert_eq!(result, Err(Error::Opening));
    // With another trace.
    assert!(!verifier.has_commitments(&params, &traces[0]));
}

#[test]
fn one_shot_error_term_is_quotient_times_vanishing() {
    let committed = commitments(&params(3), &small_traces(4));
    let items = vec![Item::Commitment(g(0)), Item::Scalar(g(7)), Item::Commitment(g(9))];
    let mut transcript = Script::new(vec![g(3), g(2)], items);
    let (verifier, opening) = match VerifierOneShot::<3>::fold(3, &committed, &mut transcript) {
        Ok(folded) => folded,
        Err(e) => panic!("the verifier failed: {:?}", e),
    };
    // (2^4 - 1) * 7.
    assert_eq!(verifier.error_term, g(105));
    assert_eq!(verifier.beta, g(3));
    assert_eq!(opening.committed_error, g(9));
}

#[test]
fn error_terms_interpolate_each_row() {
    let dk: EvaluationDomain<G> = EvaluationDomain::new(3, 1);
    // Two rows, which are the polynomials 1 + 2 X + 3 X^2 and 5 on the coset.
    let size = dk.extended_len();
    assert_eq!(size, 4);
    let mut rows = vec![];
    let mut x = G::zeta();
    for _ in 0..size {
        let v = g(1).add(&g(2).mul(&x)).add(&g(3).mul(&x.mul(&x)));
        rows.push(vec![v, g(5)]);
        x = x.mul(&dk.extended_omega);
    }
    let terms = prover_oneshot::compute_error_terms(2, &dk, &rows, &g(10));
    assert_eq!(terms, vec![g(321), g(5)]);
    // Joined with weights, they are the value of the joined rows.
    let joined = rows
        .iter()
        .map(|row| row[0].mul(&g(7)).add(&row[1].mul(&g(1000))))
        .collect::<Vec<_>>();
    let coeffs = dk.extended_to_coeff(&joined);
    assert_eq!(eval_polynomial(&coeffs, &g(10)), g(7 * 321 + 1000 * 5));
}

#[test]
fn identities_are_corrected() {
    let domain: EvaluationDomain<G> = EvaluationDomain::new(3, 1);
    let error = vec![g(4), g(0)];
    let h = vec![g(10), g(11), g(12), g(13)];
    let corrected = prover_oneshot::correct_identities(&domain, &h, &error);
    assert_eq!(corrected, vec![g(6), g(7), g(8), g(9)]);
}

#[test]
fn error_polynomial_is_opened_twice() {
    let error = vec![g(1), g(2)];
    let other = vec![g(3)];
    let mut queries = vec![ProverQuery { point: g(7), poly: &other }];
    prover_oneshot::push_error_queries(&mut queries, &g(8), &g(9), &error);
    let points = queries.iter().map(|q| q.point).collect::<Vec<_>>();
    assert_eq!(points, vec![g(7), g(8), g(9)]);
    assert_eq!(queries[1].poly, &error);
    assert_eq!(queries[2].poly, &error);
}

#[test]
fn honest_proof_opens() {
    let params = params(3);
    let key = pk(3, mul_circuit_with_instance());
    let traces = (0..4)
        .map(|i| trace(3, &[i + 2, 3 * i + 1, 7 * i + 5], square, Some(i + 2), 10 * i))
        .collect::<Vec<_>>();
    let script = || vec![g(1111111111111), g(2222222222222222), g(4444444)];
    let mut transcript = Script::new(script(), vec![]);
    let folding = match ProverOneShot::<3>::fold(&params, &key, &traces, &mut transcript) {
        Ok(folding) => folding,
        Err(e) => panic!("the prover failed: {:?}", e),
    };
    // The point is drawn, and what the queries give there is sent.
    let x = transcript.squeeze_challenge();
    let cs = mul_circuit_with_instance();
    let folded_trace = &folding.folded_trace;
    let advice_polys = folding.advice_polys(&key.domain);
    assert_eq!(advice_polys.len(), 1);
    for (column, _) in &cs.advice_queries {
        let v = eval_polynomial(&advice_polys[0][*column], &x);
        assert_eq!(transcript.write_scalar(&v), Ok(()));
    }
    for (column, _) in &cs.fixed_queries {
        let v = eval_polynomial(&folding.fixed_polys[*column], &x);
        assert_eq!(transcript.write_scalar(&v), Ok(()));
    }
    assert_eq!(folding.send_correction(&x, &mut transcript), Ok(()));
    let mut opened = vec![];
    folding.push_queries(&mut opened, &x);
    assert_eq!((opened[0].point, opened[1].point), (x, folding.beta));
    assert_eq!((opened[0].poly, opened[1].poly), (&folding.error_coeff, &folding.error_coeff));

    let committed = commitments(&params, &traces);
    let mut transcript = Script::new(script(), transcript.finalize());
    let (verifier, opening) =
        match VerifierOneShot::<3>::fold(cs.degree(), &committed, &mut transcript) {
            Ok(folded) => folded,
            Err(e) => panic!("the verifier failed: {:?}", e),
        };
    let dk: EvaluationDomain<G> = EvaluationDomain::new(3, 2);
    let instances = (0..4).map(|i| vec![vec![g(i + 2)]]).collect::<Vec<_>>();
    let evals = match verifier_oneshot::read_final_evals(
        &key.domain,
        &dk,
        &cs,
        0,
        &instances,
        &opening,
        &mut transcript,
    ) {
        Ok(evals) => evals,
        Err(e) => panic!("{:?}", e),
    };
    assert_eq!(evals.x, x);
    let instance_poly = key.domain.lagrange_to_coeff(&folded_trace.instance_values[0][0]);
    assert_eq!(evals.instance_evals, vec![eval_polynomial(&instance_poly, &x)]);
    let fixed = &committed[0].fixed;
    let none = vec![];
    let queries =
        verifier.queries(&opening, &key.domain, &cs, &none, fixed, &evals, vec![], vec![]);
    // Each opening, with the polynomial that was committed to.
    let polys = cs
        .advice_queries
        .iter()
        .map(|q| &advice_polys[0][q.0])
        .chain(cs.fixed_queries.iter().map(|q| &folding.fixed_polys[q.0]))
        .chain([&folding.error_coeff, &folding.error_coeff])
        .collect::<Vec<_>>();
    assert_eq!(queries.len(), polys.len());
    for (query, poly) in queries.iter().zip(polys) {
        assert_eq!(*query.commitment, eval_polynomial(poly, &params.point));
        assert_eq!(query.eval, eval_polynomial(poly, &query.point));
    }
    assert_eq!(queries[queries.len() - 1].point, verifier.beta);
    assert_eq!(queries[queries.len() - 1].eval, verifier.error_term);
}

#[test]
fn folding_carries_its_error_terms() {
    let folding = OneShotFolding {
        folded_trace: small_traces(1).remove(0),
        beta: g(9),
        error_coeff: vec![g(4), g(0)],
        fixed_polys: vec![],
        fixed_cosets: vec![],
    };
    let domain: EvaluationDomain<G> = EvaluationDomain::new(3, 1);
    let h = vec![g(10), g(11), g(12), g(13)];
    assert_eq!(folding.correct(&domain, &h), vec![g(6), g(7), g(8), g(9)]);
    let mut transcript = Script::new(vec![], vec![]);
    assert_eq!(folding.send_correction(&g(100), &mut transcript), Ok(()));
    assert!(matches!(&transcript.finalize()[..], [Item::Scalar(v)] if v.residue() == 4));
    let rows: EvaluationDomain<G> = EvaluationDomain::new(2, 3);
    let polys = folding.advice_polys(&rows);
    let columns = &folding.folded_trace.trace.advice[0];
    assert_eq!(polys[0].len(), columns.len());
    for (poly, column) in polys[0].iter().zip(columns) {
        assert_eq!(&rows.coeff_to_lagrange(poly), column);
    }
}

#[test]
fn error_polynomial_of_zero_reads_no_trace() {
    // The trace lacks the columns of the circuit, and there is no error.
    let mut t = small_traces(1).remove(0);
    t.trace.advice.clear();
    let prover = Prover::<3>::init(pk(3, mul_circuit()), t);
    assert_eq!(prover.compute_f(&[g(1), g(2), g(3)]), vec![g(0); 4]);
}

#[test]
fn rotations_are_bounded_with_zero() {
    let range = verifier_oneshot::rotation_range;
    assert_eq!(range(&vec![]), (0, 0));
    assert_eq!(range(&vec![(0, 2), (1, 1)]), (0, 2));
    assert_eq!(range(&vec![(0, -3), (0, 5), (2, -1)]), (-3, 5));
}

#[test]
fn instances_are_evaluated_and_folded() {
    let domain: EvaluationDomain<G> = EvaluationDomain::new(3, 2);
    let dk: EvaluationDomain<G> = EvaluationDomain::new(3, 1);
    // Two proofs with one committed column and one other column.
    let columns = [
        vec![g(5), g(6), g(7), g(8)],
        vec![g(1), g(2), g(3), g(40)],
    ];
    let instances = columns.iter().map(|c| vec![c.clone()]).collect::<Vec<_>>();
    let queries = vec![(1, 0), (0, 0), (1, 1), (1, -1)];
    let (x, gamma) = (g(1234567), g(7654321));
    let mut transcript = Script::new(vec![], vec![Item::Scalar(g(99))]);
    let evals = match verifier_oneshot::read_instance_evals(
        &domain,
        &dk,
        &queries,
        1,
        &instances,
        &x,
        &gamma,
        &mut transcript,
    ) {
        Ok(evals) => evals,
        Err(e) => panic!("{:?}", e),
    };
    // The column folded at gamma, as a polynomial, at the rotated points.
    let l = protogalaxy::domain::lagrange_evals_at(&dk, &gamma);
    let folded = (0..4)
        .map(|i| columns[0][i].mul(&l[0]).add(&columns[1][i].mul(&l[1])))
        .collect::<Vec<_>>();
    let poly = domain.lagrange_to_coeff(&folded);
    assert_eq!(evals[0], eval_polynomial(&poly, &x));
    assert_eq!(evals[1], g(99));
    assert_eq!(evals[2], eval_polynomial(&poly, &x.mul(&domain.omega)));
    assert_eq!(evals[3], eval_polynomial(&poly, &x.mul(&domain.omega_inv)));

    assert_eq!(verifier_oneshot::count_committed(&queries, 1), 1);
    let same = verifier_oneshot::instance_evals(
        &domain,
        &dk,
        &queries,
        1,
        &vec![g(99)],
        &instances,
        &x,
        &gamma,
    );
    assert_eq!(same, evals);

    // Without the value of the committed column.
    let mut transcript = Script::new(vec![], vec![]);
    let result = verifier_oneshot::read_instance_evals(
        &domain,
        &dk,
        &queries,
        1,
        &instances,
        &x,
        &gamma,
        &mut transcript,
    );
    assert_eq!(result, Err(Error::Transcript));
}

#[test]
fn short_instances_are_filled_up_with_zeros() {
    let domain: EvaluationDomain<G> = EvaluationDomain::new(3, 2);
    let dk: EvaluationDomain<G> = EvaluationDomain::new(3, 1);
    let (x, gamma) = (g(1234567), g(7654321));
    let queries = vec![(0, 0), (0, 1)];
    let evals = |first: Vec<G>, second: Vec<G>| {
        let instances = vec![vec![first], vec![second]];
        verifier_oneshot::instance_evals(
            &domain,
            &dk,
            &queries,
            0,
            &vec![],
            &instances,
            &x,
            &gamma,
        )
    };
    let short = evals(vec![g(5), g(6)], vec![g(1)]);
    let full = evals(vec![g(5), g(6), g(0), g(0)], vec![g(1), g(0), g(0), g(0)]);
    assert_eq!(short, full);
    let l = protogalaxy::domain::lagrange_evals_at(&dk, &gamma);
    let folded = vec![g(5).mul(&l[0]).add(&l[1]), g(6).mul(&l[0]), g(0), g(0)];
    let poly = domain.lagrange_to_coeff(&folded);
    assert_eq!(short[0], eval_polynomial(&poly, &x));
    assert_eq!(short[1], eval_polynomial(&poly, &x.mul(&domain.omega)));
}

#[test]
fn final_evals_are_drawn_and_read_in_order() {
    let domain: EvaluationDomain<G> = EvaluationDomain::new(3, 2);
    let dk: EvaluationDomain<G> = EvaluationDomain::new(3, 0);
    let cs = mul_circuit_with_instance();
    // One proof, whose only instance column is committed.
    let scalars = [50, 1, 2, 3, 4, 7, 8, 9];
    let items = scalars.iter().map(|v| Item::Scalar(g(*v))).collect();
    let mut transcript = Script::new(vec![g(77)], items);
    let evals = match verifier_oneshot::read_final_evals(
        &domain,
        &dk,
        &cs,
        1,
        &vec![vec![]],
        &OneShotOpening { gamma: g(5), committed_error: g(6) },
        &mut transcript,
    ) {
        Ok(evals) => evals,
        Err(e) => panic!("{:?}", e),
    };
    assert_eq!(evals.x, g(77));
    assert_eq!(evals.instance_evals, vec![g(50)]);
    assert_eq!(evals.advice_evals, vec![g(1), g(2), g(3), g(4)]);
    assert_eq!(evals.fixed_evals, vec![g(7), g(8)]);
    assert_eq!(evals.correction_eval, g(9));
    // A value is missing.
    let items = scalars[1..].iter().map(|v| Item::Scalar(g(*v))).collect();
    let mut transcript = Script::new(vec![g(77)], items);
    let result = verifier_oneshot::read_final_evals(
        &domain,
        &dk,
        &cs,
        1,
        &vec![vec![]],
        &OneShotOpening { gamma: g(5), committed_error: g(6) },
        &mut transcript,
    );
    assert!(matches!(result, Err(Error::Transcript)));
}

#[test]
fn elements_are_read_in_order() {
    let items = vec![Item::Scalar(g(1)), Item::Scalar(g(2)), Item::Commitment(g(3))];
    let mut transcript = Script::new(vec![], items);
    assert_eq!(verifier_oneshot::read_n(&mut transcript, 2), Ok(vec![g(1), g(2)]));
    assert_eq!(verifier_oneshot::read_n(&mut transcript, 1), Err(Error::Transcript));
}

#[test]
fn rows_are_selected() {
    let domain: EvaluationDomain<G> = EvaluationDomain::new(3, 3);
    let x = g(31337);
    let l = protogalaxy::domain::lagrange_evals_at(&domain, &x);
    let rows = verifier_oneshot::select_rows(&domain, &x, 3);
    assert_eq!(rows.l_0, l[0]);
    assert_eq!(rows.l_last, l[4]);
    assert_eq!(rows.l_blind, l[5].add(&l[6]).add(&l[7]));
}

#[test]
fn gates_are_evaluated_at_a_point() {
    let cs = mul_circuit_with_instance();
    let evals = verifier_oneshot::gate_evals(
        &cs,
        &vec![g(2), g(3)],
        &vec![g(5), g(7), g(11), g(55)],
        &vec![g(4)],
        &vec![g(3)],
    );
    // 2 (5 * 7 - 11), 2 (55 - 3 * 3 * 5) and 3 (5 - 4).
    assert_eq!(evals, vec![g(48), g(20), g(3)]);
}

#[test]
fn final_queries_stand_in_order() {
    let domain: EvaluationDomain<G> = EvaluationDomain::new(3, 2);
    let cs = ConstraintSystem::<G> {
        gates: vec![],
        fixed_queries: vec![(1, 0), (0, 1)],
        advice_queries: vec![(0, -1)],
        instance_queries: vec![(0, 0), (1, 0)],
    };
    let (instances, advice, fixed) = (vec![g(100)], vec![g(200)], vec![g(300), g(301)]);
    let (argument, closing, error) = (g(400), g(500), g(600));
    let x = g(3);
    let evals = FinalEvals {
        x,
        instance_evals: vec![g(1), g(2)],
        advice_evals: vec![g(3)],
        fixed_evals: vec![g(4), g(5)],
        correction_eval: g(6),
    };
    let queries = verifier_oneshot::final_queries(
        &domain,
        &cs,
        &instances,
        &advice,
        &fixed,
        &evals,
        vec![VerifierQuery { point: g(8), commitment: &argument, eval: g(9) }],
        vec![VerifierQuery { point: g(10), commitment: &closing, eval: g(11) }],
        &error,
        &g(12),
        &g(13),
    );
    let listed = queries
        .iter()
        .map(|q| (q.point, *q.commitment, q.eval))
        .collect::<Vec<_>>();
    assert_eq!(
        listed,
        vec![
            (x, g(100), g(1)),
            (x.mul(&domain.omega_inv), g(200), g(3)),
            (g(8), g(400), g(9)),
            (x, g(301), g(4)),
            (x.mul(&domain.omega), g(300), g(5)),
            (g(10), g(500), g(11)),
            (x, g(600), g(6)),
            (g(12), g(600), g(13)),
        ]
    );
}
