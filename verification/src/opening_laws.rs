//! What the openings say that the check of a folded proof asks for.
use crate::commitment::PolynomialCommitmentScheme;
use crate::completeness_oneshot;
use crate::constraint_system::{self, ConstraintSystem};
use crate::domain;
use crate::field::{self, PrimeField};
use crate::interpolation;
use crate::linear::Linear;
use crate::polynomial;
use crate::residues;
use crate::roots;
use crate::transcript::Message;
use crate::verifier_oneshot::{
    self,
    FinalEvals,
    OneShotOpening,
    ProtogalaxyVerifierOneShot,
    QueryModel,
    VerifierQuery,
};
use vstd::arithmetic::div_mod::*;
use vstd::arithmetic::power::*;
use vstd::arithmetic::power2::*;
use vstd::prelude::*;

verus! {

/// Points of the domain repeat after as many steps as it has points.
pub proof fn lemma_points_repeat<F: PrimeField>(k: nat, a: nat, b: nat)
    requires
        k <= F::two_adicity(),
        (a - b) % (pow2(k) as int) == 0,
    ensures
        residues::cong(
            interpolation::point::<F>(k, a),
            interpolation::point::<F>(k, b),
            F::modulus(),
        ),
{
    F::lemma_field();
    let n = pow2(k);
    lemma_pow2_pos(k);
    lemma_points_reduced::<F>(k, a);
    lemma_points_reduced::<F>(k, b);
    lemma_mod_equivalence(a as int, b as int, n as int);
}

proof fn lemma_points_reduced<F: PrimeField>(k: nat, a: nat)
    requires
        k <= F::two_adicity(),
    ensures
        residues::cong(
            interpolation::point::<F>(k, a),
            interpolation::point::<F>(k, a % pow2(k)),
            F::modulus(),
        ),
{
    F::lemma_field();
    let p = F::modulus();
    let n = pow2(k);
    let w = interpolation::omega_of::<F>(k);
    lemma_pow2_pos(k);
    interpolation::lemma_omega::<F>(k);
    roots::lemma_root_order(w, k, p);
    lemma_fundamental_div_mod(a as int, n as int);
    let (q, r) = (a / n, a % n);
    lemma_pow_adds(w, n * q, r);
    lemma_pow_multiplies(w, n, q);
    residues::lemma_cong_pow(pow(w, n), 1, q, p);
    lemma1_pow(q);
    residues::lemma_cong_one(pow(w, r), pow(w, n * q), p);
}

/// What a query reads in a row is the value of the polynomial of its column at the
/// point of that row, rotated: whether the rotation is forward or backward.
pub proof fn lemma_query_reads_rotated_point<F: PrimeField>(
    columns: Seq<Seq<int>>,
    queries: Seq<(usize, i32)>,
    k: nat,
    row: nat,
    q: int,
    steps: nat,
)
    requires
        k <= F::two_adicity(),
        constraint_system::have_queried(columns, queries, k),
        row < pow2(k),
        0 <= q < queries.len(),
        (steps - queries[q].1) % (pow2(k) as int) == 0,
    ensures
        constraint_system::queried_in_row(columns, queries, k, row as int).len() == queries.len(),
        residues::cong(
            constraint_system::queried_in_row(columns, queries, k, row as int)[q],
            polynomial::eval(
                interpolation::interpolate::<F>(columns[queries[q].0 as int], k),
                interpolation::point::<F>(k, row) * interpolation::point::<F>(k, steps),
            ),
            F::modulus(),
        ),
{
    F::lemma_field();
    let p = F::modulus();
    let n = pow2(k);
    let w = interpolation::omega_of::<F>(k);
    let rotation = queries[q].1 as int;
    let c = interpolation::interpolate::<F>(columns[queries[q].0 as int], k);
    let x = interpolation::point::<F>(k, row) * interpolation::point::<F>(k, steps);
    let place = (row + rotation) % (n as int);
    lemma_pow2_pos(k);
    lemma_mod_bound(row + rotation, n as int);
    lemma_pow_adds(w, row, steps);
    assert(x == interpolation::point::<F>(k, row + steps));
    assert(((row + steps) - place) % (n as int) == 0) by {
        lemma_fundamental_div_mod(row + rotation, n as int);
        lemma_fundamental_div_mod(steps - rotation, n as int);
        let (a, b) = ((row + rotation) / (n as int), (steps - rotation) / (n as int));
        assert(n * a + n * b == n * (a + b)) by (nonlinear_arith);
        lemma_mod_multiples_vanish(a + b, 0, n as int);
        lemma_small_mod(0, n);
    }
    lemma_points_repeat::<F>(k, row + steps, place as nat);
    polynomial::lemma_eval_cong(c, c, x, interpolation::point::<F>(k, place as nat), p);
    interpolation::lemma_interpolate::<F>(columns[queries[q].0 as int], k, place as nat);
}

/// The row of a circuit and the openings of a proof read the same: what a query
/// reads in a row is what it opens to at the point of that row.
pub proof fn lemma_query_reads_what_it_opens_to<F: PrimeField>(
    columns: Seq<Seq<int>>,
    queries: Seq<(usize, i32)>,
    k: nat,
    row: nat,
    q: int,
)
    requires
        k <= F::two_adicity(),
        constraint_system::have_queried(columns, queries, k),
        row < pow2(k),
        0 <= q < queries.len(),
    ensures
        constraint_system::queried_in_row(columns, queries, k, row as int)[q] % F::modulus()
            == completeness_oneshot::query_eval::<F>(
            k,
            columns,
            queries[q],
            interpolation::point::<F>(k, row),
        ),
{
    let n = pow2(k) as int;
    let rotation = queries[q].1 as int;
    lemma_pow2_pos(k);
    lemma_mod_bound(rotation, n);
    lemma_mod_twice(rotation, n);
    lemma_mod_equivalence(rotation % n, rotation, n);
    lemma_query_reads_rotated_point::<F>(columns, queries, k, row, q, (rotation % n) as nat);
}

/// One more query, and what it adds.
proof fn lemma_filtered(queries: Seq<(usize, i32)>, limit: nat, n: nat)
    requires
        0 < n <= queries.len(),
    ensures
        ({
            let below = |q: (usize, i32)| q.0 < limit;
            queries.take(n as int).filter(below).len() == queries.take(n - 1).filter(below).len()
                + if queries[n - 1].0 < limit {
                1nat
            } else {
                0
            }
        }),
{
    reveal(Seq::filter);
    assert(queries.take(n as int).drop_last() =~= queries.take(n - 1));
    assert(queries.take(n as int).last() == queries[n - 1]);
}

/// Every query of a column below the limit has its opening in the list: as many
/// places from the start as there are such queries before it, with the commitment
/// to its column and the value that was read for it, at the point that is rotated by
/// the rotation of the query. The list has no others.
pub proof fn lemma_every_query_is_opened<F: PrimeField, C>(
    k: nat,
    queries: Seq<(usize, i32)>,
    limit: nat,
    commitments: Seq<C>,
    evals: Seq<int>,
    x: int,
    n: nat,
)
    requires
        k <= F::two_adicity(),
        n <= queries.len(),
    ensures
        ({
            let below = |q: (usize, i32)| q.0 < limit;
            let list = verifier_oneshot::column_openings::<F, C>(
                k,
                queries,
                limit,
                commitments,
                evals,
                x,
                n,
            );
            &&& list.len() == queries.take(n as int).filter(below).len()
            &&& forall|q: int|
                0 <= q < n && (#[trigger] queries[q]).0 < limit ==> {
                    let i = queries.take(q).filter(below).len() as int;
                    &&& i < list.len()
                    &&& list[i].commitment == commitments[queries[q].0 as int]
                    &&& list[i].eval == evals[q]
                    &&& 0 <= list[i].point < F::modulus()
                }
            &&& forall|q: int, steps: nat|
                0 <= q < n && queries[q].0 < limit && (steps - (#[trigger] queries[q]).1) % (
                pow2(k) as int) == 0 ==> residues::cong(
                    list[queries.take(q).filter(below).len() as int].point,
                    x * #[trigger] interpolation::point::<F>(k, steps),
                    F::modulus(),
                )
        }),
    decreases n,
{
    F::lemma_field();
    let p = F::modulus();
    let below = |q: (usize, i32)| q.0 < limit;
    let list = verifier_oneshot::column_openings::<F, C>(
        k,
        queries,
        limit,
        commitments,
        evals,
        x,
        n,
    );
    if n == 0 {
        reveal(Seq::filter);
        assert(queries.take(0).len() == 0);
    } else {
        let m = (n - 1) as nat;
        lemma_every_query_is_opened::<F, C>(k, queries, limit, commitments, evals, x, m);
        lemma_filtered(queries, limit, n);
        let before = verifier_oneshot::column_openings::<F, C>(
            k,
            queries,
            limit,
            commitments,
            evals,
            x,
            m,
        );
        let size = pow2(k) as int;
        let rotation = queries[n - 1].1 as int;
        let turned = interpolation::point::<F>(k, (rotation % size) as nat);
        lemma_pow2_pos(k);
        lemma_mod_bound(rotation, size);
        residues::lemma_mod_cong(x * turned, p);
        assert forall|q: int| 0 <= q < n && (#[trigger] queries[q]).0 < limit implies {
            let i = queries.take(q).filter(below).len() as int;
            &&& i < list.len()
            &&& list[i].commitment == commitments[queries[q].0 as int]
            &&& list[i].eval == evals[q]
            &&& 0 <= list[i].point < p
        } by {
            let i = queries.take(q).filter(below).len() as int;
            if q < m {
                assert(i < before.len());
                assert(list[i] == before[i]);
            } else {
                assert(i == before.len());
            }
        }
        assert forall|q: int, steps: nat|
            0 <= q < n && queries[q].0 < limit && (steps - (#[trigger] queries[q]).1) % (pow2(
                k,
            ) as int) == 0 implies residues::cong(
            list[queries.take(q).filter(below).len() as int].point,
            x * #[trigger] interpolation::point::<F>(k, steps),
            p,
        ) by {
            let i = queries.take(q).filter(below).len() as int;
            if q < m {
                assert(i < before.len());
                assert(list[i] == before[i]);
            } else {
                assert(i == before.len());
                lemma_mod_equivalence(steps as int, rotation, size);
                lemma_mod_twice(rotation, size);
                lemma_mod_equivalence(rotation % size, steps as int, size);
                lemma_points_repeat::<F>(k, (rotation % size) as nat, steps);
                residues::lemma_cong_ops(
                    x,
                    x,
                    turned,
                    interpolation::point::<F>(k, steps),
                    p,
                );
            }
        }
    }
}

/// Where all queries are of columns below the limit, there are as many openings as
/// queries, in the order of the queries.
pub proof fn lemma_openings_in_order<F: PrimeField, C>(
    k: nat,
    queries: Seq<(usize, i32)>,
    limit: nat,
    commitments: Seq<C>,
    evals: Seq<int>,
    x: int,
    q: int,
)
    requires
        k <= F::two_adicity(),
        0 <= q < queries.len(),
        forall|i: int| 0 <= i < queries.len() ==> (#[trigger] queries[i]).0 < limit,
    ensures
        ({
            let list = verifier_oneshot::column_openings::<F, C>(
                k,
                queries,
                limit,
                commitments,
                evals,
                x,
                queries.len(),
            );
            &&& list.len() == queries.len()
            &&& list[q].commitment == commitments[queries[q].0 as int]
            &&& list[q].eval == evals[q]
            &&& forall|steps: nat|
                (steps - queries[q].1) % (pow2(k) as int) == 0 ==> residues::cong(
                    list[q].point,
                    x * #[trigger] interpolation::point::<F>(k, steps),
                    F::modulus(),
                )
        }),
{
    let below = |q: (usize, i32)| q.0 < limit;
    lemma_every_query_is_opened::<F, C>(
        k,
        queries,
        limit,
        commitments,
        evals,
        x,
        queries.len(),
    );
    lemma_all_filtered(queries, limit, queries.len());
    lemma_all_filtered(queries, limit, q as nat);
    assert(queries[q].0 < limit);
}

/// Nothing is left out of a list of queries of columns below the limit.
proof fn lemma_all_filtered(queries: Seq<(usize, i32)>, limit: nat, n: nat)
    requires
        n <= queries.len(),
        forall|i: int| 0 <= i < queries.len() ==> (#[trigger] queries[i]).0 < limit,
    ensures
        queries.take(n as int).filter(|q: (usize, i32)| q.0 < limit).len() == n,
    decreases n,
{
    if n == 0 {
        reveal(Seq::filter);
        assert(queries.take(0).len() == 0);
    } else {
        lemma_all_filtered(queries, limit, (n - 1) as nat);
        lemma_filtered(queries, limit, n);
        assert(queries[n - 1].0 < limit);
    }
}

/// True openings pin down what was read: where all openings of a list are true and
/// no two columns have the same commitment, the value that was read for each query
/// is the one that its column takes at the rotated point.
pub proof fn lemma_openings_pin_values<F: PrimeField, CS: PolynomialCommitmentScheme<F>>(
    params: &CS::Parameters,
    k: nat,
    queries: Seq<(usize, i32)>,
    commitments: Seq<CS::Commitment>,
    columns: Seq<Seq<int>>,
    evals: Seq<int>,
    x: int,
    q: int,
    steps: nat,
)
    requires
        k <= F::two_adicity(),
        forall|v: Seq<int>, w: Seq<int>|
            v.len() == pow2(k) && w.len() == pow2(k) && #[trigger] CS::of_values(params, v)
                == #[trigger] CS::of_values(params, w) ==> v == w,
        completeness_oneshot::all_open::<F, CS>(
            params,
            k,
            verifier_oneshot::column_openings::<F, CS::Commitment>(
                k,
                queries,
                commitments.len(),
                commitments,
                evals,
                x,
                queries.len(),
            ),
        ),
        0 <= q < queries.len(),
        queries[q].0 < commitments.len(),
        columns[queries[q].0 as int].len() == pow2(k),
        commitments[queries[q].0 as int].model() == CS::of_values(
            params,
            columns[queries[q].0 as int],
        ),
        (steps - queries[q].1) % (pow2(k) as int) == 0,
    ensures
        evals[q] == polynomial::eval(
            interpolation::interpolate::<F>(columns[queries[q].0 as int], k),
            x * interpolation::point::<F>(k, steps),
        ) % F::modulus(),
{
    F::lemma_field();
    let p = F::modulus();
    let below = |q: (usize, i32)| q.0 < commitments.len();
    let list = verifier_oneshot::column_openings::<F, CS::Commitment>(
        k,
        queries,
        commitments.len(),
        commitments,
        evals,
        x,
        queries.len(),
    );
    lemma_every_query_is_opened::<F, CS::Commitment>(
        k,
        queries,
        commitments.len(),
        commitments,
        evals,
        x,
        queries.len(),
    );
    let i = queries.take(q).filter(below).len() as int;
    let entry = list[i];
    assert(queries[q].0 < commitments.len());
    assert(i < list.len());
    assert(completeness_oneshot::opens::<F, CS>(params, k, list[i]));
    let v = choose|v: Seq<int>|
        {
            &&& entry.commitment.model() == #[trigger] CS::of_values(params, v)
            &&& v.len() == pow2(k)
            &&& entry.eval == polynomial::eval(
                interpolation::interpolate::<F>(v, k),
                entry.point,
            ) % p
        };
    let w = columns[queries[q].0 as int];
    assert(CS::of_values(params, v) == CS::of_values(params, w));
    assert(v == w);
    let y = x * interpolation::point::<F>(k, steps);
    assert(residues::cong(entry.point, y, p));
    let c = interpolation::interpolate::<F>(w, k);
    polynomial::lemma_eval_cong(c, c, entry.point, y, p);
}

/// A list of openings holds what its parts hold: something is true of all openings
/// of the list if and only if it is true of those of the committed instance columns,
/// of the advice columns, of the arguments, of the fixed columns, of the closing
/// ones, and of the two of the error terms, which stand last.
pub proof fn lemma_final_openings_hold_all<F: PrimeField, C>(
    k: nat,
    instance_queries: Seq<(usize, i32)>,
    advice_queries: Seq<(usize, i32)>,
    fixed_queries: Seq<(usize, i32)>,
    committed_instances: Seq<C>,
    advice_commitments: Seq<C>,
    fixed_commitments: Seq<C>,
    arguments: Seq<QueryModel<C>>,
    closing: Seq<QueryModel<C>>,
    committed_error: C,
    instance_evals: Seq<int>,
    advice_evals: Seq<int>,
    fixed_evals: Seq<int>,
    correction_eval: int,
    x: int,
    beta: int,
    error_term: int,
    ok: spec_fn(QueryModel<C>) -> bool,
)
    ensures
        ({
            let all = verifier_oneshot::final_openings::<F, C>(
                k,
                instance_queries,
                advice_queries,
                fixed_queries,
                committed_instances,
                advice_commitments,
                fixed_commitments,
                arguments,
                closing,
                committed_error,
                instance_evals,
                advice_evals,
                fixed_evals,
                correction_eval,
                x,
                beta,
                error_term,
            );
            let of_instances = verifier_oneshot::column_openings::<F, C>(
                k,
                instance_queries,
                committed_instances.len(),
                committed_instances,
                instance_evals,
                x,
                instance_queries.len(),
            );
            let of_advice = verifier_oneshot::column_openings::<F, C>(
                k,
                advice_queries,
                advice_commitments.len(),
                advice_commitments,
                advice_evals,
                x,
                advice_queries.len(),
            );
            let of_fixed = verifier_oneshot::column_openings::<F, C>(
                k,
                fixed_queries,
                fixed_commitments.len(),
                fixed_commitments,
                fixed_evals,
                x,
                fixed_queries.len(),
            );
            let n = all.len();
            &&& n == of_instances.len() + of_advice.len() + arguments.len() + of_fixed.len()
                + closing.len() + 2
            &&& all[n - 2].point == x && all[n - 2].eval == correction_eval
            &&& all[n - 1].point == beta && all[n - 1].eval == error_term
            &&& all[n - 2].commitment == committed_error
            &&& all[n - 1].commitment == committed_error
            &&& (forall|i: int| 0 <= i < n ==> ok(#[trigger] all[i])) <==> {
                &&& forall|i: int| 0 <= i < of_instances.len() ==> ok(#[trigger] of_instances[i])
                &&& forall|i: int| 0 <= i < of_advice.len() ==> ok(#[trigger] of_advice[i])
                &&& forall|i: int| 0 <= i < arguments.len() ==> ok(#[trigger] arguments[i])
                &&& forall|i: int| 0 <= i < of_fixed.len() ==> ok(#[trigger] of_fixed[i])
                &&& forall|i: int| 0 <= i < closing.len() ==> ok(#[trigger] closing[i])
                &&& ok(all[n - 2])
                &&& ok(all[n - 1])
            }
        }),
{
    let all = verifier_oneshot::final_openings::<F, C>(
        k,
        instance_queries,
        advice_queries,
        fixed_queries,
        committed_instances,
        advice_commitments,
        fixed_commitments,
        arguments,
        closing,
        committed_error,
        instance_evals,
        advice_evals,
        fixed_evals,
        correction_eval,
        x,
        beta,
        error_term,
    );
    let of_instances = verifier_oneshot::column_openings::<F, C>(
        k,
        instance_queries,
        committed_instances.len(),
        committed_instances,
        instance_evals,
        x,
        instance_queries.len(),
    );
    let of_advice = verifier_oneshot::column_openings::<F, C>(
        k,
        advice_queries,
        advice_commitments.len(),
        advice_commitments,
        advice_evals,
        x,
        advice_queries.len(),
    );
    let of_fixed = verifier_oneshot::column_openings::<F, C>(
        k,
        fixed_queries,
        fixed_commitments.len(),
        fixed_commitments,
        fixed_evals,
        x,
        fixed_queries.len(),
    );
    let n = all.len();
    let a = of_instances.len() as int;
    let b = a + of_advice.len();
    let c = b + arguments.len();
    let d = c + of_fixed.len();
    if forall|i: int| 0 <= i < n ==> ok(#[trigger] all[i]) {
        assert forall|i: int| 0 <= i < of_instances.len() implies ok(
            #[trigger] of_instances[i],
        ) by {
            assert(all[i] == of_instances[i]);
        }
        assert forall|i: int| 0 <= i < of_advice.len() implies ok(#[trigger] of_advice[i]) by {
            assert(all[a + i] == of_advice[i]);
        }
        assert forall|i: int| 0 <= i < arguments.len() implies ok(#[trigger] arguments[i]) by {
            assert(all[b + i] == arguments[i]);
        }
        assert forall|i: int| 0 <= i < of_fixed.len() implies ok(#[trigger] of_fixed[i]) by {
            assert(all[c + i] == of_fixed[i]);
        }
        assert forall|i: int| 0 <= i < closing.len() implies ok(#[trigger] closing[i]) by {
            assert(all[d + i] == closing[i]);
        }
    }
    if {
        &&& forall|i: int| 0 <= i < of_instances.len() ==> ok(#[trigger] of_instances[i])
        &&& forall|i: int| 0 <= i < of_advice.len() ==> ok(#[trigger] of_advice[i])
        &&& forall|i: int| 0 <= i < arguments.len() ==> ok(#[trigger] arguments[i])
        &&& forall|i: int| 0 <= i < of_fixed.len() ==> ok(#[trigger] of_fixed[i])
        &&& forall|i: int| 0 <= i < closing.len() ==> ok(#[trigger] closing[i])
        &&& ok(all[n - 2])
        &&& ok(all[n - 1])
    } {
        assert forall|i: int| 0 <= i < n implies ok(#[trigger] all[i]) by {
            if i < a {
                assert(all[i] == of_instances[i]);
            } else if i < b {
                assert(all[i] == of_advice[i - a]);
            } else if i < c {
                assert(all[i] == arguments[i - b]);
            } else if i < d {
                assert(all[i] == of_fixed[i - c]);
            } else if i < n - 2 {
                assert(all[i] == closing[i - d]);
            }
        }
    }
}

/// Of the values of the queries, those of committed columns are sent: as many as
/// there are such queries, each in the place that it has among them.
pub proof fn lemma_committed_values_in_place(
    queries: Seq<(usize, i32)>,
    nb_committed_instances: nat,
    evals: Seq<int>,
    n: nat,
)
    requires
        n <= queries.len(),
    ensures
        ({
            let below = |q: (usize, i32)| q.0 < nb_committed_instances;
            let sent = verifier_oneshot::committed_values(
                queries,
                nb_committed_instances,
                evals,
                n,
            );
            &&& verifier_oneshot::committed_count(queries, nb_committed_instances, n)
                == queries.take(n as int).filter(below).len()
            &&& sent.len() == queries.take(n as int).filter(below).len()
            &&& forall|q: int|
                0 <= q < n && (#[trigger] queries[q]).0 < nb_committed_instances ==> {
                    let i = queries.take(q).filter(below).len() as int;
                    i < sent.len() && sent[i] == evals[q]
                }
        }),
    decreases n,
{
    let below = |q: (usize, i32)| q.0 < nb_committed_instances;
    if n == 0 {
        reveal(Seq::filter);
        assert(queries.take(0).len() == 0);
    } else {
        let m = (n - 1) as nat;
        lemma_committed_values_in_place(queries, nb_committed_instances, evals, m);
        lemma_filtered(queries, nb_committed_instances, n);
        let before = verifier_oneshot::committed_values(queries, nb_committed_instances, evals, m);
        let sent = verifier_oneshot::committed_values(queries, nb_committed_instances, evals, n);
        assert forall|q: int|
            0 <= q < n && (#[trigger] queries[q]).0 < nb_committed_instances implies {
            let i = queries.take(q).filter(below).len() as int;
            i < sent.len() && sent[i] == evals[q]
        } by {
            let i = queries.take(q).filter(below).len() as int;
            if q < m {
                assert(i < before.len());
                assert(sent[i] == before[i]);
            } else {
                assert(i == before.len());
            }
        }
    }
}

/// What is read after the round: the point of the proof is drawn, and the values of
/// the committed instance columns, of the advice columns and of the fixed columns
/// follow, each in its place; the value of the error terms comes last.
pub proof fn lemma_final_messages_in_place<F: PrimeField, M>(
    cs: &ConstraintSystem<F>,
    nb_committed_instances: nat,
    evals: &FinalEvals<F>,
)
    requires
        evals.instance_evals@.len() == cs.instance_queries@.len(),
        evals.advice_evals@.len() == cs.advice_queries@.len(),
        evals.fixed_evals@.len() == cs.fixed_queries@.len(),
    ensures
        ({
            let queries = cs.instance_queries@;
            let below = |q: (usize, i32)| q.0 < nb_committed_instances;
            let read = verifier_oneshot::final_messages::<F, M>(cs, nb_committed_instances, evals);
            let c = queries.filter(below).len() as int;
            let a = cs.advice_queries@.len() as int;
            let f = cs.fixed_queries@.len() as int;
            &&& read.len() == c + a + f + 2
            &&& verifier_oneshot::final_count(cs, nb_committed_instances) == read.len()
            &&& read[0] == Message::<M>::Challenge(evals.x.value())
            &&& forall|q: int|
                0 <= q < queries.len() && (#[trigger] queries[q]).0 < nb_committed_instances
                    ==> read[(1 + queries.take(q).filter(below).len()) as int] == Message::<M>::Scalar(
                    evals.instance_evals@[q].value(),
                )
            &&& forall|q: int|
                0 <= q < a ==> read[1 + c + q] == Message::<M>::Scalar(
                    #[trigger] evals.advice_evals@[q].value(),
                )
            &&& forall|q: int|
                0 <= q < f ==> read[1 + c + a + q] == Message::<M>::Scalar(
                    #[trigger] evals.fixed_evals@[q].value(),
                )
            &&& read[1 + c + a + f] == Message::<M>::Scalar(evals.correction_eval.value())
        }),
{
    let queries = cs.instance_queries@;
    let below = |q: (usize, i32)| q.0 < nb_committed_instances;
    let read = verifier_oneshot::final_messages::<F, M>(cs, nb_committed_instances, evals);
    let given = field::values(evals.instance_evals@);
    let c = queries.filter(below).len() as int;
    let a = cs.advice_queries@.len() as int;
    assert(queries.take(queries.len() as int) =~= queries);
    lemma_committed_values_in_place(queries, nb_committed_instances, given, queries.len());
    let sent = verifier_oneshot::committed_values(
        queries,
        nb_committed_instances,
        given,
        queries.len(),
    );
    assert forall|q: int|
        0 <= q < queries.len() && (#[trigger] queries[q]).0 < nb_committed_instances implies read[(1
        + queries.take(q).filter(below).len()) as int] == Message::<M>::Scalar(
        evals.instance_evals@[q].value(),
    ) by {
        let i = queries.take(q).filter(below).len() as int;
        assert(sent[i] == given[q]);
        assert(read[1 + i] == Message::<M>::Scalar(sent[i]));
    }
    assert forall|q: int| 0 <= q < a implies read[1 + c + q] == Message::<M>::Scalar(
        #[trigger] evals.advice_evals@[q].value(),
    ) by {
        assert(read[1 + c + q] == verifier_oneshot::scalars::<M>(
            field::values(evals.advice_evals@),
        )[q]);
    }
    assert forall|q: int| 0 <= q < cs.fixed_queries@.len() implies read[1 + c + a + q]
        == Message::<M>::Scalar(#[trigger] evals.fixed_evals@[q].value()) by {
        assert(read[1 + c + a + q] == verifier_oneshot::scalars::<M>(
            field::values(evals.fixed_evals@),
        )[q]);
    }
}

/// The range of the rotations is as narrow as it can be: each end of it is zero or
/// the rotation of a query.
pub proof fn lemma_rotations_are_reached(queries: Seq<(usize, i32)>, n: nat)
    requires
        n <= queries.len(),
    ensures
        ({
            let low = verifier_oneshot::least_rotation(queries, n);
            let high = verifier_oneshot::greatest_rotation(queries, n);
            &&& low == 0 || exists|q: int| 0 <= q < n && (#[trigger] queries[q]).1 == low
            &&& high == 0 || exists|q: int| 0 <= q < n && (#[trigger] queries[q]).1 == high
            &&& low <= 0 <= high
            &&& forall|q: int| 0 <= q < n ==> low <= (#[trigger] queries[q]).1 <= high
        }),
    decreases n,
{
    verifier_oneshot::lemma_rotations(queries, n);
    if n > 0 {
        lemma_rotations_are_reached(queries, (n - 1) as nat);
        let last = queries[n - 1];
    }
}

/// What a list of openings stands for has the point, the commitment and the value of
/// each opening of the list.
pub proof fn lemma_query_models_keep_all<F: PrimeField, C>(queries: Seq<VerifierQuery<F, C>>)
    ensures
        verifier_oneshot::query_models(queries).len() == queries.len(),
        forall|i: int|
            0 <= i < queries.len() ==> {
                let m = #[trigger] verifier_oneshot::query_models(queries)[i];
                &&& m.point == queries[i].point.value()
                &&& m.commitment == *queries[i].commitment
                &&& m.eval == queries[i].eval.value()
            },
{
}

/// What the check of a folded proof asks for holds what its parts hold: the openings
/// of the committed instances, of the folded advice columns, of the arguments, of the
/// fixed columns and of the closing ones, and two of the error terms. These have to
/// open, at the point of the proof, to the value that corrects the identities, and at
/// the challenge that joins the rows, to the error term of the verifier.
pub proof fn lemma_proof_openings_hold_all<
    F: PrimeField,
    CS: PolynomialCommitmentScheme<F>,
    const K: usize,
>(
    verifier: &ProtogalaxyVerifierOneShot<F, CS, K>,
    opening: &OneShotOpening<F, CS::Commitment>,
    k: nat,
    cs: &ConstraintSystem<F>,
    committed_instances: Seq<CS::Commitment>,
    fixed_commitments: Seq<CS::Commitment>,
    evals: &FinalEvals<F>,
    arguments: Seq<QueryModel<CS::Commitment>>,
    closing: Seq<QueryModel<CS::Commitment>>,
    ok: spec_fn(QueryModel<CS::Commitment>) -> bool,
)
    ensures
        ({
            let all = verifier.openings(
                opening,
                k,
                cs,
                committed_instances,
                fixed_commitments,
                evals,
                arguments,
                closing,
            );
            let of_instances = verifier_oneshot::column_openings::<F, CS::Commitment>(
                k,
                cs.instance_queries@,
                committed_instances.len(),
                committed_instances,
                field::values(evals.instance_evals@),
                evals.x.value(),
                cs.instance_queries@.len(),
            );
            let advice = verifier.verifier_folding_trace.advice@[0]@;
            let of_advice = verifier_oneshot::column_openings::<F, CS::Commitment>(
                k,
                cs.advice_queries@,
                advice.len(),
                advice,
                field::values(evals.advice_evals@),
                evals.x.value(),
                cs.advice_queries@.len(),
            );
            let of_fixed = verifier_oneshot::column_openings::<F, CS::Commitment>(
                k,
                cs.fixed_queries@,
                fixed_commitments.len(),
                fixed_commitments,
                field::values(evals.fixed_evals@),
                evals.x.value(),
                cs.fixed_queries@.len(),
            );
            let n = all.len();
            &&& n == of_instances.len() + of_advice.len() + arguments.len() + of_fixed.len()
                + closing.len() + 2
            &&& all[n - 2].commitment == opening.committed_error
            &&& all[n - 2].point == evals.x.value()
            &&& all[n - 2].eval == evals.correction_eval.value()
            &&& all[n - 1].commitment == opening.committed_error
            &&& all[n - 1].point == verifier.beta.value()
            &&& all[n - 1].eval == verifier.error_term.value()
            &&& (forall|i: int| 0 <= i < n ==> ok(#[trigger] all[i])) <==> {
                &&& forall|i: int| 0 <= i < of_instances.len() ==> ok(#[trigger] of_instances[i])
                &&& forall|i: int| 0 <= i < of_advice.len() ==> ok(#[trigger] of_advice[i])
                &&& forall|i: int| 0 <= i < arguments.len() ==> ok(#[trigger] arguments[i])
                &&& forall|i: int| 0 <= i < of_fixed.len() ==> ok(#[trigger] of_fixed[i])
                &&& forall|i: int| 0 <= i < closing.len() ==> ok(#[trigger] closing[i])
                &&& ok(all[n - 2])
                &&& ok(all[n - 1])
            }
        }),
{
    lemma_final_openings_hold_all::<F, CS::Commitment>(
        k,
        cs.instance_queries@,
        cs.advice_queries@,
        cs.fixed_queries@,
        committed_instances,
        verifier.verifier_folding_trace.advice@[0]@,
        fixed_commitments,
        arguments,
        closing,
        opening.committed_error,
        field::values(evals.instance_evals@),
        field::values(evals.advice_evals@),
        field::values(evals.fixed_evals@),
        evals.correction_eval.value(),
        evals.x.value(),
        verifier.beta.value(),
        verifier.error_term.value(),
        ok,
    );
}

/// One more value of an instance adds its multiple of the basis polynomial of its
/// row, rotated back.
pub proof fn lemma_instance_eval_of_one_more<F: PrimeField>(
    k: nat,
    instance: Seq<int>,
    value: int,
    rotation: int,
    x: int,
)
    ensures
        verifier_oneshot::instance_eval::<F>(k, Seq::empty(), rotation, x) == 0,
        residues::cong(
            verifier_oneshot::instance_eval::<F>(k, instance.push(value), rotation, x),
            verifier_oneshot::instance_eval::<F>(k, instance, rotation, x) + value
                * interpolation::lagrange::<F>(
                k,
                (instance.len() - rotation) % (pow2(k) as int),
                x,
            ),
            F::modulus(),
        ),
{
    F::lemma_field();
    let p = F::modulus();
    let n = instance.len();
    let longer = instance.push(value);
    let f = |j: int|
        instance[j] * interpolation::lagrange::<F>(k, domain::wrap(j - rotation, pow2(k)), x);
    let g = |j: int|
        longer[j] * interpolation::lagrange::<F>(k, domain::wrap(j - rotation, pow2(k)), x);
    residues::lemma_sum_eq(n, f, g);
    lemma_small_mod(0, p as nat);
    let s = residues::sum(n, f);
    assert(residues::sum(n + 1, g) == residues::sum(n, g) + g(n as int));
    residues::lemma_mod_cong(s, p);
    residues::lemma_mod_cong(s + g(n as int), p);
    residues::lemma_cong_ops(s % p, s, g(n as int), g(n as int), p);
}

} // verus!
