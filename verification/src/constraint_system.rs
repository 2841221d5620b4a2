//! The custom gates of a circuit, with the queries that they make.
use crate::circuit::{self, Expression, Queried, QueriedPolynomials};
use crate::domain::{self, EvaluationDomain};
use crate::evaluator::{self, Evaluator, Selectors, SelectorsModel};
use crate::field::{self, PrimeField};
use crate::interpolation;
use crate::linear::{self, Linear};
use crate::polynomial;
use crate::residues;
use crate::traces::{self, FoldingProverTrace, ProverModel};
use vstd::arithmetic::div_mod::*;
use vstd::arithmetic::power2::*;
use vstd::prelude::*;

verus! {

/// The gates, and the columns and rotations of the queries that they make.
pub struct ConstraintSystem<F: PrimeField> {
    /// The gates.
    pub gates: Vec<Expression<F>>,
    /// The queries of fixed columns.
    pub fixed_queries: Vec<(usize, i32)>,
    /// The queries of advice columns.
    pub advice_queries: Vec<(usize, i32)>,
    /// The queries of instance columns.
    pub instance_queries: Vec<(usize, i32)>,
}

/// The queried columns exist and have 2^`k` rows.
pub open spec fn have_queried(columns: Seq<Seq<int>>, queries: Seq<(usize, i32)>, k: nat) -> bool {
    forall|q: int|
        0 <= q < queries.len() ==> (#[trigger] queries[q]).0 < columns.len()
            && columns[queries[q].0 as int].len() == pow2(k)
}

/// What the queries give in a row.
pub open spec fn queried_in_row(
    columns: Seq<Seq<int>>,
    queries: Seq<(usize, i32)>,
    k: nat,
    row: int,
) -> Seq<int> {
    Seq::new(
        queries.len(),
        |q: int| columns[queries[q].0 as int][domain::wrap(row + queries[q].1, pow2(k))],
    )
}

/// The greatest degree of the first `n` gates.
pub open spec fn max_degree<F: PrimeField>(
    gates: Seq<Expression<F>>,
    challenges: bool,
    n: nat,
) -> nat
    decreases n,
{
    if n == 0 {
        0
    } else {
        let d = max_degree(gates, challenges, (n - 1) as nat);
        let e = gates[n - 1].degree_of(challenges);
        if d >= e {
            d
        } else {
            e
        }
    }
}

proof fn lemma_max_degree<F: PrimeField>(
    gates: Seq<Expression<F>>,
    challenges: bool,
    n: nat,
    i: int,
)
    requires
        0 <= i < n <= gates.len(),
    ensures
        gates[i].degree_of(challenges) <= max_degree(gates, challenges, n),
    decreases n,
{
    if i < n - 1 {
        lemma_max_degree(gates, challenges, (n - 1) as nat, i);
    }
}

impl<F: PrimeField> ConstraintSystem<F> {
    /// What the queries of all gates give in a row.
    pub open spec fn queried(&self, k: nat, m: ProverModel, row: int) -> Queried {
        Queried {
            fixed: queried_in_row(m.trace.fixed, self.fixed_queries@, k, row),
            advice: queried_in_row(m.trace.advice[0], self.advice_queries@, k, row),
            instance: queried_in_row(m.instance_values[0], self.instance_queries@, k, row),
            challenges: m.trace.challenges,
        }
    }

    /// The sum of the gates in a row, each multiplied by its challenge.
    pub open spec fn row_value(&self, k: nat, m: ProverModel, row: int) -> int {
        residues::sum(
            self.gates@.len(),
            |g: int| m.trace.y[g] * self.gates@[g].meaning(self.queried(k, m, row)),
        ) % F::modulus()
    }

    /// Returns the greatest degree of the gates.
    fn greatest_degree(&self, challenges: bool) -> (r: u32)
        requires
            max_degree(self.gates@, challenges, self.gates@.len()) <= u32::MAX,
        ensures
            r == max_degree(self.gates@, challenges, self.gates@.len()),
    {
        let mut r: u32 = 0;
        for i in 0..self.gates.len()
            invariant
                r == max_degree(self.gates@, challenges, i as nat),
                max_degree(self.gates@, challenges, self.gates@.len()) <= u32::MAX,
        {
            proof {
                lemma_max_degree(self.gates@, challenges, self.gates@.len(), i as int);
            }
            let d: u32 = self.gates[i].degree(challenges);
            if d > r {
                r = d;
            }
        }
        r
    }
}

/// Tells whether the queried columns exist and have as many rows as the domain.
fn columns_queried<F: PrimeField>(
    domain: &EvaluationDomain<F>,
    columns: &Vec<Vec<F>>,
    queries: &Vec<(usize, i32)>,
) -> (r: bool)
    requires
        domain.wf(),
    ensures
        r == have_queried(columns.model(), queries@, domain.k as nat),
{
    let ghost m: Seq<Seq<int>> = columns.model();
    let n: usize = domain.n as usize;
    for q in 0..queries.len()
        invariant
            m == columns.model(),
            n == pow2(domain.k as nat),
            forall|l: int|
                0 <= l < q ==> (#[trigger] queries@[l]).0 < m.len()
                    && m[queries@[l].0 as int].len() == n,
    {
        let column: usize = queries[q].0;
        if column >= columns.len() {
            assert(queries@[q as int].0 >= m.len());
            return false;
        }
        assert(m[column as int].len() == columns@[column as int]@.len());
        if columns[column].len() != n {
            assert(m[queries@[q as int].0 as int].len() != n);
            return false;
        }
    }
    true
}

/// Returns what the queries give in a row.
fn query_row<F: PrimeField>(
    domain: &EvaluationDomain<F>,
    columns: &Vec<Vec<F>>,
    queries: &Vec<(usize, i32)>,
    row: usize,
) -> (r: Vec<F>)
    requires
        domain.wf(),
        have_queried(columns.model(), queries@, domain.k as nat),
        row < domain.size(),
    ensures
        field::values(r@) == queried_in_row(
            columns.model(),
            queries@,
            domain.k as nat,
            row as int,
        ),
        forall|q: int|
            0 <= q < queries@.len() ==> (#[trigger] r@[q]) == columns@[queries@[q].0 as int]@[(row
                + queries@[q].1) % (domain.size() as int)],
{
    let ghost m: Seq<Seq<int>> = columns.model();
    let ghost k = domain.k as nat;
    let ghost all = queried_in_row(m, queries@, k, row as int);
    let n: usize = domain.n as usize;
    let mut r: Vec<F> = Vec::new();
    for q in 0..queries.len()
        invariant
            domain.wf(),
            k == domain.k,
            n == pow2(k),
            row < n,
            m == columns.model(),
            have_queried(m, queries@, k),
            all == queried_in_row(m, queries@, k, row as int),
            r@.len() == q,
            forall|l: int| 0 <= l < q ==> #[trigger] r@[l].value() == all[l],
            forall|l: int|
                0 <= l < q ==> (#[trigger] r@[l]) == columns@[queries@[l].0 as int]@[(row
                    + queries@[l].1) % (n as int)],
    {
        let (column, rotation) = queries[q];
        let shift: usize = domain.row(rotation) as usize;
        proof {
            lemma_mod_bound(rotation as int, n as int);
        }
        let place: usize = if row >= n - shift {
            row - (n - shift)
        } else {
            row + shift
        };
        proof {
            lemma_add_mod_noop_right(row as int, rotation as int, n as int);
            if row >= n - shift {
                lemma_mod_add_multiples_vanish(place as int, n as int);
                lemma_small_mod(place as nat, n as nat);
            } else {
                lemma_small_mod(place as nat, n as nat);
            }
            assert(place == domain::wrap(row + rotation, n as nat));
            assert(m[column as int] == columns@[column as int].model());
            assert(m[column as int].len() == n);
            assert(m[column as int][place as int] == columns@[column as int]@[place as int].value());
        }
        r.push(columns[column][place]);
    }
    assert(field::values(r@) =~= all);
    r
}

/// The values of one cell of all parts, and the polynomial that takes them.
proof fn lemma_cell<F: PrimeField>(dk: nat, cells: Seq<int>, x: int)
    requires
        dk <= F::two_adicity(),
        cells.len() == pow2(dk),
    ensures
        residues::cong(
            polynomial::eval(interpolation::interpolate::<F>(cells, dk), x),
            <F as Linear<F>>::combined(interpolation::lagranges::<F>(dk, x), cells),
            F::modulus(),
        ),
{
    F::lemma_field();
    let p = F::modulus();
    let l = interpolation::lagranges::<F>(dk, x);
    interpolation::lemma_lagrange_combination::<F>(dk, cells, x);
    let f = |i: int| cells[i] * interpolation::lagrange::<F>(dk, i, x);
    let g = |i: int| l[i] * cells[i];
    assert forall|i: int| 0 <= i < pow2(dk) implies #[trigger] f(i) == g(i) by {
        let (a, b) = (cells[i], l[i]);
        assert(a * b == b * a) by (nonlinear_arith);
    }
    residues::lemma_sum_eq(pow2(dk), f, g);
    residues::lemma_mod_cong(polynomial::dot(l, cells), p);
}

/// The polynomials of what the queries give in a row.
spec fn query_polynomials<F: PrimeField>(
    dk: nat,
    columns: Seq<Seq<Seq<int>>>,
    queries: Seq<(usize, i32)>,
    k: nat,
    row: int,
) -> Seq<Seq<int>> {
    Seq::new(
        queries.len(),
        |q: int|
            interpolation::interpolate::<F>(
                Seq::new(columns.len(), |j: int| queried_in_row(columns[j], queries, k, row)[q]),
                dk,
            ),
    )
}

/// The polynomials of what the queries give take the values that the queries give
/// in an interpolated trace.
proof fn lemma_query_polynomials<F: PrimeField>(
    dk: nat,
    columns: Seq<Seq<Seq<int>>>,
    queries: Seq<(usize, i32)>,
    k: nat,
    row: int,
    x: int,
)
    requires
        dk <= F::two_adicity(),
        columns.len() == pow2(dk),
        linear::all_alike::<F, Vec<Vec<F>>>(columns),
        have_queried(columns[0], queries, k),
    ensures
        circuit::all_take_values(
            query_polynomials::<F>(dk, columns, queries, k, row),
            queried_in_row(
                <Vec<Vec<F>> as Linear<F>>::combined(
                    interpolation::lagranges::<F>(dk, x),
                    columns,
                ),
                queries,
                k,
                row,
            ),
            x,
            F::modulus(),
        ),
        circuit::all_have_len(query_polynomials::<F>(dk, columns, queries, k, row), pow2(dk)),
{
    let l = interpolation::lagranges::<F>(dk, x);
    let folded = <Vec<Vec<F>> as Linear<F>>::combined(l, columns);
    let polys = query_polynomials::<F>(dk, columns, queries, k, row);
    let v = queried_in_row(folded, queries, k, row);
    assert forall|q: int| 0 <= q < queries.len() implies residues::cong(
        polynomial::eval(#[trigger] polys[q], x),
        v[q],
        F::modulus(),
    ) by {
        let c = queries[q].0 as int;
        let place = domain::wrap(row + queries[q].1, pow2(k));
        lemma_pow2_pos(k);
        lemma_mod_bound(row + queries[q].1, pow2(k) as int);
        let cells = Seq::new(
            columns.len(),
            |j: int| queried_in_row(columns[j], queries, k, row)[q],
        );
        let col = linear::column(columns, c);
        assert(cells =~= linear::column(col, place));
        assert(col[0].len() == pow2(k));
        assert(folded[c] == <Vec<F> as Linear<F>>::combined(l, col));
        assert(folded[c][place] == <F as Linear<F>>::combined(l, linear::column(col, place)));
        lemma_cell::<F>(dk, cells, x);
    }
}

/// The polynomials of a list of elements.
spec fn list_polynomials<F: PrimeField>(dk: nat, lists: Seq<Seq<int>>) -> Seq<Seq<int>> {
    Seq::new(
        lists[0].len(),
        |i: int| interpolation::interpolate::<F>(linear::column(lists, i), dk),
    )
}

proof fn lemma_list_polynomials<F: PrimeField>(dk: nat, lists: Seq<Seq<int>>, x: int)
    requires
        dk <= F::two_adicity(),
        lists.len() == pow2(dk),
    ensures
        circuit::all_take_values(
            list_polynomials::<F>(dk, lists),
            <Vec<F> as Linear<F>>::combined(interpolation::lagranges::<F>(dk, x), lists),
            x,
            F::modulus(),
        ),
        circuit::all_have_len(list_polynomials::<F>(dk, lists), pow2(dk)),
{
    let polys = list_polynomials::<F>(dk, lists);
    let v = <Vec<F> as Linear<F>>::combined(interpolation::lagranges::<F>(dk, x), lists);
    assert forall|i: int| 0 <= i < polys.len() implies residues::cong(
        polynomial::eval(#[trigger] polys[i], x),
        v[i],
        F::modulus(),
    ) by {
        lemma_cell::<F>(dk, linear::column(lists, i), x);
    }
}

/// The sum of the first `n` gates, as polynomials, each multiplied by the
/// polynomial of its challenge.
spec fn gates_polynomial<F: PrimeField>(
    gates: Seq<Expression<F>>,
    q: QueriedPolynomials,
    y: Seq<Seq<int>>,
    n: nat,
) -> Seq<int>
    decreases n,
{
    if n == 0 {
        Seq::empty()
    } else {
        polynomial::plus(
            gates_polynomial(gates, q, y, (n - 1) as nat),
            polynomial::times(y[n - 1], gates[n - 1].polynomial(q)),
        )
    }
}

proof fn lemma_gates_polynomial<F: PrimeField>(
    gates: Seq<Expression<F>>,
    q: QueriedPolynomials,
    y: Seq<Seq<int>>,
    n: nat,
    size: nat,
    d: nat,
)
    requires
        n <= gates.len(),
        n <= y.len(),
        size > 0,
        q.have_len(size),
        circuit::all_have_len(y, size),
        forall|g: int|
            0 <= g < n ==> (#[trigger] gates[g]).within(
                q.fixed.len(),
                q.advice.len(),
                q.instance.len(),
                q.challenges.len(),
            ) && gates[g].degree_of(true) <= d,
    ensures
        gates_polynomial(gates, q, y, n).len() <= size * (d + 1),
    decreases n,
{
    if n > 0 {
        lemma_gates_polynomial(gates, q, y, (n - 1) as nat, size, d);
        let e = gates[n - 1];
        assert(e.within(q.fixed.len(), q.advice.len(), q.instance.len(), q.challenges.len()));
        e.lemma_polynomial_len(q, size);
        polynomial::lemma_times_len(y[n - 1], e.polynomial(q));
        let de = e.degree_of(true);
        assert(size + (de * (size - 1) + 1) - 1 <= size * (d + 1)) by (nonlinear_arith)
            requires
                de <= d,
                size > 0,
        ;
    } else {
        assert(0 <= size * (d + 1)) by (nonlinear_arith);
    }
}

proof fn lemma_gates_polynomial_eval<F: PrimeField>(
    gates: Seq<Expression<F>>,
    q: QueriedPolynomials,
    y: Seq<Seq<int>>,
    n: nat,
    v: Queried,
    w: Seq<int>,
    x: int,
)
    requires
        n <= gates.len(),
        n <= y.len(),
        q.take_values(v, x, F::modulus()),
        circuit::all_take_values(y, w, x, F::modulus()),
        forall|g: int|
            0 <= g < n ==> (#[trigger] gates[g]).within(
                q.fixed.len(),
                q.advice.len(),
                q.instance.len(),
                q.challenges.len(),
            ),
    ensures
        residues::cong(
            polynomial::eval(gates_polynomial(gates, q, y, n), x),
            residues::sum(n, |g: int| w[g] * gates[g].meaning(v)),
            F::modulus(),
        ),
    decreases n,
{
    F::lemma_field();
    let p = F::modulus();
    if n > 0 {
        let m = (n - 1) as nat;
        lemma_gates_polynomial_eval(gates, q, y, m, v, w, x);
        let e = gates[n - 1];
        assert(e.within(q.fixed.len(), q.advice.len(), q.instance.len(), q.challenges.len()));
        e.lemma_polynomial_eval(q, v, x);
        let below = gates_polynomial(gates, q, y, m);
        let last = polynomial::times(y[n - 1], e.polynomial(q));
        polynomial::lemma_eval_plus(below, last, x);
        polynomial::lemma_eval_times(y[n - 1], e.polynomial(q), x);
        assert(residues::cong(polynomial::eval(y[n - 1], x), w[n - 1], p));
        residues::lemma_cong_ops(
            polynomial::eval(y[n - 1], x),
            w[n - 1],
            polynomial::eval(e.polynomial(q), x),
            e.meaning(v),
            p,
        );
        residues::lemma_cong_ops(
            polynomial::eval(below, x),
            residues::sum(m, |g: int| w[g] * gates[g].meaning(v)),
            polynomial::eval(last, x),
            w[n - 1] * e.meaning(v),
            p,
        );
    } else {
        assert(polynomial::eval(Seq::<int>::empty(), x) == 0);
    }
}

impl<F: PrimeField> Evaluator<F> for ConstraintSystem<F> {
    open spec fn accepts(&self, k: nat, s: SelectorsModel, m: ProverModel) -> bool {
        &&& m.trace.advice.len() > 0
        &&& m.instance_values.len() > 0
        &&& have_queried(m.trace.fixed, self.fixed_queries@, k)
        &&& have_queried(m.trace.advice[0], self.advice_queries@, k)
        &&& have_queried(m.instance_values[0], self.instance_queries@, k)
        &&& self.gates@.len() <= m.trace.y.len()
        &&& forall|g: int|
            0 <= g < self.gates@.len() ==> (#[trigger] self.gates@[g]).within(
                self.fixed_queries@.len(),
                self.advice_queries@.len(),
                self.instance_queries@.len(),
                m.trace.challenges.len(),
            )
    }

    open spec fn h(&self, k: nat, s: SelectorsModel, m: ProverModel) -> Seq<int> {
        Seq::new(pow2(k), |row: int| self.row_value(k, m, row))
    }

    open spec fn folding_degree_of(&self) -> nat {
        max_degree(self.gates@, true, self.gates@.len()) + 2
    }

    open spec fn degree_of(&self) -> nat {
        max_degree(self.gates@, false, self.gates@.len())
    }

    proof fn lemma_accepts(&self, k: nat, s: SelectorsModel, a: ProverModel, b: ProverModel) {
        assert(<Vec<Vec<F>> as Linear<F>>::alike(b.trace.fixed, a.trace.fixed));
        assert(<Vec<Vec<F>> as Linear<F>>::alike(b.trace.advice[0], a.trace.advice[0]));
        assert(<Vec<Vec<F>> as Linear<F>>::alike(b.instance_values[0], a.instance_values[0]));
    }

    proof fn lemma_rows(&self, k: nat, s: SelectorsModel, m: ProverModel) {
        F::lemma_field();
        assert forall|i: int| 0 <= i < pow2(k) implies 0 <= #[trigger] self.h(k, s, m)[i]
            < F::modulus() by {
            lemma_mod_bound(
                residues::sum(
                    self.gates@.len(),
                    |g: int| m.trace.y[g] * self.gates@[g].meaning(self.queried(k, m, i)),
                ),
                F::modulus(),
            );
        }
    }

    proof fn lemma_reads(&self, k: nat, s: SelectorsModel, a: ProverModel, b: ProverModel) {
        assert forall|row: int| 0 <= row < pow2(k) implies #[trigger] self.row_value(k, a, row)
            == self.row_value(k, b, row) by {
            assert(self.queried(k, a, row) =~= self.queried(k, b, row));
        }
        assert(self.h(k, s, a) =~= self.h(k, s, b));
    }

    proof fn lemma_degree(
        &self,
        k: nat,
        s: SelectorsModel,
        dk: nat,
        parts: Seq<ProverModel>,
        row: int,
    ) -> (c: Seq<int>) {
        let t = traces::every_trace(parts);
        let fixed = traces::all_fixed(t);
        let advice = traces::all_advice(t);
        let instance = traces::every_instance_values(parts);
        let challenges = traces::all_challenges(t);
        let y = traces::all_y(t);
        let n = self.gates@.len();
        assert forall|j: int| 0 <= j < parts.len() implies <Vec<Vec<F>> as Linear<F>>::alike(
            #[trigger] fixed[j],
            fixed[0],
        ) && <Vec<Vec<Vec<F>>> as Linear<F>>::alike(advice[j], advice[0]) && <Vec<
            Vec<Vec<F>>,
        > as Linear<F>>::alike(instance[j], instance[0]) by {
            assert(<FoldingProverTrace<F> as Linear<F>>::alike(parts[j], parts[0]));
        }
        let advice_columns = linear::column(advice, 0);
        let instance_columns = linear::column(instance, 0);
        assert(linear::all_alike::<F, Vec<Vec<F>>>(fixed));
        assert(linear::all_alike::<F, Vec<Vec<F>>>(advice_columns)) by {
            assert forall|j: int| 0 <= j < parts.len() implies <Vec<Vec<F>> as Linear<F>>::alike(
                #[trigger] advice_columns[j],
                advice_columns[0],
            ) by {
                assert(<Vec<Vec<F>> as Linear<F>>::alike(fixed[j], fixed[0]));
                assert(<Vec<Vec<F>> as Linear<F>>::alike(advice[j][0], advice[0][0]));
            }
        }
        assert(linear::all_alike::<F, Vec<Vec<F>>>(instance_columns)) by {
            assert forall|j: int| 0 <= j < parts.len() implies <Vec<Vec<F>> as Linear<F>>::alike(
                #[trigger] instance_columns[j],
                instance_columns[0],
            ) by {
                assert(<Vec<Vec<F>> as Linear<F>>::alike(fixed[j], fixed[0]));
                assert(<Vec<Vec<F>> as Linear<F>>::alike(instance[j][0], instance[0][0]));
            }
        }
        let q = QueriedPolynomials {
            fixed: query_polynomials::<F>(dk, fixed, self.fixed_queries@, k, row),
            advice: query_polynomials::<F>(dk, advice_columns, self.advice_queries@, k, row),
            instance: query_polynomials::<F>(dk, instance_columns, self.instance_queries@, k, row),
            challenges: list_polynomials::<F>(dk, challenges),
        };
        let yp = list_polynomials::<F>(dk, y);
        let c = gates_polynomial(self.gates@, q, yp, n);
        lemma_pow2_pos(dk);
        assert forall|x: int|
            residues::cong(
                self.h(k, s, evaluator::folded_at::<F>(dk, parts, x))[row],
                #[trigger] polynomial::eval(c, x),
                F::modulus(),
            ) by {
            let folded = evaluator::folded_at::<F>(dk, parts, x);
            let v = self.queried(k, folded, row);
            lemma_query_polynomials::<F>(dk, fixed, self.fixed_queries@, k, row, x);
            lemma_query_polynomials::<F>(dk, advice_columns, self.advice_queries@, k, row, x);
            lemma_query_polynomials::<F>(dk, instance_columns, self.instance_queries@, k, row, x);
            lemma_list_polynomials::<F>(dk, challenges, x);
            lemma_list_polynomials::<F>(dk, y, x);
            lemma_gates_polynomial_eval(self.gates@, q, yp, n, v, folded.trace.y, x);
            F::lemma_field();
            residues::lemma_mod_cong(
                residues::sum(n, |g: int| folded.trace.y[g] * self.gates@[g].meaning(v)),
                F::modulus(),
            );
        }
        lemma_query_polynomials::<F>(dk, fixed, self.fixed_queries@, k, row, 0);
        lemma_query_polynomials::<F>(dk, advice_columns, self.advice_queries@, k, row, 0);
        lemma_query_polynomials::<F>(dk, instance_columns, self.instance_queries@, k, row, 0);
        lemma_list_polynomials::<F>(dk, challenges, 0);
        lemma_list_polynomials::<F>(dk, y, 0);
        let d = max_degree(self.gates@, true, n);
        assert forall|g: int| 0 <= g < n implies (#[trigger] self.gates@[g]).degree_of(true)
            <= d by {
            lemma_max_degree(self.gates@, true, n, g);
        }
        lemma_gates_polynomial(self.gates@, q, yp, n, pow2(dk), d);
        c
    }

    fn folding_degree(&self) -> (r: u32) {
        self.greatest_degree(true) + 2
    }

    fn degree(&self) -> (r: u32) {
        self.greatest_degree(false)
    }

    fn reads(
        &self,
        domain: &EvaluationDomain<F>,
        selectors: &Selectors<F>,
        trace: &FoldingProverTrace<F>,
    ) -> (r: bool) {
        let ghost m = trace.model();
        if trace.trace.advice.len() == 0 || trace.instance_values.len() == 0 || trace.trace.y.len()
            < self.gates.len() {
            return false;
        }
        proof {
            assert(m.trace.advice[0] == trace.trace.advice@[0].model());
            assert(m.instance_values[0] == trace.instance_values@[0].model());
        }
        if !columns_queried(domain, &trace.trace.fixed, &self.fixed_queries) || !columns_queried(
            domain,
            &trace.trace.advice[0],
            &self.advice_queries,
        ) || !columns_queried(domain, &trace.instance_values[0], &self.instance_queries) {
            return false;
        }
        for g in 0..self.gates.len()
            invariant
                m == trace.model(),
                forall|l: int|
                    0 <= l < g ==> (#[trigger] self.gates@[l]).within(
                        self.fixed_queries@.len(),
                        self.advice_queries@.len(),
                        self.instance_queries@.len(),
                        m.trace.challenges.len(),
                    ),
        {
            if !self.gates[g].is_within(
                self.fixed_queries.len(),
                self.advice_queries.len(),
                self.instance_queries.len(),
                trace.trace.challenges.len(),
            ) {
                assert(!self.gates@[g as int].within(
                    self.fixed_queries@.len(),
                    self.advice_queries@.len(),
                    self.instance_queries@.len(),
                    m.trace.challenges.len(),
                ));
                return false;
            }
        }
        true
    }

    fn evaluate_h(
        &self,
        domain: &EvaluationDomain<F>,
        selectors: &Selectors<F>,
        trace: &FoldingProverTrace<F>,
    ) -> (r: Vec<F>) {
        let ghost p = F::modulus();
        let ghost m = trace.model();
        let ghost k = domain.k as nat;
        let n: usize = domain.n as usize;
        let mut r: Vec<F> = Vec::new();
        proof {
            F::lemma_field();
            assert(m.trace.advice[0] == trace.trace.advice@[0].model());
            assert(m.instance_values[0] == trace.instance_values@[0].model());
            assert(m.trace.challenges =~= field::values(trace.trace.challenges@));
            assert(m.trace.y =~= field::values(trace.trace.y@));
        }
        for row in 0..n
            invariant
                domain.wf(),
                p == F::modulus(),
                p > 3,
                k == domain.k,
                n == pow2(k),
                m == trace.model(),
                self.accepts(k, selectors.model(), m),
                m.trace.advice[0] == trace.trace.advice@[0].model(),
                m.instance_values[0] == trace.instance_values@[0].model(),
                m.trace.challenges == field::values(trace.trace.challenges@),
                m.trace.y == field::values(trace.trace.y@),
                r@.len() == row,
                forall|i: int| 0 <= i < row ==> #[trigger] r@[i].value() == self.row_value(k, m, i),
        {
            let fixed = query_row(domain, &trace.trace.fixed, &self.fixed_queries, row);
            let advice = query_row(domain, &trace.trace.advice[0], &self.advice_queries, row);
            let instance = query_row(domain, &trace.instance_values[0], &self.instance_queries, row);
            let ghost q = self.queried(k, m, row as int);
            let ghost f = |g: int| m.trace.y[g] * self.gates@[g].meaning(q);
            let mut acc = F::zero();
            assert(field::values(fixed@).len() == fixed@.len());
            assert(field::values(advice@).len() == advice@.len());
            assert(field::values(instance@).len() == instance@.len());
            for g in 0..self.gates.len()
                invariant
                    p == F::modulus(),
                    p > 3,
                    self.accepts(k, selectors.model(), m),
                    fixed@.len() == self.fixed_queries@.len(),
                    advice@.len() == self.advice_queries@.len(),
                    instance@.len() == self.instance_queries@.len(),
                    m.trace.challenges == field::values(trace.trace.challenges@),
                    m.trace.y == field::values(trace.trace.y@),
                    q == (Queried {
                        fixed: field::values(fixed@),
                        advice: field::values(advice@),
                        instance: field::values(instance@),
                        challenges: field::values(trace.trace.challenges@),
                    }),
                    f == (|g: int| m.trace.y[g] * self.gates@[g].meaning(q)),
                    0 <= acc.value() < p,
                    residues::cong(acc.value(), residues::sum(g as nat, f), p),
            {
                let v = self.gates[g].evaluate(
                    &fixed,
                    &advice,
                    &instance,
                    &trace.trace.challenges,
                );
                let t = trace.trace.y[g].mul(&v);
                proof {
                    let e = self.gates@[g as int].meaning(q);
                    let c = m.trace.y[g as int];
                    assert(c == trace.trace.y@[g as int].value());
                    residues::lemma_mod_cong(e, p);
                    residues::lemma_cong_ops(c, c, v.value(), e, p);
                    residues::lemma_mod_cong(c * v.value(), p);
                    residues::lemma_cong_ops(
                        acc.value(),
                        residues::sum(g as nat, f),
                        t.value(),
                        f(g as int),
                        p,
                    );
                    residues::lemma_mod_cong(acc.value() + t.value(), p);
                }
                acc = acc.add(&t);
            }
            proof {
                residues::lemma_residue_is(
                    acc.value(),
                    residues::sum(self.gates@.len(), f),
                    p,
                );
            }
            r.push(acc);
        }
        assert(field::values(r@) =~= self.h(k, selectors.model(), m));
        r
    }
}

} // verus!
