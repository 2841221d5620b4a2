//! Values that can be combined linearly, component by component.
use crate::field::{self, PrimeField};
use crate::polynomial;
use crate::residues;
use vstd::prelude::*;

verus! {

/// A value made of components that are combined with coefficients in a field.
pub trait Linear<F: PrimeField>: Sized {
    /// What the value stands for.
    type Model;

    /// What this value stands for.
    spec fn model(&self) -> Self::Model;

    /// Two values have the same number of components, in the same arrangement.
    spec fn alike(a: Self::Model, b: Self::Model) -> bool;

    /// The sum of the parts, each multiplied by its coefficient.
    spec fn combined(coeffs: Seq<int>, parts: Seq<Self::Model>) -> Self::Model;

    /// All components are residues.
    spec fn reduced(m: Self::Model) -> bool;

    /// The components of a value are residues.
    proof fn lemma_reduced(&self)
        ensures
            Self::reduced(self.model()),
    ;

    /// A coefficient of one picks its part, where all others are zero.
    proof fn lemma_combined_unit(coeffs: Seq<int>, parts: Seq<Self::Model>, l: int)
        requires
            0 <= l < parts.len(),
            coeffs.len() == parts.len(),
            forall|j: int| 0 <= j < parts.len() ==> Self::alike(#[trigger] parts[j], parts[0]),
            Self::reduced(parts[l]),
            forall|j: int|
                0 <= j < coeffs.len() ==> #[trigger] coeffs[j] == if j == l {
                    1int
                } else {
                    0
                },
        ensures
            Self::combined(coeffs, parts) == parts[l],
    ;

    /// Equal parts give that part back, where the coefficients sum up to one.
    proof fn lemma_combined_same(coeffs: Seq<int>, parts: Seq<Self::Model>)
        requires
            parts.len() > 0,
            coeffs.len() == parts.len(),
            forall|j: int| 0 <= j < parts.len() ==> #[trigger] parts[j] == parts[0],
            Self::reduced(parts[0]),
            residues::cong(residues::sum(coeffs.len(), |j: int| coeffs[j]), 1, F::modulus()),
        ensures
            Self::combined(coeffs, parts) == parts[0],
    ;

    /// To be alike is an equivalence.
    proof fn lemma_alike(a: Self::Model, b: Self::Model, c: Self::Model)
        ensures
            Self::alike(a, a),
            Self::alike(a, b) ==> Self::alike(b, a),
            Self::alike(a, b) && Self::alike(b, c) ==> Self::alike(a, c),
    ;

    /// A combination is like its parts.
    proof fn lemma_combined_alike(coeffs: Seq<int>, parts: Seq<Self::Model>)
        requires
            parts.len() > 0,
            forall|j: int| 0 <= j < parts.len() ==> Self::alike(#[trigger] parts[j], parts[0]),
        ensures
            Self::alike(Self::combined(coeffs, parts), parts[0]),
    ;

    /// Returns the sum of the parts, each multiplied by its coefficient.
    fn combine(parts: &Vec<&Self>, coeffs: &Vec<F>) -> (r: Self)
        requires
            parts@.len() == coeffs@.len(),
            parts@.len() > 0,
            forall|j: int|
                0 <= j < parts@.len() ==> Self::alike(
                    (#[trigger] parts@[j]).model(),
                    parts@[0].model(),
                ),
        ensures
            r.model() == Self::combined(
                field::values(coeffs@),
                Seq::new(parts@.len(), |j: int| parts@[j].model()),
            ),
    ;

    /// Tells whether two values have the same arrangement.
    fn is_like(&self, other: &Self) -> (r: bool)
        ensures
            r == Self::alike(self.model(), other.model()),
    ;

    /// Tells whether two values stand for the same.
    fn same(&self, other: &Self) -> (r: bool)
        ensures
            r == (self.model() == other.model()),
    ;
}

/// What the parts stand for.
pub open spec fn models<F: PrimeField, T: Linear<F>>(parts: Seq<&T>) -> Seq<T::Model> {
    Seq::new(parts.len(), |j: int| parts[j].model())
}

/// There is a part, and all parts are like the first.
pub open spec fn all_alike<F: PrimeField, T: Linear<F>>(parts: Seq<T::Model>) -> bool {
    &&& parts.len() > 0
    &&& forall|j: int| 0 <= j < parts.len() ==> T::alike(#[trigger] parts[j], parts[0])
}

/// The components at the place `i` of all parts.
pub open spec fn column<M>(parts: Seq<Seq<M>>, i: int) -> Seq<M> {
    Seq::new(parts.len(), |j: int| parts[j][i])
}

impl<F: PrimeField> Linear<F> for F {
    type Model = int;

    open spec fn model(&self) -> int {
        self.value()
    }

    open spec fn alike(a: int, b: int) -> bool {
        true
    }

    open spec fn combined(coeffs: Seq<int>, parts: Seq<int>) -> int {
        polynomial::dot(coeffs, parts) % F::modulus()
    }

    open spec fn reduced(m: int) -> bool {
        0 <= m < F::modulus()
    }

    proof fn lemma_reduced(&self) {
        self.lemma_value();
    }

    proof fn lemma_combined_unit(coeffs: Seq<int>, parts: Seq<int>, l: int) {
        let p = F::modulus();
        let f = |j: int| coeffs[j] * parts[j];
        assert forall|j: int| 0 <= j < parts.len() && j != l implies residues::cong(
            #[trigger] f(j),
            0,
            p,
        ) by {
            assert(coeffs[j] == 0);
            assert(0 * parts[j] == 0);
        }
        residues::lemma_sum_single(parts.len(), f, l, p);
        assert(coeffs[l] == 1);
        assert(f(l) == 1 * parts[l]);
        residues::lemma_residue_is(parts[l], parts[l], p);
    }

    proof fn lemma_combined_same(coeffs: Seq<int>, parts: Seq<int>) {
        F::lemma_field();
        let p = F::modulus();
        let (n, m) = (coeffs.len(), parts[0]);
        let c = |j: int| coeffs[j];
        let f = |j: int| coeffs[j] * parts[j];
        let g = |j: int| c(j) * m;
        assert forall|j: int| 0 <= j < n implies #[trigger] f(j) == g(j) by {
            assert(parts[j] == m);
        }
        residues::lemma_sum_eq(n, f, g);
        residues::lemma_sum_scale(n, c, m);
        let one = residues::sum(n, c);
        residues::lemma_cong_ops(one, 1, m, m, p);
        assert(1 * m == m);
        residues::lemma_residue_is(m, one * m, p);
    }

    proof fn lemma_alike(a: int, b: int, c: int) {
    }

    fn is_like(&self, other: &Self) -> (r: bool) {
        true
    }

    fn same(&self, other: &Self) -> (r: bool) {
        self.is(other)
    }

    proof fn lemma_combined_alike(coeffs: Seq<int>, parts: Seq<int>) {
    }

    fn combine(parts: &Vec<&Self>, coeffs: &Vec<F>) -> (r: Self) {
        let ghost p = F::modulus();
        let ghost a = field::values(coeffs@);
        let ghost b = Seq::new(parts@.len(), |j: int| parts@[j].value());
        let ghost f = |j: int| a[j] * b[j];
        let mut r = F::zero();
        proof {
            F::lemma_field();
        }
        for j in 0..parts.len()
            invariant
                p == F::modulus(),
                p > 3,
                a == field::values(coeffs@),
                b == Seq::new(parts@.len(), |j: int| parts@[j].value()),
                f == (|j: int| a[j] * b[j]),
                parts@.len() == coeffs@.len(),
                0 <= r.value() < p,
                residues::cong(r.value(), residues::sum(j as nat, f), p),
        {
            let t = coeffs[j].mul(parts[j]);
            proof {
                let v = r.value();
                residues::lemma_mod_cong(a[j as int] * b[j as int], p);
                residues::lemma_cong_ops(
                    v,
                    residues::sum(j as nat, f),
                    t.value(),
                    f(j as int),
                    p,
                );
                residues::lemma_mod_cong(v + t.value(), p);
            }
            r = r.add(&t);
        }
        proof {
            assert(b =~= Seq::new(parts@.len(), |j: int| parts@[j].model()));
            residues::lemma_residue_is(r.value(), polynomial::dot(a, b), p);
        }
        r
    }
}

/// What the components of a list stand for.
pub open spec fn list_model<F: PrimeField, T: Linear<F>>(s: Seq<T>) -> Seq<T::Model> {
    Seq::new(s.len(), |i: int| s[i].model())
}

/// Two lists have the same length, and components that are alike.
pub open spec fn lists_alike<F: PrimeField, T: Linear<F>>(
    a: Seq<T::Model>,
    b: Seq<T::Model>,
) -> bool {
    &&& a.len() == b.len()
    &&& forall|i: int| 0 <= i < a.len() ==> T::alike(#[trigger] a[i], b[i])
}

impl<F: PrimeField, T: Linear<F>> Linear<F> for Vec<T> {
    type Model = Seq<T::Model>;

    open spec fn model(&self) -> Seq<T::Model> {
        list_model::<F, T>(self@)
    }

    open spec fn alike(a: Seq<T::Model>, b: Seq<T::Model>) -> bool {
        lists_alike::<F, T>(a, b)
    }

    open spec fn combined(coeffs: Seq<int>, parts: Seq<Seq<T::Model>>) -> Seq<T::Model> {
        Seq::new(parts[0].len(), |i: int| T::combined(coeffs, column(parts, i)))
    }

    open spec fn reduced(m: Seq<T::Model>) -> bool {
        forall|i: int| 0 <= i < m.len() ==> T::reduced(#[trigger] m[i])
    }

    proof fn lemma_reduced(&self) {
        assert forall|i: int| 0 <= i < self@.len() implies T::reduced(
            #[trigger] list_model::<F, T>(self@)[i],
        ) by {
            self@[i].lemma_reduced();
        }
    }

    proof fn lemma_combined_unit(coeffs: Seq<int>, parts: Seq<Seq<T::Model>>, l: int) {
        assert(lists_alike::<F, T>(parts[l], parts[0]));
        assert forall|i: int| 0 <= i < parts[l].len() implies #[trigger] T::combined(
            coeffs,
            column(parts, i),
        ) == parts[l][i] by {
            lemma_column_alike::<F, T>(parts, i);
            T::lemma_combined_unit(coeffs, column(parts, i), l);
        }
        assert(Self::combined(coeffs, parts) =~= parts[l]);
    }

    proof fn lemma_combined_same(coeffs: Seq<int>, parts: Seq<Seq<T::Model>>) {
        let r = Self::combined(coeffs, parts);
        assert forall|i: int| 0 <= i < r.len() implies #[trigger] r[i] == parts[0][i] by {
            let c = column(parts, i);
            assert forall|j: int| 0 <= j < c.len() implies #[trigger] c[j] == c[0] by {
                assert(parts[j] == parts[0]);
            }
            T::lemma_combined_same(coeffs, c);
        }
        assert(r =~= parts[0]);
    }

    fn is_like(&self, other: &Self) -> (r: bool) {
        let ghost (a, b) = (list_model::<F, T>(self@), list_model::<F, T>(other@));
        if self.len() != other.len() {
            return false;
        }
        for i in 0..self.len()
            invariant
                self@.len() == other@.len(),
                a == list_model::<F, T>(self@),
                b == list_model::<F, T>(other@),
                forall|l: int| 0 <= l < i ==> T::alike(#[trigger] a[l], b[l]),
        {
            if !self[i].is_like(&other[i]) {
                assert(!T::alike(a[i as int], b[i as int]));
                return false;
            }
        }
        true
    }

    fn same(&self, other: &Self) -> (r: bool) {
        let ghost (a, b) = (list_model::<F, T>(self@), list_model::<F, T>(other@));
        if self.len() != other.len() {
            assert(a.len() != b.len());
            return false;
        }
        for i in 0..self.len()
            invariant
                self@.len() == other@.len(),
                a == list_model::<F, T>(self@),
                b == list_model::<F, T>(other@),
                forall|l: int| 0 <= l < i ==> #[trigger] a[l] == b[l],
        {
            if !self[i].same(&other[i]) {
                assert(a[i as int] != b[i as int]);
                return false;
            }
        }
        assert(a =~= b);
        true
    }

    proof fn lemma_alike(a: Seq<T::Model>, b: Seq<T::Model>, c: Seq<T::Model>) {
        assert forall|i: int| 0 <= i < a.len() implies T::alike(#[trigger] a[i], a[i]) by {
            T::lemma_alike(a[i], a[i], a[i]);
        }
        if lists_alike::<F, T>(a, b) {
            assert forall|i: int| 0 <= i < b.len() implies T::alike(#[trigger] b[i], a[i]) by {
                assert(T::alike(a[i], b[i]));
                T::lemma_alike(a[i], b[i], b[i]);
            }
        }
        if lists_alike::<F, T>(a, b) && lists_alike::<F, T>(b, c) {
            assert forall|i: int| 0 <= i < a.len() implies T::alike(#[trigger] a[i], c[i]) by {
                assert(T::alike(a[i], b[i]));
                assert(T::alike(b[i], c[i]));
                T::lemma_alike(a[i], b[i], c[i]);
            }
        }
    }

    proof fn lemma_combined_alike(coeffs: Seq<int>, parts: Seq<Seq<T::Model>>) {
        let r = Self::combined(coeffs, parts);
        assert forall|i: int| 0 <= i < r.len() implies T::alike(#[trigger] r[i], parts[0][i]) by {
            lemma_column_alike::<F, T>(parts, i);
            T::lemma_combined_alike(coeffs, column(parts, i));
        }
    }

    fn combine(parts: &Vec<&Self>, coeffs: &Vec<F>) -> (r: Self) {
        let ghost m = Seq::new(parts@.len(), |j: int| list_model::<F, T>(parts@[j]@));
        proof {
            assert forall|j: int| 0 <= j < m.len() implies lists_alike::<F, T>(
                #[trigger] m[j],
                m[0],
            ) by {
                assert(parts@[j].model() == m[j]);
            }
        }
        let ghost c = field::values(coeffs@);
        let n: usize = parts[0].len();
        let mut r: Vec<T> = Vec::new();
        for i in 0..n
            invariant
                m == Seq::new(parts@.len(), |j: int| list_model::<F, T>(parts@[j]@)),
                c == field::values(coeffs@),
                parts@.len() == coeffs@.len(),
                forall|l: int|
                    0 <= l < m.len() ==> lists_alike::<F, T>(#[trigger] m[l], m[0]),
                m.len() > 0,
                n == m[0].len(),
                r@.len() == i,
                forall|l: int|
                    0 <= l < i ==> (#[trigger] r@[l]).model() == T::combined(c, column(m, l)),
        {
            let mut refs: Vec<&T> = Vec::new();
            for j in 0..parts.len()
                invariant
                    i < n,
                    m == Seq::new(parts@.len(), |j: int| list_model::<F, T>(parts@[j]@)),
                    forall|l: int|
                        0 <= l < m.len() ==> lists_alike::<F, T>(#[trigger] m[l], m[0]),
                    m.len() > 0,
                    n == m[0].len(),
                    refs@.len() == j,
                    forall|l: int| 0 <= l < j ==> (#[trigger] refs@[l]).model() == m[l][i as int],
            {
                proof {
                    assert(lists_alike::<F, T>(m[j as int], m[0]));
                    assert(m[j as int].len() == parts@[j as int]@.len());
                }
                refs.push(&parts[j][i]);
            }
            proof {
                assert(Seq::new(refs@.len(), |j: int| refs@[j].model()) =~= column(m, i as int));
                lemma_column_alike::<F, T>(m, i as int);
            }
            r.push(T::combine(&refs, coeffs));
        }
        proof {
            assert(m =~= Seq::new(parts@.len(), |j: int| parts@[j].model()));
            assert(list_model::<F, T>(r@) =~= Seq::new(
                m[0].len(),
                |i: int| T::combined(c, column(m, i)),
            ));
        }
        r
    }
}

/// The columns of parts that are alike are alike.
pub proof fn lemma_column_alike<F: PrimeField, T: Linear<F>>(parts: Seq<Seq<T::Model>>, i: int)
    requires
        parts.len() > 0,
        forall|j: int| 0 <= j < parts.len() ==> lists_alike::<F, T>(#[trigger] parts[j], parts[0]),
        0 <= i < parts[0].len(),
    ensures
        all_alike::<F, T>(column(parts, i)),
{
    let c = column(parts, i);
    assert forall|j: int| 0 <= j < c.len() implies T::alike(#[trigger] c[j], c[0]) by {
        assert(lists_alike::<F, T>(parts[j], parts[0]));
        assert(T::alike(parts[j][i], parts[0][i]));
    }
}

/// The sum of values with weights.
pub open spec fn weighted(v: Seq<int>, w: spec_fn(int) -> int) -> int {
    residues::sum(v.len(), |i: int| v[i] * w(i))
}

/// A sum with weights of a combination is the combination of the sums.
pub proof fn lemma_weighted_combined<F: PrimeField>(
    coeffs: Seq<int>,
    parts: Seq<Seq<int>>,
    w: spec_fn(int) -> int,
    sums: Seq<int>,
)
    requires
        all_alike::<F, Vec<F>>(parts),
        coeffs.len() == parts.len(),
        sums.len() == parts.len(),
        forall|j: int|
            0 <= j < parts.len() ==> residues::cong(
                #[trigger] sums[j],
                weighted(parts[j], w),
                F::modulus(),
            ),
    ensures
        residues::cong(
            weighted(<Vec<F> as Linear<F>>::combined(coeffs, parts), w),
            polynomial::dot(coeffs, sums),
            F::modulus(),
        ),
{
    F::lemma_field();
    let p = F::modulus();
    let n = parts[0].len();
    let m = parts.len();
    let c = <Vec<F> as Linear<F>>::combined(coeffs, parts);
    let term = |i: int, j: int| coeffs[j] * parts[j][i] * w(i);
    residues::lemma_sum_exchange(n, m, term);
    let f = |i: int| c[i] * w(i);
    let rows = |i: int| residues::sum(m, |j: int| term(i, j));
    assert forall|i: int| 0 <= i < n implies residues::cong(#[trigger] f(i), rows(i), p) by {
        let col = column(parts, i);
        let g = |j: int| coeffs[j] * col[j];
        let gw = |j: int| g(j) * w(i);
        let row = |j: int| term(i, j);
        residues::lemma_sum_scale(m, g, w(i));
        residues::lemma_sum_eq(m, gw, row);
        let d = polynomial::dot(coeffs, col);
        residues::lemma_mod_cong(d, p);
        residues::lemma_cong_ops(d % p, d, w(i), w(i), p);
    }
    residues::lemma_sum_cong(n, f, rows, p);
    let h = |j: int| coeffs[j] * sums[j];
    let columns = |j: int| residues::sum(n, |i: int| term(i, j));
    assert forall|j: int| 0 <= j < m implies residues::cong(#[trigger] h(j), columns(j), p) by {
        assert(<Vec<F> as Linear<F>>::alike(parts[j], parts[0]));
        let g = |i: int| parts[j][i] * w(i);
        let cg = |i: int| coeffs[j] * g(i);
        let column = |i: int| term(i, j);
        residues::lemma_sum_scale(n, g, coeffs[j]);
        assert forall|i: int| 0 <= i < n implies #[trigger] cg(i) == column(i) by {
            let (a, b, d) = (coeffs[j], parts[j][i], w(i));
            assert(a * (b * d) == a * b * d) by (nonlinear_arith);
        }
        residues::lemma_sum_eq(n, cg, column);
        residues::lemma_cong_ops(coeffs[j], coeffs[j], sums[j], weighted(parts[j], w), p);
    }
    residues::lemma_sum_cong(m, h, columns, p);
}

} // verus!
