//! Circuits: the identities that the rows of a trace have to satisfy.
use crate::field::{self, PrimeField};
use crate::polynomial;
use crate::residues;
use vstd::prelude::*;

verus! {

/// An expression over the queried columns and the challenges.
#[derive(Debug)]
pub enum Expression<F: PrimeField> {
    /// A constant.
    Constant(F),
    /// What a query of a fixed column gives.
    Fixed(usize),
    /// What a query of an advice column gives.
    Advice(usize),
    /// What a query of an instance column gives.
    Instance(usize),
    /// A challenge.
    Challenge(usize),
    /// The negation of an expression.
    Negated(Box<Expression<F>>),
    /// The sum of two expressions.
    Sum(Box<Expression<F>>, Box<Expression<F>>),
    /// The product of two expressions.
    Product(Box<Expression<F>>, Box<Expression<F>>),
    /// An expression times a constant.
    Scaled(Box<Expression<F>>, F),
}

/// What queries and challenges give.
#[verifier::ext_equal]
pub struct Queried {
    pub fixed: Seq<int>,
    pub advice: Seq<int>,
    pub instance: Seq<int>,
    pub challenges: Seq<int>,
}

impl<F: PrimeField> Expression<F> {
    /// Queries and challenges are among as many as are given.
    pub open spec fn within(
        &self,
        fixed: nat,
        advice: nat,
        instance: nat,
        challenges: nat,
    ) -> bool
        decreases self,
    {
        match self {
            Expression::Constant(_) => true,
            Expression::Fixed(i) => *i < fixed,
            Expression::Advice(i) => *i < advice,
            Expression::Instance(i) => *i < instance,
            Expression::Challenge(i) => *i < challenges,
            Expression::Negated(a) => a.within(fixed, advice, instance, challenges),
            Expression::Sum(a, b) => a.within(fixed, advice, instance, challenges) && b.within(
                fixed,
                advice,
                instance,
                challenges,
            ),
            Expression::Product(a, b) => a.within(fixed, advice, instance, challenges)
                && b.within(fixed, advice, instance, challenges),
            Expression::Scaled(a, _) => a.within(fixed, advice, instance, challenges),
        }
    }

    /// The value of the expression, up to multiples of the modulus.
    pub open spec fn meaning(&self, q: Queried) -> int
        decreases self,
    {
        match self {
            Expression::Constant(c) => c.value(),
            Expression::Fixed(i) => q.fixed[*i as int],
            Expression::Advice(i) => q.advice[*i as int],
            Expression::Instance(i) => q.instance[*i as int],
            Expression::Challenge(i) => q.challenges[*i as int],
            Expression::Negated(a) => -a.meaning(q),
            Expression::Sum(a, b) => a.meaning(q) + b.meaning(q),
            Expression::Product(a, b) => a.meaning(q) * b.meaning(q),
            Expression::Scaled(a, c) => a.meaning(q) * c.value(),
        }
    }

    /// How many queries are multiplied with each other at most; challenges count
    /// too, where `challenges` says so.
    pub open spec fn degree_of(&self, challenges: bool) -> nat
        decreases self,
    {
        match self {
            Expression::Constant(_) => 0,
            Expression::Fixed(_) => 1,
            Expression::Advice(_) => 1,
            Expression::Instance(_) => 1,
            Expression::Challenge(_) => if challenges {
                1
            } else {
                0
            },
            Expression::Negated(a) => a.degree_of(challenges),
            Expression::Sum(a, b) => if a.degree_of(challenges) >= b.degree_of(challenges) {
                a.degree_of(challenges)
            } else {
                b.degree_of(challenges)
            },
            Expression::Product(a, b) => a.degree_of(challenges) + b.degree_of(challenges),
            Expression::Scaled(a, _) => a.degree_of(challenges),
        }
    }

    /// Tells whether queries and challenges are among as many as are given.
    pub fn is_within(
        &self,
        fixed: usize,
        advice: usize,
        instance: usize,
        challenges: usize,
    ) -> (r: bool)
        ensures
            r == self.within(fixed as nat, advice as nat, instance as nat, challenges as nat),
        decreases self,
    {
        match self {
            Expression::Constant(_) => true,
            Expression::Fixed(i) => *i < fixed,
            Expression::Advice(i) => *i < advice,
            Expression::Instance(i) => *i < instance,
            Expression::Challenge(i) => *i < challenges,
            Expression::Negated(a) => a.is_within(fixed, advice, instance, challenges),
            Expression::Sum(a, b) => a.is_within(fixed, advice, instance, challenges)
                && b.is_within(fixed, advice, instance, challenges),
            Expression::Product(a, b) => a.is_within(fixed, advice, instance, challenges)
                && b.is_within(fixed, advice, instance, challenges),
            Expression::Scaled(a, _) => a.is_within(fixed, advice, instance, challenges),
        }
    }

    /// Returns the value of the expression, given what queries and challenges
    /// give.
    pub fn evaluate(
        &self,
        fixed: &Vec<F>,
        advice: &Vec<F>,
        instance: &Vec<F>,
        challenges: &Vec<F>,
    ) -> (r: F)
        requires
            self.within(fixed@.len(), advice@.len(), instance@.len(), challenges@.len()),
        ensures
            r.value() == self.meaning(
                (Queried {
                    fixed: field::values(fixed@),
                    advice: field::values(advice@),
                    instance: field::values(instance@),
                    challenges: field::values(challenges@),
                }),
            ) % F::modulus(),
        decreases self,
    {
        let ghost p = F::modulus();
        let ghost q = Queried {
            fixed: field::values(fixed@),
            advice: field::values(advice@),
            instance: field::values(instance@),
            challenges: field::values(challenges@),
        };
        proof {
            F::lemma_field();
        }
        match self {
            Expression::Constant(c) => {
                let r = *c;
                proof {
                    r.lemma_value();
                    residues::lemma_residue_is(r.value(), r.value(), p);
                }
                r
            },
            Expression::Fixed(i) => {
                let r = fixed[*i];
                proof {
                    r.lemma_value();
                    residues::lemma_residue_is(r.value(), r.value(), p);
                }
                r
            },
            Expression::Advice(i) => {
                let r = advice[*i];
                proof {
                    r.lemma_value();
                    residues::lemma_residue_is(r.value(), r.value(), p);
                }
                r
            },
            Expression::Instance(i) => {
                let r = instance[*i];
                proof {
                    r.lemma_value();
                    residues::lemma_residue_is(r.value(), r.value(), p);
                }
                r
            },
            Expression::Challenge(i) => {
                let r = challenges[*i];
                proof {
                    r.lemma_value();
                    residues::lemma_residue_is(r.value(), r.value(), p);
                }
                r
            },
            Expression::Negated(a) => {
                let x = a.evaluate(fixed, advice, instance, challenges);
                proof {
                    residues::lemma_mod_cong(a.meaning(q), p);
                    residues::lemma_cong_ops(0, 0, x.value(), a.meaning(q), p);
                }
                F::zero().sub(&x)
            },
            Expression::Sum(a, b) => {
                let x = a.evaluate(fixed, advice, instance, challenges);
                let y = b.evaluate(fixed, advice, instance, challenges);
                proof {
                    residues::lemma_mod_cong(a.meaning(q), p);
                    residues::lemma_mod_cong(b.meaning(q), p);
                    residues::lemma_cong_ops(x.value(), a.meaning(q), y.value(), b.meaning(q), p);
                }
                x.add(&y)
            },
            Expression::Product(a, b) => {
                let x = a.evaluate(fixed, advice, instance, challenges);
                let y = b.evaluate(fixed, advice, instance, challenges);
                proof {
                    residues::lemma_mod_cong(a.meaning(q), p);
                    residues::lemma_mod_cong(b.meaning(q), p);
                    residues::lemma_cong_ops(x.value(), a.meaning(q), y.value(), b.meaning(q), p);
                }
                x.mul(&y)
            },
            Expression::Scaled(a, c) => {
                let x = a.evaluate(fixed, advice, instance, challenges);
                proof {
                    residues::lemma_mod_cong(a.meaning(q), p);
                    residues::lemma_cong_ops(x.value(), a.meaning(q), c.value(), c.value(), p);
                }
                x.mul(c)
            },
        }
    }

    /// Returns how many queries are multiplied with each other at most.
    pub fn degree(&self, challenges: bool) -> (r: u32)
        requires
            self.degree_of(challenges) <= u32::MAX,
        ensures
            r == self.degree_of(challenges),
        decreases self,
    {
        match self {
            Expression::Constant(_) => 0,
            Expression::Fixed(_) => 1,
            Expression::Advice(_) => 1,
            Expression::Instance(_) => 1,
            Expression::Challenge(_) => if challenges {
                1
            } else {
                0
            },
            Expression::Negated(a) => a.degree(challenges),
            Expression::Sum(a, b) => {
                let x: u32 = a.degree(challenges);
                let y: u32 = b.degree(challenges);
                if x >= y {
                    x
                } else {
                    y
                }
            },
            Expression::Product(a, b) => {
                let x: u32 = a.degree(challenges);
                let y: u32 = b.degree(challenges);
                x + y
            },
            Expression::Scaled(a, _) => a.degree(challenges),
        }
    }

    /// The coefficients of the expression, where what queries and challenges give
    /// are themselves polynomials.
    pub open spec fn polynomial(&self, q: QueriedPolynomials) -> Seq<int>
        decreases self,
    {
        match self {
            Expression::Constant(c) => seq![c.value()],
            Expression::Fixed(i) => q.fixed[*i as int],
            Expression::Advice(i) => q.advice[*i as int],
            Expression::Instance(i) => q.instance[*i as int],
            Expression::Challenge(i) => q.challenges[*i as int],
            Expression::Negated(a) => polynomial::scaled(a.polynomial(q), -1),
            Expression::Sum(a, b) => polynomial::plus(a.polynomial(q), b.polynomial(q)),
            Expression::Product(a, b) => polynomial::times(a.polynomial(q), b.polynomial(q)),
            Expression::Scaled(a, c) => polynomial::scaled(a.polynomial(q), c.value()),
        }
    }

    /// An expression of degree d in polynomials of degree n - 1 is a polynomial of
    /// degree d (n - 1).
    pub proof fn lemma_polynomial_len(&self, q: QueriedPolynomials, n: nat)
        requires
            n > 0,
            q.have_len(n),
            self.within(q.fixed.len(), q.advice.len(), q.instance.len(), q.challenges.len()),
        ensures
            1 <= self.polynomial(q).len() <= self.degree_of(true) * (n - 1) + 1,
        decreases self,
    {
        let m = (n - 1) as nat;
        assert(0 * m == 0);
        assert(1 * m == m);
        match self {
            Expression::Negated(a) => {
                a.lemma_polynomial_len(q, n);
            },
            Expression::Scaled(a, _) => {
                a.lemma_polynomial_len(q, n);
            },
            Expression::Sum(a, b) => {
                a.lemma_polynomial_len(q, n);
                b.lemma_polynomial_len(q, n);
                let (d, e) = (a.degree_of(true), b.degree_of(true));
                assert(d <= e ==> d * m <= e * m) by (nonlinear_arith);
                assert(e <= d ==> e * m <= d * m) by (nonlinear_arith);
            },
            Expression::Product(a, b) => {
                a.lemma_polynomial_len(q, n);
                b.lemma_polynomial_len(q, n);
                polynomial::lemma_times_len(a.polynomial(q), b.polynomial(q));
                let (d, e) = (a.degree_of(true), b.degree_of(true));
                assert((d + e) * m == d * m + e * m) by (nonlinear_arith);
            },
            _ => {},
        }
    }

    /// The polynomial of an expression takes the values of the expression.
    pub proof fn lemma_polynomial_eval(&self, q: QueriedPolynomials, v: Queried, x: int)
        requires
            self.within(q.fixed.len(), q.advice.len(), q.instance.len(), q.challenges.len()),
            q.take_values(v, x, F::modulus()),
        ensures
            residues::cong(polynomial::eval(self.polynomial(q), x), self.meaning(v), F::modulus()),
        decreases self,
    {
        F::lemma_field();
        let p = F::modulus();
        match self {
            Expression::Constant(c) => {
                let s = seq![c.value()];
                polynomial::lemma_eval_first(s, x);
                assert(s.skip(1) =~= Seq::<int>::empty());
                assert(polynomial::eval(Seq::<int>::empty(), x) == 0);
                assert(x * 0 == 0);
            },
            Expression::Fixed(i) => {
                assert(residues::cong(
                    polynomial::eval(q.fixed[*i as int], x),
                    v.fixed[*i as int],
                    p,
                ));
            },
            Expression::Advice(i) => {
                assert(residues::cong(
                    polynomial::eval(q.advice[*i as int], x),
                    v.advice[*i as int],
                    p,
                ));
            },
            Expression::Instance(i) => {
                assert(residues::cong(
                    polynomial::eval(q.instance[*i as int], x),
                    v.instance[*i as int],
                    p,
                ));
            },
            Expression::Challenge(i) => {
                assert(residues::cong(
                    polynomial::eval(q.challenges[*i as int], x),
                    v.challenges[*i as int],
                    p,
                ));
            },
            Expression::Negated(a) => {
                a.lemma_polynomial_eval(q, v, x);
                let e = polynomial::eval(a.polynomial(q), x);
                polynomial::lemma_eval_scaled(a.polynomial(q), -1, x);
                residues::lemma_cong_ops(0, 0, e, a.meaning(v), p);
                assert(-1 * e == -e);
            },
            Expression::Sum(a, b) => {
                a.lemma_polynomial_eval(q, v, x);
                b.lemma_polynomial_eval(q, v, x);
                let (c, d) = (a.polynomial(q), b.polynomial(q));
                polynomial::lemma_eval_plus(c, d, x);
                residues::lemma_cong_ops(
                    polynomial::eval(c, x),
                    a.meaning(v),
                    polynomial::eval(d, x),
                    b.meaning(v),
                    p,
                );
            },
            Expression::Product(a, b) => {
                a.lemma_polynomial_eval(q, v, x);
                b.lemma_polynomial_eval(q, v, x);
                let (c, d) = (a.polynomial(q), b.polynomial(q));
                polynomial::lemma_eval_times(c, d, x);
                residues::lemma_cong_ops(
                    polynomial::eval(c, x),
                    a.meaning(v),
                    polynomial::eval(d, x),
                    b.meaning(v),
                    p,
                );
            },
            Expression::Scaled(a, c) => {
                a.lemma_polynomial_eval(q, v, x);
                let e = polynomial::eval(a.polynomial(q), x);
                polynomial::lemma_eval_scaled(a.polynomial(q), c.value(), x);
                residues::lemma_cong_ops(e, a.meaning(v), c.value(), c.value(), p);
                assert(c.value() * e == e * c.value()) by (nonlinear_arith);
            },
        }
    }
}

/// What queries and challenges give, where they are polynomials.
#[verifier::ext_equal]
pub struct QueriedPolynomials {
    pub fixed: Seq<Seq<int>>,
    pub advice: Seq<Seq<int>>,
    pub instance: Seq<Seq<int>>,
    pub challenges: Seq<Seq<int>>,
}

/// All polynomials have `n` coefficients.
pub open spec fn all_have_len(s: Seq<Seq<int>>, n: nat) -> bool {
    forall|i: int| 0 <= i < s.len() ==> (#[trigger] s[i]).len() == n
}

/// The polynomials take the values `v` at `x`.
pub open spec fn all_take_values(s: Seq<Seq<int>>, v: Seq<int>, x: int, p: int) -> bool {
    &&& s.len() == v.len()
    &&& forall|i: int|
        0 <= i < s.len() ==> residues::cong(polynomial::eval(#[trigger] s[i], x), v[i], p)
}

impl QueriedPolynomials {
    /// All polynomials have `n` coefficients.
    pub open spec fn have_len(&self, n: nat) -> bool {
        &&& all_have_len(self.fixed, n)
        &&& all_have_len(self.advice, n)
        &&& all_have_len(self.instance, n)
        &&& all_have_len(self.challenges, n)
    }

    /// The polynomials take the values `v` at `x`.
    pub open spec fn take_values(&self, v: Queried, x: int, p: int) -> bool {
        &&& all_take_values(self.fixed, v.fixed, x, p)
        &&& all_take_values(self.advice, v.advice, x, p)
        &&& all_take_values(self.instance, v.instance, x, p)
        &&& all_take_values(self.challenges, v.challenges, x, p)
    }
}

} // verus!
