//! Fields, evaluation domains, and products of challenges.
use protogalaxy::domain::{has_room, lagrange_evals_at, power_of_two, EvaluationDomain};
use protogalaxy::fft::best_fft;
use protogalaxy::field::{pow_vartime, PrimeField};
use protogalaxy::folding;
use protogalaxy::fq::Fq;
use protogalaxy::goldilocks::{Goldilocks, ORDER};
use protogalaxy::polynomial::eval_polynomial;
use protogalaxy::powers::{pow_i, pow_vec};
use protogalaxy::u256::U256;

fn fq(v: u64) -> Fq {
    Fq::from(v)
}

fn g(v: u64) -> Goldilocks {
    Goldilocks::from(v)
}

fn minus(v: u64) -> Goldilocks {
    Goldilocks::zero().sub(&g(v))
}

#[test]
fn lagrange_poly_test() {
    const K: usize = 9;
    let pk_domain_size = 1 << K;
    let domain: EvaluationDomain<Fq> = EvaluationDomain::new(4, K as u32);

    let beta = Fq::from(0x9E37_79B9_7F4A_7C15);

    let lagrange_on_beta = lagrange_evals_at(&domain, &beta);

    // Now we compute the same values using lagrange polynomials
    let mut lagrange_polys = Vec::with_capacity(pk_domain_size);
    for i in 0..pk_domain_size {
        let mut l_i = domain.empty_lagrange();
        l_i[i] = Fq::one();

        let l_coeff = domain.lagrange_to_coeff(&l_i);
        lagrange_polys.push(l_coeff);
    }

    let pk_domain_size = domain.n as usize;

    for i in 0..pk_domain_size {
        let eval = eval_polynomial(&lagrange_polys[i], &beta);
        assert!(eval.is(&lagrange_on_beta[i]));
    }
}

#[test]
fn scalar_field_arithmetic() {
    let modulus = U256::from([
        0xffffffff00000001,
        0x53bda402fffe5bfe,
        0x3339d80809a1d805,
        0x73eda753299d7d48,
    ]);
    assert!(Fq::from_words(&modulus).is(&Fq::zero()));
    let last = Fq::zero().sub(&Fq::one());
    assert_eq!(last.to_words(), modulus.sub(&U256::from_u64(1)).0);
    assert!(last.add(&fq(2)).is(&Fq::one()));
    assert!(last.mul(&last).is(&Fq::one()));
    assert!(fq(6).mul(&fq(7)).is(&fq(42)));
    assert!(fq(6).sub(&fq(7)).is(&last));
    assert!(!fq(6).is(&fq(7)));
    // The constants.
    assert!(Fq::two_inv().add(&Fq::two_inv()).is(&Fq::one()));
    assert!(Fq::three_inv().mul(&fq(3)).is(&Fq::one()));
    let z = Fq::zeta();
    assert!(z.mul(&z).add(&z).add(&Fq::one()).is(&Fq::zero()));
    assert!(pow_vartime(&Fq::root_of_unity(), 1 << 31).is(&last));
    assert_eq!(Fq::s(), 32);
}

#[test]
fn word_field_arithmetic() {
    assert_eq!(g(ORDER), g(0));
    assert_eq!(g(ORDER + 5).residue(), 5);
    assert_eq!(minus(1).residue(), ORDER - 1);
    assert_eq!(minus(1).add(&g(3)), g(2));
    assert_eq!(minus(2).mul(&minus(3)), g(6));
    assert_eq!(Goldilocks::two_inv().mul(&g(2)), g(1));
    assert_eq!(Goldilocks::three_inv().mul(&g(3)), g(1));
    let z = Goldilocks::zeta();
    assert_eq!(z.mul(&z).add(&z).add(&g(1)), g(0));
    assert_eq!(pow_vartime(&Goldilocks::root_of_unity(), 1 << 31), minus(1));
    assert_eq!(pow_vartime(&g(3), 5), g(243));
    assert_eq!(pow_vartime(&g(3), 0), g(1));
}

#[test]
fn polynomials_are_evaluated() {
    assert_eq!(eval_polynomial(&vec![g(1), g(2), g(3)], &g(10)), g(321));
    assert_eq!(eval_polynomial(&vec![], &g(10)), g(0));
}

#[test]
fn domains_have_the_least_extension() {
    let d: EvaluationDomain<Goldilocks> = EvaluationDomain::new(5, 2);
    assert_eq!((d.n, d.k, d.extended_k, d.quotient_poly_degree), (4, 2, 4, 4));
    let d: EvaluationDomain<Goldilocks> = EvaluationDomain::new(6, 2);
    assert_eq!((d.n, d.extended_k, d.quotient_poly_degree), (4, 5, 5));
    assert_eq!(d.extended_len(), 32);
    let d: EvaluationDomain<Goldilocks> = EvaluationDomain::new(2, 0);
    assert_eq!((d.n, d.extended_k), (1, 0));
    assert_eq!(d.omega, g(1));
    assert_eq!(power_of_two(0), 1);
    assert_eq!(power_of_two(63), 1 << 63);
}

#[test]
fn transforms_undo_each_other() {
    let d: EvaluationDomain<Goldilocks> = EvaluationDomain::new(4, 3);
    let coeffs = (0..8).map(|i| g(i * i + 7)).collect::<Vec<_>>();
    let values = d.coeff_to_lagrange(&coeffs);
    let mut x = g(1);
    for v in &values {
        assert_eq!(*v, eval_polynomial(&coeffs, &x));
        x = x.mul(&d.omega);
    }
    assert_eq!(d.lagrange_to_coeff(&values), coeffs);
    assert_eq!(best_fft(&coeffs, &d.omega, 3), values);

    let extended = d.coeff_to_extended(&coeffs);
    let mut x = Goldilocks::zeta();
    for v in &extended {
        assert_eq!(*v, eval_polynomial(&coeffs, &x));
        x = x.mul(&d.extended_omega);
    }
    let mut back = d.extended_to_coeff(&extended);
    assert_eq!(back.len(), 24);
    assert!(back.split_off(8).iter().all(|c| *c == g(0)));
    assert_eq!(back, coeffs);
}

#[test]
fn interpolation_on_two_points() {
    // The points 1 and -1: the polynomial is (a + b) / 2 + X (a - b) / 2.
    let d: EvaluationDomain<Goldilocks> = EvaluationDomain::new(2, 1);
    assert_eq!(d.lagrange_to_coeff(&vec![g(10), g(4)]), vec![g(7), g(3)]);
    assert_eq!(d.coeff_to_lagrange(&vec![g(7), g(3)]), vec![g(10), g(4)]);
    assert_eq!(lagrange_evals_at(&d, &g(5)), vec![g(3), minus(2)]);
}

#[test]
fn basis_polynomials_are_one_at_their_point() {
    let d: EvaluationDomain<Goldilocks> = EvaluationDomain::new(2, 2);
    let mut x = g(1);
    for j in 0..4 {
        let l = lagrange_evals_at(&d, &x);
        for (i, v) in l.iter().enumerate() {
            assert_eq!(*v, g((i == j) as u64));
        }
        x = x.mul(&d.omega);
    }
    // What is interpolated is the combination of the values with the basis.
    let values = vec![g(3), g(1), g(4), g(15)];
    let l = lagrange_evals_at(&d, &g(926));
    let mut sum = g(0);
    for i in 0..4 {
        sum = sum.add(&values[i].mul(&l[i]));
    }
    assert_eq!(sum, eval_polynomial(&d.lagrange_to_coeff(&values), &g(926)));
}

#[test]
fn division_by_the_vanishing_polynomial() {
    let d: EvaluationDomain<Goldilocks> = EvaluationDomain::new(4, 1);
    // (X^2 - 1) (5 + 3 X) = -5 - 3 X + 5 X^2 + 3 X^3, on the coset.
    let product = vec![minus(5), minus(3), g(5), g(3)];
    let mut values = vec![];
    let mut x = Goldilocks::zeta();
    for _ in 0..d.extended_len() {
        values.push(eval_polynomial(&product, &x));
        x = x.mul(&d.extended_omega);
    }
    let quotient = d.extended_to_coeff(&d.divide_by_vanishing_poly(&values));
    assert_eq!(quotient, vec![g(5), g(3), g(0), g(0), g(0), g(0)]);
    assert_eq!(folding::quotient_poly(&d, &values), quotient);
    assert_eq!(folding::eval_vanishing(&d, &g(7)), g(48));
}

#[test]
fn rotations_wrap() {
    let d: EvaluationDomain<Goldilocks> = EvaluationDomain::new(2, 2);
    let x = g(1000);
    assert_eq!(d.rotate_omega(&x, 0), x);
    assert_eq!(d.rotate_omega(&x, 1), x.mul(&d.omega));
    assert_eq!(d.rotate_omega(&x, -1), x.mul(&d.omega_inv));
    assert_eq!(d.rotate_omega(&x, -4), x);
    assert_eq!(d.rotate_omega(&x, 6), d.rotate_omega(&x, 2));
    assert_eq!((d.row(-1), d.row(-4), d.row(5)), (3, 0, 1));
    let l = lagrange_evals_at(&d, &x);
    assert_eq!(d.l_i_range(&x, -2, 3), vec![l[2], l[3], l[0], l[1], l[2]]);
    // The basis polynomial of a row at a rotated point is that of the row before.
    let rotated = lagrange_evals_at(&d, &x.mul(&d.omega));
    assert_eq!(rotated, vec![l[3], l[0], l[1], l[2]]);
}

#[test]
fn products_of_challenges() {
    let powers = [g(2), g(3), g(5)];
    let one = g(1);
    let p: Goldilocks = pow_i(&powers, 5, &one);
    assert_eq!(p, g(10));
    let p: Goldilocks = pow_i(&powers, 0, &g(7));
    assert_eq!(p, g(7));
    // Bits beyond the powers do not count.
    let p: Goldilocks = pow_i(&powers, 8, &one);
    assert_eq!(p, g(1));
    // Polynomials are multiplied place by place.
    let polys = [vec![g(1), g(2)], vec![g(3), g(4)]];
    let p: Vec<Goldilocks> = pow_i(&polys, 3, &vec![g(1), g(10)]);
    assert_eq!(p, vec![g(3), g(80)]);
    // For the sets 1 to 7, and the empty one.
    let expected = [2, 3, 6, 5, 10, 15, 30, 1].iter().map(|v| g(*v)).collect::<Vec<_>>();
    assert_eq!(pow_vec(&powers), expected);
}

#[test]
fn challenges_of_the_next_round() {
    let deltas: [Goldilocks; 4] = folding::repeated_squares(&g(3));
    assert_eq!(deltas, [g(3), g(9), g(81), g(6561)]);
    let next = folding::shift_challenges(&[g(1), g(2)], &[g(10), g(100)], &g(7));
    assert_eq!(next, [g(71), g(702)]);
    let rows = vec![g(4), g(5), g(6), g(9)];
    // 4 * 2 + 5 * 3 + 6 * 6 + 9 * 1.
    assert_eq!(folding::join_rows(&rows, &[g(2), g(3)]), g(68));
    // Rows beyond the products do not count.
    assert_eq!(folding::join_rows(&rows, &[g(2)]), g(13));
}

#[test]
fn sizes_are_measured() {
    assert_eq!(folding::exact_log2(1), 0);
    assert_eq!(folding::exact_log2(4096), 12);
    let lengths = [0, 1, 2, 3, 13, 16].map(folding::bit_length);
    assert_eq!(lengths, [0, 1, 2, 2, 4, 5]);
}

#[test]
fn roots_of_unity_run_out() {
    assert!(has_room::<Goldilocks>(2, 32));
    assert!(!has_room::<Goldilocks>(3, 32));
    assert!(has_room::<Goldilocks>(3, 31));
    assert!(!has_room::<Goldilocks>(1, 33));
    assert!(!has_room::<Goldilocks>(0, 1));
    assert!(has_room::<Fq>(5, 20));
}

#[test]
fn basis_polynomials_sum_up_to_one() {
    let d: EvaluationDomain<Goldilocks> = EvaluationDomain::new(2, 3);
    for x in [0, 1, 17, 123456789] {
        let sum = lagrange_evals_at(&d, &g(x)).iter().fold(g(0), |s, l| s.add(l));
        assert_eq!(sum, g(1));
    }
}
