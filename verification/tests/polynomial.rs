use stir::polynomial::Polynomial;

const P: u64 = 257;

fn poly(coeffs: &[u64]) -> Polynomial {
    Polynomial::from_coeffs(coeffs.to_vec())
}

#[test]
fn constructors_have_the_documented_coefficients() {
    assert_eq!(Polynomial::zero().coeffs, Vec::<u64>::new());
    assert_eq!(Polynomial::one().coeffs, vec![1]);
    assert_eq!(Polynomial::monomial(5).coeffs, vec![5, 1]);
    assert_eq!(poly(&[3, 2, 1]).coeffs, vec![3, 2, 1]);
}

#[test]
fn zero_polynomial_reports_degree_zero_and_is_zero() {
    let z = Polynomial::zero();
    assert!(z.is_zero());
    assert_eq!(z.degree(), 0);
    let c = poly(&[5]);
    assert!(!c.is_zero());
    assert_eq!(c.degree(), 0);
    assert_eq!(poly(&[3, 2, 1]).degree(), 2);
}

#[test]
fn truncation_drops_trailing_zeros_only() {
    assert_eq!(poly(&[1, 2, 0, 0]).truncate_leading_zeros().coeffs, vec![1, 2]);
    assert_eq!(poly(&[0, 0]).truncate_leading_zeros().coeffs, Vec::<u64>::new());
    assert_eq!(poly(&[0, 1]).truncate_leading_zeros().coeffs, vec![0, 1]);
}

#[test]
fn evaluation_uses_horner_and_zero_evaluates_to_zero() {
    let a = poly(&[3, 2, 1]);
    assert_eq!(a.evaluate(&10), 123);
    assert_eq!(a.evaluate(&2), 11);
    assert_eq!(a.evaluate(&0), 3);
    assert_eq!(Polynomial::zero().evaluate(&7), 0);
}

#[test]
fn addition_and_subtraction_are_coefficient_wise() {
    let a = poly(&[3, 2, 1]);
    let b = poly(&[5, 1]);
    assert_eq!(a.add(&b).coeffs, vec![8, 3, 1]);
    assert_eq!(a.sub(&b).coeffs, vec![255, 1, 1]);
    assert_eq!(a.neg().coeffs, vec![254, 255, 256]);
}

#[test]
fn add_assign_accumulates() {
    let mut acc = Polynomial::default();
    assert!(acc.is_zero());
    acc.add_assign(&poly(&[1, 2]));
    acc.add_assign(&poly(&[0, 0, 3]));
    assert_eq!(acc.coeffs, vec![1, 2, 3]);
    let copy = acc.clone();
    assert!(copy == acc);
}

#[test]
fn addition_cancels_to_zero() {
    let a = poly(&[3, 2, 1]);
    let sum = a.add(&a.neg());
    assert!(sum.is_zero());
}

#[test]
fn add_then_sub_returns_the_first_summand() {
    let a = poly(&[7, 0, 200, 13]);
    let b = poly(&[250, 250, 9]);
    assert_eq!(a.add(&b).sub(&b).coeffs, a.coeffs);
}

#[test]
fn scalar_operations_touch_the_right_coefficients() {
    let a = poly(&[3, 2, 1]);
    assert_eq!(a.add_scalar(&10).coeffs, vec![13, 2, 1]);
    assert_eq!(a.sub_scalar(&5).coeffs, vec![255, 2, 1]);
    assert_eq!(a.mul_scalar(&2).coeffs, vec![6, 4, 2]);
    assert!(a.mul_scalar(&0).is_zero());
    assert_eq!(a.add_scalar(&0).coeffs, vec![3, 2, 1]);
    assert_eq!(poly(&[254]).add_scalar(&5).coeffs, vec![2]);
    assert!(poly(&[5]).sub_scalar(&5).is_zero());
}

#[test]
fn multiplication_concrete_product() {
    let a = poly(&[3, 2, 1]);
    let b = poly(&[5, 1]);
    assert_eq!(a.mul(&b).coeffs, vec![15, 13, 7, 1]);
    assert!(a.mul(&Polynomial::zero()).is_zero());
    assert!(Polynomial::zero().mul(&b).is_zero());
}

#[test]
fn multiplication_matches_naive_convolution() {
    let a: Vec<u64> = vec![3, 0, 250, 7, 99];
    let b: Vec<u64> = vec![256, 11, 0, 45];
    let product = poly(&a).mul(&poly(&b));
    let mut expected = vec![0u64; a.len() + b.len() - 1];
    for (i, &ca) in a.iter().enumerate() {
        for (j, &cb) in b.iter().enumerate() {
            expected[i + j] = (expected[i + j] + ca * cb) % P;
        }
    }
    while expected.last() == Some(&0) {
        expected.pop();
    }
    assert_eq!(product.coeffs, expected);
}

#[test]
fn product_folds_from_one() {
    let factors = vec![poly(&[5, 1]), poly(&[3, 1]), poly(&[2])];
    // (5 + x)(3 + x) * 2 == 30 + 16x + 2x^2.
    assert_eq!(Polynomial::product(&factors).coeffs, vec![30, 16, 2]);
    let empty: Vec<Polynomial> = vec![];
    assert_eq!(Polynomial::product(&empty).coeffs, vec![1]);
    let with_zero = vec![poly(&[5, 1]), Polynomial::zero()];
    assert!(Polynomial::product(&with_zero).is_zero());
}

#[test]
fn evaluation_is_multiplicative_over_products() {
    let a = poly(&[3, 2, 1]);
    let b = poly(&[5, 1]);
    let ab = a.mul(&b);
    for p in [0u64, 1, 2, 7, 100, 256] {
        assert_eq!(ab.evaluate(&p), a.evaluate(&p) * b.evaluate(&p) % P);
    }
    assert_eq!(ab.evaluate(&7), 21);
}

#[test]
fn division_returns_quotient_and_small_remainder() {
    let a = poly(&[5, 2, 0, 1]);
    let d = poly(&[1, 0, 1]);
    let (q, r) = a.divide_with_q_and_r(&d);
    assert_eq!(q.coeffs, vec![0, 1]);
    assert_eq!(r.coeffs, vec![5, 1]);
    // Recompose: q * d + r == a.
    let back = q.mul(&d).add(&r);
    assert_eq!(back.coeffs, a.coeffs);
}

#[test]
fn division_of_a_smaller_polynomial_returns_it_unchanged() {
    let a = poly(&[5, 1]);
    let d = poly(&[1, 0, 1]);
    let (q, r) = a.divide_with_q_and_r(&d);
    assert!(q.is_zero());
    assert_eq!(r.coeffs, vec![5, 1]);
}

#[test]
fn exact_division_recovers_the_factor() {
    let a = poly(&[3, 0, 250, 7, 99]);
    let b = poly(&[5, 1, 88]);
    let product = a.mul(&b);
    assert_eq!(product.div(&b).coeffs, a.coeffs);
    assert_eq!(product.div(&a).coeffs, b.coeffs);
}

#[test]
fn vanishing_polynomial_has_the_points_as_roots() {
    let points: Vec<u64> = vec![1, 2];
    let v = Polynomial::vanishing_polynomial(&points);
    assert_eq!(v.coeffs, vec![2, 254, 1]);
    assert_eq!(v.evaluate(&1), 0);
    assert_eq!(v.evaluate(&2), 0);
    assert_ne!(v.evaluate(&3), 0);
    let empty: Vec<u64> = vec![];
    assert_eq!(Polynomial::vanishing_polynomial(&empty).coeffs, vec![1]);
}

#[test]
fn vanishing_polynomial_is_monic_of_full_degree() {
    let points: Vec<u64> = vec![3, 100, 200, 256];
    let v = Polynomial::vanishing_polynomial(&points);
    assert_eq!(v.coeffs.len(), points.len() + 1);
    assert_eq!(*v.coeffs.last().unwrap(), 1);
    for p in points {
        assert_eq!(v.evaluate(&p), 0);
    }
}

#[test]
fn interpolation_hits_every_target_value() {
    let pairs: Vec<(u64, u64)> = vec![(1, 2), (2, 5), (3, 10)];
    let f = Polynomial::naive_interpolate(&pairs);
    // The unique answer is x^2 + 1.
    assert_eq!(f.coeffs, vec![1, 0, 1]);
    for (p, v) in pairs {
        assert_eq!(f.evaluate(&p), v);
    }
}

#[test]
fn interpolation_degree_is_below_the_point_count() {
    let pairs: Vec<(u64, u64)> = vec![(0, 7), (5, 7), (9, 0), (200, 41), (256, 1)];
    let f = Polynomial::naive_interpolate(&pairs);
    assert!(f.coeffs.len() <= pairs.len());
    for (p, v) in pairs {
        assert_eq!(f.evaluate(&p), v);
    }
}

#[test]
fn interpolation_of_constant_values() {
    let pairs: Vec<(u64, u64)> = vec![(4, 9), (11, 9)];
    let f = Polynomial::naive_interpolate(&pairs);
    assert_eq!(f.coeffs, vec![9]);
    let empty: Vec<(u64, u64)> = vec![];
    assert!(Polynomial::naive_interpolate(&empty).is_zero());
}

#[test]
fn interpolation_of_zero_values_is_the_zero_polynomial() {
    let pairs: Vec<(u64, u64)> = vec![(1, 0), (2, 0), (3, 0)];
    let f = Polynomial::naive_interpolate(&pairs);
    assert!(f.is_zero());
}
