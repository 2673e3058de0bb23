use stir::field::{fe_add, fe_inv, fe_mul, fe_neg, fe_sub, MODULUS};

#[test]
fn modulus_is_the_fermat_prime() {
    assert_eq!(MODULUS, 257);
}

#[test]
fn addition_wraps_at_the_modulus() {
    assert_eq!(fe_add(200, 100), 43);
    assert_eq!(fe_add(0, 0), 0);
    assert_eq!(fe_add(256, 1), 0);
}

#[test]
fn subtraction_wraps_below_zero() {
    assert_eq!(fe_sub(3, 5), 255);
    assert_eq!(fe_sub(5, 3), 2);
    assert_eq!(fe_sub(0, 256), 1);
}

#[test]
fn negation_is_the_additive_inverse() {
    assert_eq!(fe_neg(0), 0);
    assert_eq!(fe_neg(1), 256);
    for a in 0..MODULUS {
        assert_eq!(fe_add(a, fe_neg(a)), 0);
    }
}

#[test]
fn multiplication_reduces() {
    assert_eq!(fe_mul(16, 16), 256);
    assert_eq!(fe_mul(2, 129), 1);
    assert_eq!(fe_mul(0, 200), 0);
}

#[test]
fn inverse_of_every_nonzero_element() {
    assert_eq!(fe_inv(2), 129);
    assert_eq!(fe_inv(10), 180);
    for a in 1..MODULUS {
        assert_eq!(fe_mul(a, fe_inv(a)), 1);
    }
}
