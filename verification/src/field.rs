//! A small prime field, the coefficient domain of the polynomial engine.
//!
//! Field elements are residues modulo `MODULUS`, carried in `u64` values
//! that are always kept below the modulus.  The spec-level operations
//! `fadd`, `fsub`, `fmul` and `fneg` are the mathematical model that every
//! polynomial contract is stated over; the `fe_*` functions are their
//! executable counterparts.  The module proves the two facts that make the
//! residues a field rather than a mere ring: every nonzero element has a
//! multiplicative inverse, and there are no zero divisors.

use vstd::prelude::*;
use vstd::arithmetic::div_mod::{
    lemma_add_mod_noop, lemma_add_mod_noop_right, lemma_fundamental_div_mod,
    lemma_mod_add_multiples_vanish, lemma_mod_multiples_vanish, lemma_mul_mod_noop_general,
    lemma_mul_mod_noop_right, lemma_small_mod, lemma_sub_mod_noop,
};
use vstd::arithmetic::mul::{
    lemma_mul_is_associative, lemma_mul_is_commutative, lemma_mul_is_distributive_add,
    lemma_mul_is_distributive_add_other_way, lemma_mul_is_distributive_sub_other_way,
    lemma_mul_upper_bound,
};

verus! {

/// The field modulus: the Fermat prime `2^8 + 1`, whose multiplicative
/// group has order `2^8` and hence full two-adic structure, and which is
/// small enough that products of two reduced elements stay far below
/// `u64::MAX`.
pub const MODULUS: u64 = 257;

/// A value is a reduced field element.
pub open spec fn in_field(a: int) -> bool {
    0 <= a < MODULUS
}

/// Field addition on reduced representatives.
pub open spec fn fadd(a: int, b: int) -> int {
    (a + b) % (MODULUS as int)
}

/// Field subtraction on reduced representatives.
pub open spec fn fsub(a: int, b: int) -> int {
    (a - b) % (MODULUS as int)
}

/// Field multiplication on reduced representatives.
pub open spec fn fmul(a: int, b: int) -> int {
    (a * b) % (MODULUS as int)
}

/// Field negation on reduced representatives.
pub open spec fn fneg(a: int) -> int {
    (0 - a) % (MODULUS as int)
}

/// `d` divides `n` over the integers.
pub open spec fn divides(d: int, n: int) -> bool {
    exists|k: int| n == #[trigger] (d * k)
}

/// The greatest common divisor, by Euclid's recursion.
pub open spec fn gcd(a: int, b: int) -> int
    recommends
        a >= 1,
        b >= 0,
    decreases b,
{
    if b <= 0 {
        a
    } else {
        gcd(b, a % b)
    }
}

/// Results of field operations are reduced elements.
pub proof fn lemma_field_ops_in_field(a: int, b: int)
    ensures
        in_field(fadd(a, b)),
        in_field(fsub(a, b)),
        in_field(fmul(a, b)),
        in_field(fneg(a)),
{
}

/// Addition is commutative and has 0 as neutral element.
pub proof fn lemma_fadd_basic(a: int, b: int)
    requires
        in_field(a),
    ensures
        fadd(a, b) == fadd(b, a),
        fadd(a, 0) == a,
        fsub(a, 0) == a,
{
    lemma_small_mod(a as nat, MODULUS as nat);
}

/// Reassociating a sum of reduced elements: both parenthesisations reduce
/// to the residue of the integer sum.
pub proof fn lemma_fadd_assoc(a: int, b: int, c: int)
    ensures
        fadd(fadd(a, b), c) == (a + b + c) % (MODULUS as int),
        fadd(a, fadd(b, c)) == (a + b + c) % (MODULUS as int),
{
    let m = MODULUS as int;
    lemma_add_mod_noop(a + b, c, m);
    lemma_small_mod((c % m) as nat, MODULUS as nat);
    lemma_add_mod_noop(a, b + c, m);
    lemma_small_mod((a % m) as nat, MODULUS as nat);
}

/// Subtracting what was just added gives the first summand back.
pub proof fn lemma_fadd_fsub_cancel(x: int, y: int)
    requires
        in_field(x),
        in_field(y),
    ensures
        fsub(fadd(x, y), y) == x,
        fadd(fsub(x, y), y) == x,
{
    let m = MODULUS as int;
    lemma_sub_mod_noop(x + y, y, m);
    lemma_small_mod(y as nat, MODULUS as nat);
    lemma_small_mod(x as nat, MODULUS as nat);
    lemma_add_mod_noop(x - y, y, m);
}

/// Adding a delta to one summand and subtracting it from the other
/// leaves the total unchanged.
pub proof fn lemma_fadd_transfer(x: int, y: int, d: int)
    ensures
        fadd(fadd(x, d), fsub(y, d)) == fadd(x, y),
{
    let m = MODULUS as int;
    lemma_add_mod_noop(x + d, y - d, m);
    lemma_add_mod_noop(x, y, m);
    lemma_small_mod(((x % m) + (y % m)) as nat % (MODULUS as nat), MODULUS as nat);
    assert(((x + d) + (y - d)) % m == (x + y) % m);
}

/// Multiplying by zero gives zero, for any integer.
pub proof fn lemma_fmul_zero(a: int)
    ensures
        fmul(a, 0) == 0,
        fmul(0, a) == 0,
{
    assert(a * 0 == 0) by (nonlinear_arith);
    assert(0 * a == 0) by (nonlinear_arith);
}

/// A grouped four-term sum reduces to the residue of the integer sum.
pub proof fn lemma_fadd4(a: int, b: int, c: int, d: int)
    ensures
        fadd(fadd(a, b), fadd(c, d)) == (a + b + c + d) % (MODULUS as int),
{
    lemma_add_mod_noop(a + b, c + d, MODULUS as int);
}

/// The left factor of a nested product can be swapped.
pub proof fn lemma_fmul_left_swap(a: int, b: int, c: int)
    ensures
        fmul(a, fmul(b, c)) == fmul(b, fmul(a, c)),
{
    lemma_fmul_assoc(a, b, c);
    lemma_fmul_assoc(b, a, c);
    lemma_mul_is_commutative(a, b);
}

/// Multiplication distributes over addition from the left.
pub proof fn lemma_fmul_distrib_left(t: int, a: int, b: int)
    ensures
        fmul(t, fadd(a, b)) == fadd(fmul(t, a), fmul(t, b)),
{
    lemma_fmul_distrib(a, b, t);
    lemma_mul_is_commutative(t, fadd(a, b));
    lemma_mul_is_commutative(t, a);
    lemma_mul_is_commutative(t, b);
}

/// Differences are insensitive to a common added term.
pub proof fn lemma_fsub_fadd_same(x1: int, x2: int, t: int)
    ensures
        fsub(fadd(x1, t), fadd(x2, t)) == fsub(x1, x2),
{
    lemma_sub_mod_noop(x1 + t, x2 + t, MODULUS as int);
}

/// Addition of a common term on the left can be cancelled.
pub proof fn lemma_fadd_cancel_left(c: int, x: int, y: int)
    requires
        in_field(x),
        in_field(y),
        fadd(c, x) == fadd(c, y),
    ensures
        x == y,
{
    lemma_sub_mod_noop(c + x, c + y, MODULUS as int);
    assert((x - y) % (MODULUS as int) == 0);
}

/// Adding a negated element is subtracting it.
pub proof fn lemma_fadd_fneg(a: int, b: int)
    ensures
        fadd(a, fneg(b)) == fsub(a, b),
{
    lemma_add_mod_noop_right(a, 0 - b, MODULUS as int);
}

/// Multiplication is commutative; 1 is neutral; 0 annihilates.
pub proof fn lemma_fmul_basic(a: int, b: int)
    requires
        in_field(a),
    ensures
        fmul(a, b) == fmul(b, a),
        fmul(a, 1) == a,
        fmul(1, a) == a,
        fmul(a, 0) == 0,
        fmul(0, a) == 0,
{
    lemma_mul_is_commutative(a, b);
    lemma_small_mod(a as nat, MODULUS as nat);
    assert(a * 1 == a) by (nonlinear_arith);
    assert(1 * a == a) by (nonlinear_arith);
    assert(a * 0 == 0) by (nonlinear_arith);
    assert(0 * a == 0) by (nonlinear_arith);
}

/// Reassociating a product of reduced elements: both parenthesisations
/// reduce to the residue of the integer product.
pub proof fn lemma_fmul_assoc(a: int, b: int, c: int)
    ensures
        fmul(fmul(a, b), c) == (a * b * c) % (MODULUS as int),
        fmul(a, fmul(b, c)) == (a * (b * c)) % (MODULUS as int),
        fmul(fmul(a, b), c) == fmul(a, fmul(b, c)),
{
    let m = MODULUS as int;
    lemma_mul_mod_noop_general(a * b, c, m);
    lemma_mul_mod_noop_right(a, b * c, m);
    lemma_mul_is_associative(a, b, c);
}

/// Multiplication distributes over field addition and subtraction.
pub proof fn lemma_fmul_distrib(a: int, b: int, c: int)
    ensures
        fmul(fadd(a, b), c) == fadd(fmul(a, c), fmul(b, c)),
        fmul(fsub(a, b), c) == fsub(fmul(a, c), fmul(b, c)),
{
    let m = MODULUS as int;
    lemma_mul_mod_noop_general(a + b, c, m);
    lemma_mul_is_distributive_add_other_way(c, a, b);
    lemma_add_mod_noop(a * c, b * c, m);
    lemma_mul_mod_noop_general(a - b, c, m);
    lemma_mul_is_distributive_sub_other_way(c, a, b);
    lemma_sub_mod_noop(a * c, b * c, m);
}

/// The gcd of `a` and `b` divides both, and is at least 1.
proof fn lemma_gcd_divides(a: int, b: int)
    requires
        a >= 1,
        b >= 0,
    ensures
        gcd(a, b) >= 1,
        divides(gcd(a, b), a),
        divides(gcd(a, b), b),
    decreases b,
{
    if b <= 0 {
        assert(a == gcd(a, b) * 1);
        assert(b == gcd(a, b) * 0);
    } else {
        let r = a % b;
        lemma_gcd_divides(b, r);
        let g = gcd(b, r);
        let k1 = choose|k: int| b == #[trigger] (g * k);
        let k2 = choose|k: int| r == #[trigger] (g * k);
        lemma_fundamental_div_mod(a, b);
        assert(a == b * (a / b) + r);
        assert(g * k1 * (a / b) == g * (k1 * (a / b))) by {
            lemma_mul_is_associative(g, k1, a / b);
        }
        assert(g * (k1 * (a / b)) + g * k2 == g * (k1 * (a / b) + k2)) by {
            lemma_mul_is_distributive_add(g, k1 * (a / b), k2);
        }
        assert(a == g * (k1 * (a / b) + k2));
    }
}

/// Bezout's identity: some integer combination of `a` and `b` equals
/// their gcd.
proof fn lemma_bezout(a: int, b: int)
    requires
        a >= 1,
        b >= 0,
    ensures
        exists|x: int, y: int| #[trigger] (x * a + y * b) == gcd(a, b),
    decreases b,
{
    if b <= 0 {
        assert(1 * a + 0 * b == gcd(a, b)) by (nonlinear_arith)
            requires gcd(a, b) == a;
    } else {
        let r = a % b;
        lemma_bezout(b, r);
        let (x1, y1) = choose|x: int, y: int| #[trigger] (x * b + y * r) == gcd(b, r);
        lemma_fundamental_div_mod(a, b);
        assert(r == a - b * (a / b));
        let x2 = y1;
        let y2 = x1 - y1 * (a / b);
        assert(x2 * a + y2 * b == x1 * b + y1 * r) by (nonlinear_arith)
            requires r == a - b * (a / b), x2 == y1, y2 == x1 - y1 * (a / b);
        assert(x2 * a + y2 * b == gcd(a, b));
    }
}

/// `MODULUS` has no divisor strictly between 1 and itself.
proof fn lemma_modulus_prime()
    ensures
        forall|d: int| 2 <= d < MODULUS ==> #[trigger] ((MODULUS as int) % d) != 0,
{
    let m = MODULUS as int;
    assert forall|d: int| 2 <= d < MODULUS implies #[trigger] (m % d) != 0 by {
        if d <= 16 {
            lemma_no_divisor_up_to_16(d);
        } else {
            if m % d == 0 {
                lemma_fundamental_div_mod(m, d);
                let e = m / d;
                assert(m == d * e);
                assert(2 <= e <= 15) by (nonlinear_arith)
                    requires m == d * e, 17 <= d < m, m == 257;
                assert(m % e == 0) by {
                    lemma_mul_is_commutative(d, e);
                    lemma_mod_multiples_vanish(d, 0, e);
                }
                lemma_no_divisor_up_to_16(e);
            }
        }
    }
}

/// No divisor of the modulus lies in 2..=16 (16 bounds its square root).
proof fn lemma_no_divisor_up_to_16(d: int)
    requires
        2 <= d <= 16,
    ensures
        (MODULUS as int) % d != 0,
{
    if d == 2 { assert(257int % 2 == 1); }
    else if d == 3 { assert(257int % 3 == 2); }
    else if d == 4 { assert(257int % 4 == 1); }
    else if d == 5 { assert(257int % 5 == 2); }
    else if d == 6 { assert(257int % 6 == 5); }
    else if d == 7 { assert(257int % 7 == 5); }
    else if d == 8 { assert(257int % 8 == 1); }
    else if d == 9 { assert(257int % 9 == 5); }
    else if d == 10 { assert(257int % 10 == 7); }
    else if d == 11 { assert(257int % 11 == 4); }
    else if d == 12 { assert(257int % 12 == 5); }
    else if d == 13 { assert(257int % 13 == 10); }
    else if d == 14 { assert(257int % 14 == 5); }
    else if d == 15 { assert(257int % 15 == 2); }
    else { assert(257int % 16 == 1); }
}

/// Every nonzero field element has a multiplicative inverse.
pub proof fn lemma_inverse_exists(a: int)
    requires
        1 <= a < MODULUS,
    ensures
        exists|w: int| 0 < w < MODULUS && #[trigger] fmul(a, w) == 1,
{
    let m = MODULUS as int;
    lemma_gcd_divides(a, m);
    let g = gcd(a, m);
    let ka = choose|k: int| a == #[trigger] (g * k);
    let km = choose|k: int| m == #[trigger] (g * k);
    if g >= 2 {
        if g < m {
            assert(m % g == 0) by {
                lemma_mul_is_commutative(g, km);
                lemma_mod_multiples_vanish(km, 0, g);
            }
            lemma_modulus_prime();
            assert(false);
        } else {
            // g >= m: but g divides a and 1 <= a < m, which is impossible.
            assert(false) by (nonlinear_arith)
                requires a == g * ka, g >= m, 1 <= a < m, m >= 2;
        }
    }
    assert(g == 1);
    lemma_bezout(a, m);
    let (x, y) = choose|x: int, y: int| #[trigger] (x * a + y * m) == 1;
    let w = x % m;
    assert(fmul(a, w) == (a * x) % m) by {
        lemma_mul_mod_noop_right(a, x, m);
        lemma_mul_is_commutative(a, x);
    }
    assert((a * x) % m == 1) by {
        assert(x * a == m * (-y) + 1) by (nonlinear_arith)
            requires x * a + y * m == 1;
        lemma_mod_multiples_vanish(-y, 1, m);
        lemma_small_mod(1nat, MODULUS as nat);
        lemma_mul_is_commutative(a, x);
    }
    assert(w != 0) by {
        if w == 0 {
            assert(fmul(a, 0) == 0) by {
                lemma_fmul_basic(a, 0);
            }
        }
    }
    assert(0 < w < m && fmul(a, w) == 1);
}

/// The field has no zero divisors.
pub proof fn lemma_fmul_nonzero(a: int, b: int)
    requires
        in_field(a),
        in_field(b),
        a != 0,
        b != 0,
    ensures
        fmul(a, b) != 0,
{
    let m = MODULUS as int;
    lemma_inverse_exists(a);
    let w = choose|w: int| 0 < w < MODULUS && #[trigger] fmul(a, w) == 1;
    if fmul(a, b) == 0 {
        lemma_fmul_assoc(w, a, b);
        lemma_fmul_assoc(a, w, b);
        // fmul(w, fmul(a, b)) == fmul(fmul(w, a), b)
        assert(fmul(w, fmul(a, b)) == (w * (a * b)) % m) by {
            lemma_mul_mod_noop_right(w, a * b, m);
        }
        assert(fmul(w, 0) == 0) by {
            lemma_fmul_basic(w, 0);
        }
        assert((w * (a * b)) % m == (w * a * b) % m) by {
            lemma_mul_is_associative(w, a, b);
        }
        assert((w * a * b) % m == fmul(fmul(w, a), b)) by {
            lemma_mul_mod_noop_general(w * a, b, m);
        }
        assert(fmul(w, a) == fmul(a, w)) by {
            lemma_mul_is_commutative(w, a);
        }
        assert(fmul(1, b) == b) by {
            lemma_fmul_basic(b, 1);
            lemma_mul_is_commutative(1, b);
        }
        assert(b == 0);
    }
}

/// Executable field addition.
pub fn fe_add(a: u64, b: u64) -> (r: u64)
    requires
        in_field(a as int),
        in_field(b as int),
    ensures
        in_field(r as int),
        r as int == fadd(a as int, b as int),
{
    (a + b) % MODULUS
}

/// Executable field subtraction.
pub fn fe_sub(a: u64, b: u64) -> (r: u64)
    requires
        in_field(a as int),
        in_field(b as int),
    ensures
        in_field(r as int),
        r as int == fsub(a as int, b as int),
{
    proof {
        lemma_mod_add_multiples_vanish(a as int - b as int, MODULUS as int);
    }
    (a + MODULUS - b) % MODULUS
}

/// Executable field negation.
pub fn fe_neg(a: u64) -> (r: u64)
    requires
        in_field(a as int),
    ensures
        in_field(r as int),
        r as int == fneg(a as int),
{
    proof {
        lemma_mod_add_multiples_vanish(0 - a as int, MODULUS as int);
    }
    (MODULUS - a) % MODULUS
}

/// Executable field multiplication.
pub fn fe_mul(a: u64, b: u64) -> (r: u64)
    requires
        in_field(a as int),
        in_field(b as int),
    ensures
        in_field(r as int),
        r as int == fmul(a as int, b as int),
{
    proof {
        lemma_mul_upper_bound(a as int, MODULUS as int - 1, b as int, MODULUS as int - 1);
    }
    (a * b) % MODULUS
}

/// Executable field inversion of a nonzero element, by exhaustive search.
/// The search always succeeds because an inverse exists.
pub fn fe_inv(a: u64) -> (r: u64)
    requires
        in_field(a as int),
        a != 0,
    ensures
        in_field(r as int),
        fmul(a as int, r as int) == 1,
{
    proof {
        lemma_inverse_exists(a as int);
    }
    let ghost wit: int = choose|w: int| 0 < w < MODULUS && #[trigger] fmul(a as int, w) == 1;
    let mut w: u64 = 1;
    loop
        invariant
            in_field(a as int),
            a != 0,
            1 <= w < MODULUS,
            0 < wit < MODULUS,
            fmul(a as int, wit) == 1,
            forall|j: int| 1 <= j < w ==> #[trigger] fmul(a as int, j) != 1,
        decreases MODULUS - w,
    {
        if fe_mul(a, w) == 1 {
            return w;
        }
        proof {
            assert(wit > w);
        }
        w = w + 1;
    }
}

} // verus!
