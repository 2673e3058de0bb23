//! Coefficient-form univariate polynomials over the prime field.
//!
//! A polynomial is a vector of reduced field elements; the coefficient of
//! `x^i` is stored at position `i`.  Every producing operation returns a
//! canonical vector: no trailing zero coefficient, the zero polynomial
//! being the empty vector.  Contracts are stated over the spec-level
//! coefficient function `coeff`, the convolution `conv_at` and the
//! evaluation function `eval_poly`.

use vstd::prelude::*;
use crate::field::{
    fadd, fsub, fmul, fneg, in_field, fe_add, fe_sub, fe_mul, fe_neg, fe_inv, MODULUS,
    lemma_fadd_basic, lemma_fadd_assoc, lemma_fadd_cancel_left, lemma_fadd_fneg,
    lemma_fadd_transfer, lemma_fadd4, lemma_fsub_fadd_same,
    lemma_fmul_basic, lemma_fmul_assoc, lemma_fmul_distrib, lemma_fmul_distrib_left,
    lemma_fmul_left_swap, lemma_fmul_nonzero, lemma_fmul_zero,
};
use vstd::arithmetic::div_mod::{lemma_add_mod_noop, lemma_small_mod};

verus! {

/// The coefficient of `x^k`, as an integer; zero outside the stored range.
pub open spec fn coeff(s: Seq<u64>, k: int) -> int {
    if 0 <= k < s.len() {
        s[k] as int
    } else {
        0
    }
}

/// Every stored coefficient is a reduced field element.
pub open spec fn wf_values(s: Seq<u64>) -> bool {
    forall|i: int| 0 <= i < s.len() ==> s[i] < MODULUS
}

/// No trailing zero coefficient (the zero polynomial is empty).
pub open spec fn canonical(s: Seq<u64>) -> bool {
    s.len() == 0 || s[s.len() - 1] != 0
}

/// A well-formed coefficient sequence: reduced and canonical.
pub open spec fn poly_wf(s: Seq<u64>) -> bool {
    wf_values(s) && canonical(s)
}

/// The sequence with trailing zero coefficients removed.
pub open spec fn trunc(s: Seq<u64>) -> Seq<u64>
    decreases s.len(),
{
    if s.len() == 0 || s[s.len() - 1] != 0 {
        s
    } else {
        trunc(s.drop_last())
    }
}

/// Horner-style evaluation of a coefficient sequence at `x`.
pub open spec fn eval_poly(s: Seq<u64>, x: int) -> int
    decreases s.len(),
{
    if s.len() == 0 {
        0
    } else {
        fadd(coeff(s, 0), fmul(x, eval_poly(s.drop_first(), x)))
    }
}

/// The first `n` terms of the convolution sum for the coefficient of
/// `x^k` in the product `a * b`.
pub open spec fn conv_prefix(a: Seq<u64>, b: Seq<u64>, k: int, n: int) -> int
    decreases n,
{
    if n <= 0 {
        0
    } else {
        fadd(conv_prefix(a, b, k, n - 1), fmul(coeff(a, n - 1), coeff(b, k - (n - 1))))
    }
}

/// The coefficient of `x^k` in the product `a * b`: the full convolution
/// sum over the coefficients of `a`.
pub open spec fn conv_at(a: Seq<u64>, b: Seq<u64>, k: int) -> int {
    conv_prefix(a, b, k, a.len() as int)
}

/// The reported degree: `len - 1` for a nonempty sequence, and the
/// special-cased value 0 for the zero polynomial (gate with `is_zero`).
pub open spec fn degree_of(s: Seq<u64>) -> int {
    if s.len() == 0 {
        0
    } else {
        s.len() - 1
    }
}

/// Coefficients of a well-formed sequence are reduced field elements.
pub proof fn lemma_coeff_in_field(s: Seq<u64>)
    requires
        wf_values(s),
    ensures
        forall|k: int| in_field(#[trigger] coeff(s, k)),
{
}

/// Truncation preserves every coefficient, keeps values reduced, and
/// yields a canonical sequence no longer than the input.
pub proof fn lemma_trunc(s: Seq<u64>)
    ensures
        trunc(s).len() <= s.len(),
        canonical(trunc(s)),
        wf_values(s) ==> wf_values(trunc(s)),
        forall|k: int| #[trigger] coeff(trunc(s), k) == coeff(s, k),
    decreases s.len(),
{
    if s.len() == 0 || s[s.len() - 1] != 0 {
    } else {
        lemma_trunc(s.drop_last());
        assert forall|k: int| #[trigger] coeff(trunc(s), k) == coeff(s, k) by {
            assert(coeff(trunc(s), k) == coeff(s.drop_last(), k));
            if 0 <= k < s.len() - 1 {
                assert(s.drop_last()[k] == s[k]);
            }
        }
    }
}

/// Two canonical sequences with the same coefficient function are equal.
pub proof fn lemma_canonical_coeff_eq(s1: Seq<u64>, s2: Seq<u64>)
    requires
        canonical(s1),
        canonical(s2),
        forall|k: int| #[trigger] coeff(s1, k) == coeff(s2, k),
    ensures
        s1 == s2,
{
    if s1.len() < s2.len() {
        assert(coeff(s1, s2.len() - 1) == 0);
        assert(coeff(s2, s2.len() - 1) == s2[s2.len() - 1] as int);
        assert(false);
    }
    if s2.len() < s1.len() {
        assert(coeff(s2, s1.len() - 1) == 0);
        assert(coeff(s1, s1.len() - 1) == s1[s1.len() - 1] as int);
        assert(false);
    }
    assert forall|i: int| 0 <= i < s1.len() implies s1[i] == s2[i] by {
        assert(coeff(s1, i) == coeff(s2, i));
    }
    assert(s1 =~= s2);
}

/// Convolution values are reduced field elements.
pub proof fn lemma_conv_prefix_in_field(a: Seq<u64>, b: Seq<u64>, k: int, n: int)
    ensures
        in_field(conv_prefix(a, b, k, n)),
{
    if n <= 0 {
    } else {
    }
}

/// A convolution over a prefix of zero coefficients is zero.
pub proof fn lemma_conv_zero_a(a: Seq<u64>, b: Seq<u64>, k: int, n: int)
    requires
        forall|t: int| 0 <= t < n ==> #[trigger] coeff(a, t) == 0,
        wf_values(b),
    ensures
        conv_prefix(a, b, k, n) == 0,
    decreases n,
{
    if n <= 0 {
    } else {
        lemma_conv_zero_a(a, b, k, n - 1);
        lemma_coeff_in_field(b);
        lemma_fmul_basic(coeff(b, k - (n - 1)), 0);
        assert(fmul(0, coeff(b, k - (n - 1))) == 0);
        assert(fadd(0, 0) == 0);
    }
}

/// A convolution all of whose terms are zero is zero.
pub proof fn lemma_conv_all_terms_zero(a: Seq<u64>, b: Seq<u64>, k: int, n: int)
    requires
        forall|t: int| 0 <= t < n ==> #[trigger] fmul(coeff(a, t), coeff(b, k - t)) == 0,
    ensures
        conv_prefix(a, b, k, n) == 0,
    decreases n,
{
    if n <= 0 {
    } else {
        lemma_conv_all_terms_zero(a, b, k, n - 1);
        assert(fadd(0, 0) == 0);
    }
}

/// Outside the degree range of a product, the convolution is zero.
pub proof fn lemma_conv_beyond_prefix(a: Seq<u64>, b: Seq<u64>, k: int, n: int)
    requires
        wf_values(a),
        k < 0 || k > a.len() + b.len() - 2,
        n <= a.len(),
    ensures
        conv_prefix(a, b, k, n) == 0,
    decreases n,
{
    if n <= 0 {
    } else {
        lemma_conv_beyond_prefix(a, b, k, n - 1);
        assert(coeff(b, k - (n - 1)) == 0);
        lemma_coeff_in_field(a);
        lemma_fmul_basic(coeff(a, n - 1), 0);
        assert(fadd(0, 0) == 0);
    }
}

/// The convolution coefficient is zero outside `0..a.len()+b.len()-1`.
pub proof fn lemma_conv_beyond(a: Seq<u64>, b: Seq<u64>, k: int)
    requires
        wf_values(a),
        k < 0 || k > a.len() + b.len() - 2,
    ensures
        conv_at(a, b, k) == 0,
{
    lemma_conv_beyond_prefix(a, b, k, a.len() as int);
}

/// The top coefficient of a product is the product of the two top
/// coefficients.
pub proof fn lemma_conv_top_prefix(a: Seq<u64>, b: Seq<u64>, n: int)
    requires
        wf_values(a),
        wf_values(b),
        a.len() > 0,
        b.len() > 0,
        n <= a.len(),
    ensures
        conv_prefix(a, b, a.len() + b.len() - 2, n) == if n == a.len() {
            fmul(coeff(a, a.len() - 1), coeff(b, b.len() - 1))
        } else {
            0
        },
    decreases n,
{
    let k = a.len() + b.len() - 2;
    if n <= 0 {
    } else {
        lemma_conv_top_prefix(a, b, n - 1);
        lemma_coeff_in_field(a);
        lemma_coeff_in_field(b);
        if n == a.len() {
            assert(k - (n - 1) == b.len() - 1);
            let t = fmul(coeff(a, a.len() - 1), coeff(b, b.len() - 1));
            assert(conv_prefix(a, b, k, n) == fadd(0, t));
            lemma_fadd_basic(t, 0);
        } else {
            assert(k - (n - 1) > b.len() - 1);
            assert(coeff(b, k - (n - 1)) == 0);
            lemma_fmul_basic(coeff(a, n - 1), 0);
            assert(fadd(0, 0) == 0);
        }
    }
}

/// `conv_at` of two nonzero well-formed sequences has a nonzero top
/// coefficient at position `a.len() + b.len() - 2`.
pub proof fn lemma_conv_top(a: Seq<u64>, b: Seq<u64>)
    requires
        poly_wf(a),
        poly_wf(b),
        a.len() > 0,
        b.len() > 0,
    ensures
        conv_at(a, b, a.len() + b.len() - 2) == fmul(coeff(a, a.len() - 1), coeff(b, b.len() - 1)),
        conv_at(a, b, a.len() + b.len() - 2) != 0,
{
    lemma_conv_top_prefix(a, b, a.len() as int);
    lemma_fmul_nonzero(coeff(a, a.len() - 1), coeff(b, b.len() - 1));
}

/// `s` is coefficient-wise the product of `q` and `d`.
pub open spec fn is_times(s: Seq<u64>, q: Seq<u64>, d: Seq<u64>) -> bool {
    forall|k: int| #[trigger] coeff(s, k) == conv_at(q, d, k)
}

/// `d` divides `s` exactly: some well-formed quotient reproduces `s`.
pub open spec fn exactly_divides(d: Seq<u64>, s: Seq<u64>) -> bool {
    exists|q: Seq<u64>| poly_wf(q) && is_times(s, q, d)
}

/// The highest index below `n` where two coefficient sequences differ,
/// or -1 if they agree everywhere below `n`.
pub open spec fn top_diff_index(s1: Seq<u64>, s2: Seq<u64>, n: int) -> int
    decreases n,
{
    if n <= 0 {
        -1
    } else if coeff(s1, n - 1) != coeff(s2, n - 1) {
        n - 1
    } else {
        top_diff_index(s1, s2, n - 1)
    }
}

/// Characterisation of `top_diff_index`.
pub proof fn lemma_top_diff(s1: Seq<u64>, s2: Seq<u64>, n: int)
    requires
        n >= 0,
    ensures
        top_diff_index(s1, s2, n) < n,
        top_diff_index(s1, s2, n) >= 0 ==> coeff(s1, top_diff_index(s1, s2, n))
            != coeff(s2, top_diff_index(s1, s2, n)),
        forall|k: int| top_diff_index(s1, s2, n) < k < n ==> #[trigger] coeff(s1, k) == coeff(s2, k),
    decreases n,
{
    if n <= 0 {
    } else if coeff(s1, n - 1) != coeff(s2, n - 1) {
    } else {
        lemma_top_diff(s1, s2, n - 1);
    }
}

/// Extending the convolution prefix beyond the sequence's length adds
/// only zero terms.
pub proof fn lemma_conv_prefix_extend(q: Seq<u64>, d: Seq<u64>, k: int, n: int)
    requires
        wf_values(d),
        n >= q.len(),
    ensures
        conv_prefix(q, d, k, n) == conv_at(q, d, k),
    decreases n,
{
    if n <= q.len() {
        assert(n == q.len());
    } else {
        lemma_conv_prefix_extend(q, d, k, n - 1);
        assert(coeff(q, n - 1) == 0);
        lemma_coeff_in_field(d);
        lemma_fmul_basic(coeff(d, k - (n - 1)), 0);
        assert(fmul(0, coeff(d, k - (n - 1))) == 0);
        lemma_conv_prefix_in_field(q, d, k, n - 1);
        lemma_fadd_basic(conv_prefix(q, d, k, n - 1), 0);
    }
}

/// At position `m + d.len() - 1`, the convolutions of two sequences that
/// agree above `m` differ exactly by the difference at `m` times the top
/// coefficient of `d`.
proof fn lemma_conv_diff_at_top(q1: Seq<u64>, q2: Seq<u64>, d: Seq<u64>, m: int, n: int)
    requires
        wf_values(q1),
        wf_values(q2),
        wf_values(d),
        d.len() > 0,
        0 <= m < n,
        forall|k: int| k > m ==> #[trigger] coeff(q1, k) == coeff(q2, k),
    ensures
        fsub(
            conv_prefix(q1, d, m + d.len() - 1, n),
            conv_prefix(q2, d, m + d.len() - 1, n),
        ) == fmul(fsub(coeff(q1, m), coeff(q2, m)), coeff(d, d.len() - 1)),
    decreases n,
{
    let kk = m + d.len() - 1;
    lemma_coeff_in_field(q1);
    lemma_coeff_in_field(q2);
    lemma_coeff_in_field(d);
    if n == m + 1 {
        assert forall|t: int| 0 <= t < m implies #[trigger] fmul(coeff(q1, t), coeff(d, kk - t)) == 0 by {
            assert(coeff(d, kk - t) == 0);
            lemma_fmul_basic(coeff(q1, t), 0);
        }
        assert forall|t: int| 0 <= t < m implies #[trigger] fmul(coeff(q2, t), coeff(d, kk - t)) == 0 by {
            assert(coeff(d, kk - t) == 0);
            lemma_fmul_basic(coeff(q2, t), 0);
        }
        lemma_conv_all_terms_zero(q1, d, kk, m);
        lemma_conv_all_terms_zero(q2, d, kk, m);
        let t1 = fmul(coeff(q1, m), coeff(d, d.len() - 1));
        let t2 = fmul(coeff(q2, m), coeff(d, d.len() - 1));
        assert(kk - m == d.len() - 1);
        assert(conv_prefix(q1, d, kk, n) == fadd(0, t1));
        assert(conv_prefix(q2, d, kk, n) == fadd(0, t2));
        lemma_fadd_basic(t1, 0);
        lemma_fadd_basic(t2, 0);
        lemma_fmul_distrib(coeff(q1, m), coeff(q2, m), coeff(d, d.len() - 1));
    } else {
        lemma_conv_diff_at_top(q1, q2, d, m, n - 1);
        let t = n - 1;
        assert(coeff(q1, t) == coeff(q2, t));
        let tv = fmul(coeff(q1, t), coeff(d, kk - t));
        assert(conv_prefix(q1, d, kk, n) == fadd(conv_prefix(q1, d, kk, n - 1), tv));
        assert(conv_prefix(q2, d, kk, n) == fadd(conv_prefix(q2, d, kk, n - 1), tv));
        lemma_fsub_fadd_same(conv_prefix(q1, d, kk, n - 1), conv_prefix(q2, d, kk, n - 1), tv);
    }
}

/// Uniqueness of Euclidean division: two quotient/remainder pairs that
/// both decompose the same polynomial are equal.
pub proof fn lemma_division_unique(
    d: Seq<u64>,
    q1: Seq<u64>,
    r1: Seq<u64>,
    q2: Seq<u64>,
    r2: Seq<u64>,
)
    requires
        poly_wf(d),
        d.len() > 0,
        poly_wf(q1),
        poly_wf(r1),
        poly_wf(q2),
        poly_wf(r2),
        r1.len() < d.len(),
        r2.len() < d.len(),
        forall|k: int| #[trigger] fadd(conv_at(q1, d, k), coeff(r1, k))
            == fadd(conv_at(q2, d, k), coeff(r2, k)),
    ensures
        q1 == q2,
        r1 == r2,
{
    let n: int = if q1.len() >= q2.len() { q1.len() as int } else { q2.len() as int };
    lemma_top_diff(q1, q2, n);
    let m = top_diff_index(q1, q2, n);
    if m >= 0 {
        let kk = m + d.len() - 1;
        assert(coeff(r1, kk) == 0);
        assert(coeff(r2, kk) == 0);
        assert(fadd(conv_at(q1, d, kk), coeff(r1, kk)) == fadd(conv_at(q2, d, kk), coeff(r2, kk)));
        lemma_conv_prefix_in_field(q1, d, kk, q1.len() as int);
        lemma_conv_prefix_in_field(q2, d, kk, q2.len() as int);
        lemma_fadd_basic(conv_at(q1, d, kk), 0);
        lemma_fadd_basic(conv_at(q2, d, kk), 0);
        assert(conv_at(q1, d, kk) == conv_at(q2, d, kk));
        lemma_conv_prefix_extend(q1, d, kk, n);
        lemma_conv_prefix_extend(q2, d, kk, n);
        assert forall|k: int| k > m implies #[trigger] coeff(q1, k) == coeff(q2, k) by {
            if k < n {
            } else {
                assert(coeff(q1, k) == 0 && coeff(q2, k) == 0);
            }
        }
        lemma_conv_diff_at_top(q1, q2, d, m, n);
        let diff = fsub(coeff(q1, m), coeff(q2, m));
        assert(diff != 0);
        lemma_coeff_in_field(q1);
        lemma_coeff_in_field(q2);
        lemma_coeff_in_field(d);
        lemma_fmul_nonzero(diff, coeff(d, d.len() - 1));
        assert(fsub(conv_prefix(q1, d, kk, n), conv_prefix(q2, d, kk, n)) == 0);
        assert(false);
    }
    assert forall|k: int| #[trigger] coeff(q1, k) == coeff(q2, k) by {
        if 0 <= k < n {
        } else {
            assert(coeff(q1, k) == 0 && coeff(q2, k) == 0);
        }
    }
    lemma_canonical_coeff_eq(q1, q2);
    assert forall|k: int| #[trigger] coeff(r1, k) == coeff(r2, k) by {
        assert(fadd(conv_at(q1, d, k), coeff(r1, k)) == fadd(conv_at(q2, d, k), coeff(r2, k)));
        assert(conv_at(q1, d, k) == conv_at(q2, d, k));
        lemma_coeff_in_field(r1);
        lemma_coeff_in_field(r2);
        lemma_fadd_cancel_left(conv_at(q1, d, k), coeff(r1, k), coeff(r2, k));
    }
    lemma_canonical_coeff_eq(r1, r2);
}

/// Writing `c` into a zero slot of `q` adds `c * coeff(d, k - m)` to the
/// convolution at every position `k`, once the prefix covers slot `m`.
pub proof fn lemma_conv_update(q: Seq<u64>, d: Seq<u64>, k: int, m: int, c: u64, n: int)
    requires
        0 <= m < q.len(),
        q[m] == 0,
        wf_values(q),
        wf_values(d),
        in_field(c as int),
        n <= q.len(),
    ensures
        conv_prefix(q.update(m, c), d, k, n) == if n <= m {
            conv_prefix(q, d, k, n)
        } else {
            fadd(conv_prefix(q, d, k, n), fmul(c as int, coeff(d, k - m)))
        },
    decreases n,
{
    let qn = q.update(m, c);
    lemma_coeff_in_field(q);
    lemma_coeff_in_field(d);
    if n <= 0 {
    } else {
        lemma_conv_update(q, d, k, m, c, n - 1);
        let t = n - 1;
        if t < m {
            assert(coeff(qn, t) == coeff(q, t));
        } else if t == m {
            assert(coeff(qn, t) == c as int);
            assert(coeff(q, t) == 0);
            lemma_fmul_basic(coeff(d, k - t), 0);
            assert(fmul(0, coeff(d, k - t)) == 0);
            lemma_conv_prefix_in_field(q, d, k, n - 1);
            lemma_fadd_basic(conv_prefix(q, d, k, n - 1), 0);
            assert(conv_prefix(q, d, k, n) == conv_prefix(q, d, k, n - 1));
        } else {
            assert(coeff(qn, t) == coeff(q, t));
            let p = conv_prefix(q, d, k, n - 1);
            let delta = fmul(c as int, coeff(d, k - m));
            let term = fmul(coeff(q, t), coeff(d, k - t));
            assert(conv_prefix(qn, d, k, n) == fadd(fadd(p, delta), term));
            lemma_fadd_assoc(p, delta, term);
            lemma_fadd_assoc(p, term, delta);
            assert(fadd(fadd(p, delta), term) == fadd(fadd(p, term), delta));
        }
    }
}

/// `fadd` with zero on either side is the identity on field elements.
proof fn lemma_coeff_fadd_zero(s: Seq<u64>)
    requires
        wf_values(s),
    ensures
        forall|k: int| fadd(0, #[trigger] coeff(s, k)) == coeff(s, k),
        forall|k: int| fadd(#[trigger] coeff(s, k), 0) == coeff(s, k),
{
    assert forall|k: int| fadd(0, #[trigger] coeff(s, k)) == coeff(s, k)
        && fadd(#[trigger] coeff(s, k), 0) == coeff(s, k) by {
        lemma_fadd_basic(coeff(s, k), 0);
    }
}

/// The power `x^e` in the field.
pub open spec fn xpow(x: int, e: int) -> int
    decreases e,
{
    if e <= 0 {
        1
    } else {
        fmul(x, xpow(x, e - 1))
    }
}

/// The sum of the first `n` monomial values `coeff(s, k) * x^k`: the
/// power-sum form of polynomial evaluation.
pub open spec fn eval_sum(s: Seq<u64>, x: int, n: int) -> int
    decreases n,
{
    if n <= 0 {
        0
    } else {
        fadd(eval_sum(s, x, n - 1), fmul(coeff(s, n - 1), xpow(x, n - 1)))
    }
}

/// Sequences that agree coefficient-wise below `n` have the same sum.
pub proof fn lemma_eval_sum_coeffwise(s1: Seq<u64>, s2: Seq<u64>, x: int, n: int)
    requires
        forall|k: int| 0 <= k < n ==> #[trigger] coeff(s1, k) == coeff(s2, k),
    ensures
        eval_sum(s1, x, n) == eval_sum(s2, x, n),
    decreases n,
{
    if n <= 0 {
    } else {
        lemma_eval_sum_coeffwise(s1, s2, x, n - 1);
    }
}

/// The sum over zero coefficients is zero.
pub proof fn lemma_eval_sum_zero(s: Seq<u64>, x: int, n: int)
    requires
        forall|k: int| 0 <= k < n ==> #[trigger] coeff(s, k) == 0,
    ensures
        eval_sum(s, x, n) == 0,
    decreases n,
{
    if n <= 0 {
    } else {
        lemma_eval_sum_zero(s, x, n - 1);
        lemma_fmul_basic(xpow(x, n - 1), 0);
        assert(fmul(0, xpow(x, n - 1)) == 0);
        assert(fadd(0, 0) == 0);
    }
}

/// Extending the sum beyond the sequence's length changes nothing.
pub proof fn lemma_eval_sum_extend(s: Seq<u64>, x: int, n: int)
    requires
        n >= s.len(),
    ensures
        eval_sum(s, x, n) == eval_sum(s, x, s.len() as int),
    decreases n,
{
    if n <= s.len() {
    } else {
        lemma_eval_sum_extend(s, x, n - 1);
        assert(coeff(s, n - 1) == 0);
        lemma_fmul_basic(xpow(x, n - 1), 0);
        lemma_fadd_basic(eval_sum(s, x, n - 1), 0);
    }
}

/// The sum of a coefficient-wise field sum is the field sum of the sums.
pub proof fn lemma_eval_sum_add(sa: Seq<u64>, sb: Seq<u64>, sc: Seq<u64>, x: int, n: int)
    requires
        forall|k: int| 0 <= k < n ==> #[trigger] coeff(sc, k) == fadd(coeff(sa, k), coeff(sb, k)),
    ensures
        eval_sum(sc, x, n) == fadd(eval_sum(sa, x, n), eval_sum(sb, x, n)),
    decreases n,
{
    if n <= 0 {
        assert(fadd(0, 0) == 0);
    } else {
        lemma_eval_sum_add(sa, sb, sc, x, n - 1);
        let p = xpow(x, n - 1);
        let ta = fmul(coeff(sa, n - 1), p);
        let tb = fmul(coeff(sb, n - 1), p);
        lemma_fmul_distrib(coeff(sa, n - 1), coeff(sb, n - 1), p);
        assert(fmul(coeff(sc, n - 1), p) == fadd(ta, tb));
        let ea = eval_sum(sa, x, n - 1);
        let eb = eval_sum(sb, x, n - 1);
        lemma_fadd4(ea, eb, ta, tb);
        lemma_fadd4(ea, ta, eb, tb);
        assert(fadd(fadd(ea, eb), fadd(ta, tb)) == fadd(fadd(ea, ta), fadd(eb, tb)));
    }
}

/// The sum of coefficient-wise scaled values is the scaled sum.
pub proof fn lemma_eval_sum_scale(sa: Seq<u64>, sc: Seq<u64>, t: int, x: int, n: int)
    requires
        forall|k: int| 0 <= k < n ==> #[trigger] coeff(sc, k) == fmul(t, coeff(sa, k)),
    ensures
        eval_sum(sc, x, n) == fmul(t, eval_sum(sa, x, n)),
    decreases n,
{
    if n <= 0 {
        lemma_fmul_basic(0, t);
        assert(fmul(t, 0) == 0);
    } else {
        lemma_eval_sum_scale(sa, sc, t, x, n - 1);
        let p = xpow(x, n - 1);
        lemma_fmul_assoc(t, coeff(sa, n - 1), p);
        assert(fmul(fmul(t, coeff(sa, n - 1)), p) == fmul(t, fmul(coeff(sa, n - 1), p)));
        lemma_fmul_distrib_left(t, eval_sum(sa, x, n - 1), fmul(coeff(sa, n - 1), p));
    }
}

/// The sum of a once-shifted sequence is `x` times the original sum.
pub proof fn lemma_eval_sum_shifted(sh: Seq<u64>, s0: Seq<u64>, x: int, n: int)
    requires
        coeff(sh, 0) == 0,
        forall|k: int| 1 <= k < n ==> #[trigger] coeff(sh, k) == coeff(s0, k - 1),
    ensures
        eval_sum(sh, x, n) == fmul(x, eval_sum(s0, x, n - 1)),
    decreases n,
{
    if n <= 0 {
        reveal_with_fuel(eval_sum, 2);
        assert(eval_sum(sh, x, n) == 0);
        assert(eval_sum(s0, x, n - 1) == 0);
        lemma_fmul_zero(x);
    } else if n == 1 {
        reveal_with_fuel(eval_sum, 2);
        lemma_fmul_basic(xpow(x, 0), 0);
        assert(fmul(0, xpow(x, 0)) == 0);
        assert(eval_sum(sh, x, 1) == fadd(0, fmul(coeff(sh, 0), xpow(x, 0))));
        assert(fadd(0, 0) == 0);
        assert(eval_sum(s0, x, 0) == 0);
        lemma_fmul_zero(x);
    } else {
        lemma_eval_sum_shifted(sh, s0, x, n - 1);
        let p = xpow(x, n - 2);
        let c = coeff(s0, n - 2);
        let e = eval_sum(s0, x, n - 2);
        assert(coeff(sh, n - 1) == c);
        assert(xpow(x, n - 1) == fmul(x, p));
        lemma_fmul_left_swap(c, x, p);
        assert(fmul(coeff(sh, n - 1), xpow(x, n - 1)) == fmul(x, fmul(c, p)));
        lemma_fmul_distrib_left(x, e, fmul(c, p));
        assert(eval_sum(s0, x, n - 1) == fadd(e, fmul(c, p)));
        assert(eval_sum(sh, x, n) == fadd(fmul(x, e), fmul(x, fmul(c, p))));
        assert(fmul(x, eval_sum(s0, x, n - 1)) == fadd(fmul(x, e), fmul(x, fmul(c, p))));
    }
}

/// One step of the power-sum decomposition: split off the constant term.
proof fn lemma_eval_sum_step(s: Seq<u64>, x: int, n: int)
    requires
        wf_values(s),
        in_field(x),
        s.len() > 0,
        n >= 1,
    ensures
        eval_sum(s, x, n) == fadd(coeff(s, 0), fmul(x, eval_sum(s.drop_first(), x, n - 1))),
    decreases n,
{
    lemma_coeff_in_field(s);
    let s1 = s.drop_first();
    if n == 1 {
        reveal_with_fuel(eval_sum, 2);
        lemma_fmul_basic(coeff(s, 0), 1);
        assert(fmul(coeff(s, 0), xpow(x, 0)) == coeff(s, 0));
        assert(eval_sum(s, x, 1) == fadd(0, fmul(coeff(s, 0), xpow(x, 0))));
        lemma_fadd_basic(coeff(s, 0), 0);
        assert(eval_sum(s1, x, 0) == 0);
        lemma_fmul_zero(x);
    } else {
        lemma_eval_sum_step(s, x, n - 1);
        let p = xpow(x, n - 2);
        let c = coeff(s, n - 1);
        assert(coeff(s1, n - 2) == c);
        assert(xpow(x, n - 1) == fmul(x, p));
        lemma_fmul_left_swap(c, x, p);
        let e1 = eval_sum(s1, x, n - 2);
        let t1 = fmul(c, p);
        assert(fmul(coeff(s, n - 1), xpow(x, n - 1)) == fmul(x, t1));
        assert(eval_sum(s, x, n) == fadd(fadd(coeff(s, 0), fmul(x, e1)), fmul(x, t1)));
        lemma_fmul_distrib_left(x, e1, t1);
        assert(eval_sum(s1, x, n - 1) == fadd(e1, t1));
        assert(fmul(x, eval_sum(s1, x, n - 1)) == fadd(fmul(x, e1), fmul(x, t1)));
        lemma_fadd_assoc(coeff(s, 0), fmul(x, e1), fmul(x, t1));
    }
}

/// Horner evaluation equals the power-sum form.
pub proof fn lemma_eval_poly_sum(s: Seq<u64>, x: int)
    requires
        wf_values(s),
        in_field(x),
    ensures
        eval_poly(s, x) == eval_sum(s, x, s.len() as int),
    decreases s.len(),
{
    if s.len() == 0 {
    } else {
        let s1 = s.drop_first();
        lemma_eval_poly_sum(s1, x);
        lemma_eval_sum_step(s, x, s.len() as int);
    }
}

/// Horner evaluation respects coefficient-wise equality.
pub proof fn lemma_eval_poly_coeffwise(s1: Seq<u64>, s2: Seq<u64>, x: int)
    requires
        wf_values(s1),
        wf_values(s2),
        in_field(x),
        forall|k: int| #[trigger] coeff(s1, k) == coeff(s2, k),
    ensures
        eval_poly(s1, x) == eval_poly(s2, x),
{
    let n: int = if s1.len() >= s2.len() { s1.len() as int } else { s2.len() as int };
    lemma_eval_poly_sum(s1, x);
    lemma_eval_poly_sum(s2, x);
    lemma_eval_sum_extend(s1, x, n);
    lemma_eval_sum_extend(s2, x, n);
    lemma_eval_sum_coeffwise(s1, s2, x, n);
}

/// Peeling the first coefficient off the convolution.
proof fn lemma_conv_shift(a: Seq<u64>, b: Seq<u64>, k: int, n: int)
    requires
        wf_values(a),
        wf_values(b),
        a.len() > 0,
        1 <= n,
    ensures
        conv_prefix(a, b, k, n) == fadd(
            fmul(coeff(a, 0), coeff(b, k)),
            conv_prefix(a.drop_first(), b, k - 1, n - 1),
        ),
    decreases n,
{
    lemma_coeff_in_field(a);
    lemma_coeff_in_field(b);
    let t0 = fmul(coeff(a, 0), coeff(b, k));
    if n == 1 {
        lemma_fadd_basic(t0, 0);
        assert(conv_prefix(a, b, k, 1) == fadd(conv_prefix(a, b, k, 0), t0));
        assert(conv_prefix(a, b, k, 1) == fadd(0, t0));
        assert(fadd(0, t0) == t0);
        assert(conv_prefix(a.drop_first(), b, k - 1, 0) == 0);
        assert(fadd(t0, 0) == t0);
    } else {
        lemma_conv_shift(a, b, k, n - 1);
        let a1 = a.drop_first();
        assert(coeff(a, n - 1) == coeff(a1, n - 2));
        let tn = fmul(coeff(a, n - 1), coeff(b, k - (n - 1)));
        let c1 = conv_prefix(a1, b, k - 1, n - 2);
        assert(fmul(coeff(a1, n - 2), coeff(b, (k - 1) - (n - 2))) == tn);
        assert(conv_prefix(a1, b, k - 1, n - 1) == fadd(c1, tn));
        assert(conv_prefix(a, b, k, n) == fadd(fadd(t0, c1), tn));
        lemma_fadd_assoc(t0, c1, tn);
    }
}

/// The power-sum of a convolution is the product of the evaluations.
proof fn lemma_eval_conv(a: Seq<u64>, b: Seq<u64>, c: Seq<u64>, x: int, n: int)
    requires
        wf_values(a),
        wf_values(b),
        wf_values(c),
        in_field(x),
        n >= a.len() + b.len(),
        forall|k: int| 0 <= k < n ==> #[trigger] coeff(c, k) == conv_at(a, b, k),
    ensures
        eval_sum(c, x, n) == fmul(eval_poly(a, x), eval_poly(b, x)),
    decreases a.len(),
{
    if a.len() == 0 {
        assert forall|k: int| 0 <= k < n implies #[trigger] coeff(c, k) == 0 by {
            assert(coeff(c, k) == conv_at(a, b, k));
        }
        lemma_eval_sum_zero(c, x, n);
        lemma_fmul_basic(eval_poly(b, x), 0);
        assert(fmul(0, eval_poly(b, x)) == 0);
    } else {
        let a1 = a.drop_first();
        let a0 = coeff(a, 0);
        assert(wf_values(a1));
        let c2 = Seq::new((n - 1) as nat, |k: int| conv_at(a1, b, k) as u64);
        assert forall|k: int| 0 <= k < n - 1 implies in_field(#[trigger] conv_at(a1, b, k)) by {
            lemma_conv_prefix_in_field(a1, b, k, a1.len() as int);
        }
        assert(wf_values(c2));
        assert forall|k: int| 0 <= k < n - 1 implies #[trigger] coeff(c2, k) == conv_at(a1, b, k) by {
            lemma_conv_prefix_in_field(a1, b, k, a1.len() as int);
        }
        lemma_eval_conv(a1, b, c2, x, n - 1);
        // Split c below n into the scaled copy of b and the shifted c2.
        let sb = Seq::new(n as nat, |k: int| fmul(a0, coeff(b, k)) as u64);
        let sh = Seq::new(n as nat, |k: int| if k >= 1 { coeff(c2, k - 1) as u64 } else { 0u64 });
        assert forall|k: int| 0 <= k < n implies in_field(#[trigger] fmul(a0, coeff(b, k))) by {}
        assert(wf_values(sb));
        assert(wf_values(sh));
        assert forall|k: int| 0 <= k < n implies #[trigger] coeff(c, k)
            == fadd(coeff(sb, k), coeff(sh, k)) by {
            lemma_conv_shift(a, b, k, a.len() as int);
            assert(conv_at(a, b, k) == fadd(fmul(a0, coeff(b, k)), conv_prefix(a1, b, k - 1, a.len() - 1)));
            assert(conv_prefix(a1, b, k - 1, a1.len() as int) == conv_at(a1, b, k - 1));
            if k >= 1 {
                if k - 1 < n - 1 {
                    assert(coeff(sh, k) == coeff(c2, k - 1));
                } else {
                    assert(false);
                }
            } else {
                lemma_conv_beyond(a1, b, k - 1);
                assert(coeff(sh, k) == 0);
            }
            lemma_coeff_in_field(c2);
        }
        lemma_eval_sum_add(sb, sh, c, x, n);
        // The scaled part.
        assert forall|k: int| 0 <= k < n implies #[trigger] coeff(sb, k) == fmul(a0, coeff(b, k)) by {}
        lemma_eval_sum_scale(b, sb, a0, x, n);
        lemma_eval_sum_extend(b, x, n);
        lemma_eval_poly_sum(b, x);
        // The shifted part.
        assert(coeff(sh, 0) == 0);
        assert forall|k: int| 1 <= k < n implies #[trigger] coeff(sh, k) == coeff(c2, k - 1) by {}
        lemma_eval_sum_shifted(sh, c2, x, n);
        // Reassemble.
        let eb = eval_poly(b, x);
        let e1 = eval_poly(a1, x);
        lemma_eval_poly_sum(a1, x);
        lemma_eval_sum_extend(a1, x, if n - 1 >= a1.len() { n - 1 } else { a1.len() as int });
        assert(eval_sum(c2, x, n - 1) == fmul(e1, eb));
        assert(eval_sum(c, x, n) == fadd(fmul(a0, eb), fmul(x, fmul(e1, eb))));
        assert(eval_poly(a, x) == fadd(a0, fmul(x, e1)));
        lemma_fmul_distrib(a0, fmul(x, e1), eb);
        lemma_fmul_assoc(x, e1, eb);
        assert(fmul(fmul(x, e1), eb) == fmul(x, fmul(e1, eb)));
    }
}

/// Evaluation is multiplicative over an exact product decomposition.
pub proof fn lemma_eval_times(s: Seq<u64>, q: Seq<u64>, d: Seq<u64>, x: int)
    requires
        wf_values(s),
        wf_values(q),
        wf_values(d),
        in_field(x),
        is_times(s, q, d),
    ensures
        eval_poly(s, x) == fmul(eval_poly(q, x), eval_poly(d, x)),
{
    let n: int = q.len() as int + d.len() as int + s.len() as int;
    let sc = Seq::new(n as nat, |k: int| conv_at(q, d, k) as u64);
    assert forall|k: int| 0 <= k < n implies in_field(#[trigger] conv_at(q, d, k)) by {
        lemma_conv_prefix_in_field(q, d, k, q.len() as int);
    }
    assert(wf_values(sc));
    assert forall|k: int| #[trigger] coeff(sc, k) == coeff(s, k) by {
        if 0 <= k < n {
            assert(coeff(s, k) == conv_at(q, d, k));
        } else {
            assert(coeff(s, k) == 0);
        }
    }
    lemma_eval_poly_coeffwise(s, sc, x);
    lemma_eval_poly_sum(sc, x);
    lemma_eval_sum_extend(sc, x, n);
    assert forall|k: int| 0 <= k < n implies #[trigger] coeff(sc, k) == conv_at(q, d, k) by {
        lemma_conv_prefix_in_field(q, d, k, q.len() as int);
    }
    lemma_eval_conv(q, d, sc, x, n);
}

/// The canonical product of two well-formed coefficient sequences: empty
/// if either factor is empty, else the convolution.
pub open spec fn pmul_spec(a: Seq<u64>, b: Seq<u64>) -> Seq<u64> {
    if a.len() == 0 || b.len() == 0 {
        Seq::<u64>::empty()
    } else {
        Seq::new((a.len() + b.len() - 1) as nat, |k: int| conv_at(a, b, k) as u64)
    }
}

/// The monic linear factor `x - p`, as a coefficient sequence.
pub open spec fn linear_factor(p: int) -> Seq<u64> {
    seq![fneg(p) as u64, 1u64]
}

/// The vanishing polynomial of a point sequence: the product of the
/// factors `x - p` over the points, in order.
pub open spec fn vanish_spec(pts: Seq<u64>) -> Seq<u64>
    decreases pts.len(),
{
    if pts.len() == 0 {
        seq![1u64]
    } else {
        pmul_spec(vanish_spec(pts.drop_last()), linear_factor(pts.last() as int))
    }
}

/// The product sequence realises the convolution at every position.
pub proof fn lemma_pmul_coeff(a: Seq<u64>, b: Seq<u64>)
    requires
        wf_values(a),
        a.len() > 0,
        b.len() > 0,
    ensures
        forall|k: int| #[trigger] coeff(pmul_spec(a, b), k) == conv_at(a, b, k),
        pmul_spec(a, b).len() == a.len() + b.len() - 1,
        wf_values(pmul_spec(a, b)),
{
    let c = pmul_spec(a, b);
    assert forall|k: int| #[trigger] coeff(c, k) == conv_at(a, b, k) by {
        if 0 <= k < c.len() {
            lemma_conv_prefix_in_field(a, b, k, a.len() as int);
        } else {
            lemma_conv_beyond(a, b, k);
        }
    }
    assert forall|i: int| 0 <= i < c.len() implies c[i] < MODULUS by {
        lemma_conv_prefix_in_field(a, b, i, a.len() as int);
    }
}

/// The vanishing polynomial is well formed, monic, and one longer than
/// its point sequence.
pub proof fn lemma_vanish_props(pts: Seq<u64>)
    requires
        wf_values(pts),
    ensures
        poly_wf(vanish_spec(pts)),
        vanish_spec(pts).len() == pts.len() + 1,
        vanish_spec(pts).last() == 1,
    decreases pts.len(),
{
    if pts.len() == 0 {
    } else {
        let rest = pts.drop_last();
        lemma_vanish_props(rest);
        let v = vanish_spec(rest);
        let m = linear_factor(pts.last() as int);
        assert(wf_values(m));
        lemma_pmul_coeff(v, m);
        lemma_conv_top(v, m);
        let c = pmul_spec(v, m);
        assert(coeff(c, c.len() - 1) == fmul(coeff(v, v.len() - 1), coeff(m, 1)));
        lemma_fmul_basic(1, 1);
        assert(fmul(1, 1) == 1);
        assert(c[c.len() - 1] == 1);
    }
}

/// Horner evaluation of a coefficient-wise sum.
pub proof fn lemma_eval_poly_add(sa: Seq<u64>, sb: Seq<u64>, sc: Seq<u64>, x: int)
    requires
        wf_values(sa),
        wf_values(sb),
        wf_values(sc),
        in_field(x),
        forall|k: int| #[trigger] coeff(sc, k) == fadd(coeff(sa, k), coeff(sb, k)),
    ensures
        eval_poly(sc, x) == fadd(eval_poly(sa, x), eval_poly(sb, x)),
{
    let n: int = sa.len() as int + sb.len() as int + sc.len() as int;
    lemma_eval_poly_sum(sa, x);
    lemma_eval_poly_sum(sb, x);
    lemma_eval_poly_sum(sc, x);
    lemma_eval_sum_extend(sa, x, n);
    lemma_eval_sum_extend(sb, x, n);
    lemma_eval_sum_extend(sc, x, n);
    lemma_eval_sum_add(sa, sb, sc, x, n);
}

/// Horner evaluation of a coefficient-wise scaled sequence.
pub proof fn lemma_eval_poly_scale(sa: Seq<u64>, sc: Seq<u64>, t: int, x: int)
    requires
        wf_values(sa),
        wf_values(sc),
        in_field(x),
        forall|k: int| #[trigger] coeff(sc, k) == fmul(t, coeff(sa, k)),
    ensures
        eval_poly(sc, x) == fmul(t, eval_poly(sa, x)),
{
    let n: int = sa.len() as int + sc.len() as int;
    lemma_eval_poly_sum(sa, x);
    lemma_eval_poly_sum(sc, x);
    lemma_eval_sum_extend(sa, x, n);
    lemma_eval_sum_extend(sc, x, n);
    lemma_eval_sum_scale(sa, sc, t, x, n);
}

/// The monic linear factor evaluates to `c + x`.
proof fn lemma_eval_linear(c: int, x: int)
    requires
        in_field(c),
        in_field(x),
    ensures
        eval_poly(seq![c as u64, 1u64], x) == fadd(c, x),
{
    reveal_with_fuel(eval_poly, 4);
    let s = seq![c as u64, 1u64];
    let s1 = s.drop_first();
    assert(s1 =~= seq![1u64]);
    assert(s1.drop_first() =~= Seq::<u64>::empty());
    lemma_fmul_zero(x);
    assert(eval_poly(s1, x) == fadd(1, fmul(x, 0)));
    lemma_fadd_basic(1, 0);
    assert(eval_poly(s1, x) == 1);
    lemma_fmul_basic(x, 1);
    assert(eval_poly(s, x) == fadd(c, fmul(x, 1)));
}

/// The closed form of a convolution with a monic linear factor.
proof fn lemma_conv_linear_prefix(a: Seq<u64>, c0: int, k: int, n: int)
    requires
        wf_values(a),
        in_field(c0),
        0 <= n <= a.len(),
    ensures
        conv_prefix(a, seq![c0 as u64, 1u64], k, n) == fadd(
            if 0 <= k < n { fmul(coeff(a, k), c0) } else { 0 },
            if 0 <= k - 1 < n { coeff(a, k - 1) } else { 0 },
        ),
    decreases n,
{
    let b = seq![c0 as u64, 1u64];
    lemma_coeff_in_field(a);
    if n == 0 {
        assert(fadd(0, 0) == 0);
    } else {
        lemma_conv_linear_prefix(a, c0, k, n - 1);
        let t = n - 1;
        let term = fmul(coeff(a, t), coeff(b, k - t));
        let p1 = if 0 <= k < n - 1 { fmul(coeff(a, k), c0) } else { 0 };
        let p2 = if 0 <= k - 1 < n - 1 { coeff(a, k - 1) } else { 0 };
        if k == t {
            assert(coeff(b, 0) == c0);
            assert(term == fmul(coeff(a, k), c0));
            assert(p1 == 0);
            lemma_fadd_basic(p2, 0);
            assert(fadd(0, p2) == p2);
            lemma_fadd_basic(term, p2);
            assert(conv_prefix(a, b, k, n) == fadd(p2, term));
        } else if k - 1 == t {
            assert(coeff(b, 1) == 1);
            lemma_fmul_basic(coeff(a, t), 1);
            assert(term == coeff(a, k - 1));
            assert(p1 == 0 && p2 == 0);
            assert(fadd(0, 0) == 0);
            lemma_fadd_basic(term, 0);
            assert(conv_prefix(a, b, k, n) == fadd(0, term));
            assert(k == n);
            lemma_fadd_basic(0, term);
        } else {
            assert(coeff(b, k - t) == 0);
            lemma_fmul_basic(coeff(a, t), 0);
            assert(term == 0);
            lemma_fadd_basic(fadd(p1, p2), 0);
        }
    }
}

/// The convolution with a monic linear factor, in closed form.
pub proof fn lemma_conv_linear(a: Seq<u64>, c0: int, k: int)
    requires
        wf_values(a),
        in_field(c0),
    ensures
        conv_at(a, seq![c0 as u64, 1u64], k) == fadd(fmul(coeff(a, k), c0), coeff(a, k - 1)),
{
    lemma_conv_linear_prefix(a, c0, k, a.len() as int);
    lemma_fmul_zero(c0);
    assert(fmul(0, c0) == 0);
    lemma_coeff_in_field(a);
    if !(0 <= k < a.len()) {
        assert(coeff(a, k) == 0);
    }
    if !(0 <= k - 1 < a.len()) {
        assert(coeff(a, k - 1) == 0);
    }
}

/// The closed form of a convolution with a constant polynomial.
proof fn lemma_conv_singleton_prefix(a: Seq<u64>, c0: int, k: int, n: int)
    requires
        wf_values(a),
        in_field(c0),
        0 <= n,
    ensures
        conv_prefix(a, seq![c0 as u64], k, n) == if 0 <= k < n {
            fmul(coeff(a, k), c0)
        } else {
            0
        },
    decreases n,
{
    let b = seq![c0 as u64];
    lemma_coeff_in_field(a);
    if n == 0 {
    } else {
        lemma_conv_singleton_prefix(a, c0, k, n - 1);
        let t = n - 1;
        let term = fmul(coeff(a, t), coeff(b, k - t));
        if t == k {
            assert(coeff(b, 0) == c0);
            lemma_fadd_basic(term, 0);
            assert(conv_prefix(a, b, k, n) == fadd(0, term));
        } else {
            assert(coeff(b, k - t) == 0);
            lemma_fmul_basic(coeff(a, t), 0);
            assert(term == 0);
            lemma_fadd_basic(conv_prefix(a, b, k, n - 1), 0);
        }
    }
}

/// The convolution with a constant polynomial scales every coefficient.
pub proof fn lemma_conv_singleton(a: Seq<u64>, c0: int, k: int)
    requires
        wf_values(a),
        in_field(c0),
    ensures
        conv_at(a, seq![c0 as u64], k) == fmul(coeff(a, k), c0),
{
    lemma_conv_singleton_prefix(a, c0, k, a.len() as int);
    if !(0 <= k < a.len()) {
        assert(coeff(a, k) == 0);
        lemma_fmul_zero(c0);
        assert(fmul(0, c0) == 0);
    }
}

/// Two monic linear factors can be multiplied in either order.
proof fn lemma_pmul_linear_swap(v: Seq<u64>, c: int, d: int)
    requires
        poly_wf(v),
        v.len() > 0,
        in_field(c),
        in_field(d),
    ensures
        pmul_spec(pmul_spec(v, seq![c as u64, 1u64]), seq![d as u64, 1u64])
            == pmul_spec(pmul_spec(v, seq![d as u64, 1u64]), seq![c as u64, 1u64]),
{
    let fc = seq![c as u64, 1u64];
    let fd = seq![d as u64, 1u64];
    let vc = pmul_spec(v, fc);
    let vd = pmul_spec(v, fd);
    lemma_pmul_coeff(v, fc);
    lemma_pmul_coeff(v, fd);
    lemma_conv_top(v, fc);
    lemma_conv_top(v, fd);
    lemma_fmul_basic(coeff(v, v.len() - 1), 1);
    assert(canonical(vc));
    assert(canonical(vd));
    lemma_pmul_coeff(vc, fd);
    lemma_pmul_coeff(vd, fc);
    let lhs = pmul_spec(vc, fd);
    let rhs = pmul_spec(vd, fc);
    lemma_conv_top(vc, fd);
    lemma_conv_top(vd, fc);
    assert(coeff(lhs, lhs.len() - 1) != 0);
    assert(coeff(rhs, rhs.len() - 1) != 0);
    assert(canonical(lhs));
    assert(canonical(rhs));
    lemma_coeff_in_field(v);
    assert forall|k: int| #[trigger] coeff(lhs, k) == coeff(rhs, k) by {
        let vk = coeff(v, k);
        let vk1 = coeff(v, k - 1);
        let vk2 = coeff(v, k - 2);
        lemma_conv_linear(vc, d, k);
        lemma_conv_linear(v, c, k);
        lemma_conv_linear(v, c, k - 1);
        assert(coeff(lhs, k) == fadd(fmul(fadd(fmul(vk, c), vk1), d), fadd(fmul(vk1, c), vk2)));
        lemma_conv_linear(vd, c, k);
        lemma_conv_linear(v, d, k);
        lemma_conv_linear(v, d, k - 1);
        assert(coeff(rhs, k) == fadd(fmul(fadd(fmul(vk, d), vk1), c), fadd(fmul(vk1, d), vk2)));
        lemma_fmul_distrib(fmul(vk, c), vk1, d);
        lemma_fmul_distrib(fmul(vk, d), vk1, c);
        lemma_fadd4(fmul(fmul(vk, c), d), fmul(vk1, d), fmul(vk1, c), vk2);
        lemma_fadd4(fmul(fmul(vk, d), c), fmul(vk1, c), fmul(vk1, d), vk2);
        lemma_fmul_assoc(vk, c, d);
        lemma_fmul_assoc(vk, d, c);
        assert(vk * c * d == vk * d * c) by (nonlinear_arith);
    }
    assert(lhs.len() == rhs.len());
    lemma_canonical_coeff_eq(lhs, rhs);
}

/// The vanishing polynomial factors through any one of its points.
pub proof fn lemma_vanish_remove(pts: Seq<u64>, i: int)
    requires
        wf_values(pts),
        0 <= i < pts.len(),
    ensures
        vanish_spec(pts) == pmul_spec(vanish_spec(pts.remove(i)), linear_factor(pts[i] as int)),
    decreases pts.len(),
{
    if i == pts.len() - 1 {
        assert(pts.remove(i) =~= pts.drop_last());
    } else {
        let rest = pts.drop_last();
        assert(wf_values(rest));
        lemma_vanish_remove(rest, i);
        let inner = rest.remove(i);
        assert(wf_values(inner)) by {
            assert(forall|t: int| 0 <= t < inner.len() ==> inner[t] == rest[if t < i { t } else { t + 1 }]);
        }
        lemma_vanish_props(inner);
        let vi = vanish_spec(inner);
        lemma_pmul_linear_swap(vi, fneg(pts[i] as int), fneg(pts.last() as int));
        assert(linear_factor(pts[i] as int) =~= seq![fneg(pts[i] as int) as u64, 1u64]);
        assert(linear_factor(pts.last() as int) =~= seq![fneg(pts.last() as int) as u64, 1u64]);
        // vanish(pts) == pmul(pmul(vi, lf_i), lf_last) == pmul(pmul(vi, lf_last), lf_i)
        assert(vanish_spec(pts) == pmul_spec(pmul_spec(vi, linear_factor(pts[i] as int)),
            linear_factor(pts.last() as int)));
        // and vanish(pts.remove(i)) == pmul(vi, lf_last)
        let removed = pts.remove(i);
        assert(removed.last() == pts.last());
        assert(removed.drop_last() =~= inner);
        assert(vanish_spec(removed) == pmul_spec(vi, linear_factor(pts.last() as int)));
    }
}

/// The vanishing polynomial evaluates to zero at each of its points.
pub proof fn lemma_vanish_root(pts: Seq<u64>, j: int)
    requires
        wf_values(pts),
        0 <= j < pts.len(),
    ensures
        eval_poly(vanish_spec(pts), pts[j] as int) == 0,
    decreases pts.len(),
{
    let x = pts[j] as int;
    let rest = pts.drop_last();
    let v = vanish_spec(rest);
    let m = linear_factor(pts.last() as int);
    lemma_vanish_props(rest);
    lemma_vanish_props(pts);
    lemma_pmul_coeff(v, m);
    assert(is_times(vanish_spec(pts), v, m));
    lemma_eval_times(vanish_spec(pts), v, m, x);
    if j == pts.len() - 1 {
        lemma_eval_linear(fneg(x), x);
        assert(m =~= seq![fneg(x) as u64, 1u64]);
        assert(fadd(fneg(x), x) == 0) by {
            lemma_add_mod_noop(0 - x, x, MODULUS as int);
            lemma_small_mod(x as nat, MODULUS as nat);
        }
        lemma_fmul_zero(eval_poly(v, x));
    } else {
        lemma_vanish_root(rest, j);
        lemma_fmul_zero(eval_poly(m, x));
        assert(fmul(0, eval_poly(m, x)) == 0);
    }
}

/// The vanishing polynomial is nonzero away from its points.
pub proof fn lemma_vanish_nonroot(pts: Seq<u64>, x: int)
    requires
        wf_values(pts),
        in_field(x),
        forall|j: int| 0 <= j < pts.len() ==> pts[j] as int != x,
    ensures
        in_field(eval_poly(vanish_spec(pts), x)),
        eval_poly(vanish_spec(pts), x) != 0,
    decreases pts.len(),
{
    if pts.len() == 0 {
        lemma_eval_linear(1, x);
        assert(vanish_spec(pts) =~= seq![1u64]);
        reveal_with_fuel(eval_poly, 3);
        assert(eval_poly(seq![1u64], x) == fadd(1, fmul(x, 0)));
        lemma_fmul_zero(x);
        lemma_fadd_basic(1, 0);
    } else {
        let rest = pts.drop_last();
        let p = pts.last() as int;
        let v = vanish_spec(rest);
        let m = linear_factor(p);
        lemma_vanish_props(rest);
        lemma_pmul_coeff(v, m);
        assert(is_times(vanish_spec(pts), v, m));
        lemma_eval_times(vanish_spec(pts), v, m, x);
        lemma_vanish_nonroot(rest, x);
        lemma_eval_linear(fneg(p), x);
        assert(m =~= seq![fneg(p) as u64, 1u64]);
        assert(eval_poly(m, x) == fadd(fneg(p), x));
        assert(fadd(fneg(p), x) == (x - p) % (MODULUS as int)) by {
            lemma_add_mod_noop(0 - p, x, MODULUS as int);
            lemma_small_mod(x as nat, MODULUS as nat);
        }
        assert((x - p) % (MODULUS as int) != 0);
        lemma_fmul_nonzero(eval_poly(v, x), eval_poly(m, x));
    }
}

/// The canonical product of a sequence of coefficient sequences, folded
/// from the identity polynomial 1.
pub open spec fn product_spec(vs: Seq<Seq<u64>>) -> Seq<u64>
    decreases vs.len(),
{
    if vs.len() == 0 {
        seq![1u64]
    } else {
        pmul_spec(product_spec(vs.drop_last()), vs.last())
    }
}

/// The total length of a sequence of coefficient sequences.
pub open spec fn total_len(vs: Seq<Seq<u64>>) -> int
    decreases vs.len(),
{
    if vs.len() == 0 {
        0
    } else {
        total_len(vs.drop_last()) + vs.last().len()
    }
}

/// Total lengths are nonnegative.
pub proof fn lemma_total_len_nonneg(vs: Seq<Seq<u64>>)
    ensures
        total_len(vs) >= 0,
    decreases vs.len(),
{
    if vs.len() == 0 {
    } else {
        lemma_total_len_nonneg(vs.drop_last());
    }
}

/// A prefix has total length at most that of the whole sequence.
pub proof fn lemma_total_len_prefix(vs: Seq<Seq<u64>>, i: int)
    requires
        0 <= i <= vs.len(),
    ensures
        total_len(vs.subrange(0, i)) <= total_len(vs),
    decreases vs.len() - i,
{
    if i == vs.len() {
        assert(vs.subrange(0, i) =~= vs);
    } else {
        lemma_total_len_prefix(vs, i + 1);
        assert(vs.subrange(0, i + 1).drop_last() =~= vs.subrange(0, i));
        assert(vs.subrange(0, i + 1).last() == vs[i]);
        assert(total_len(vs.subrange(0, i + 1)) == total_len(vs.subrange(0, i)) + vs[i].len());
    }
}

/// The running product is well formed and bounded in length by the
/// total length of its factors.
pub proof fn lemma_product_props(vs: Seq<Seq<u64>>)
    requires
        forall|i: int| 0 <= i < vs.len() ==> poly_wf(#[trigger] vs[i]),
    ensures
        poly_wf(product_spec(vs)),
        product_spec(vs).len() <= 1 + total_len(vs),
    decreases vs.len(),
{
    lemma_total_len_nonneg(vs);
    if vs.len() == 0 {
    } else {
        let rest = vs.drop_last();
        assert(forall|i: int| 0 <= i < rest.len() ==> poly_wf(#[trigger] rest[i]));
        lemma_product_props(rest);
        lemma_total_len_nonneg(rest);
        let v = product_spec(rest);
        let b = vs.last();
        assert(poly_wf(b));
        if v.len() == 0 || b.len() == 0 {
            assert(pmul_spec(v, b) =~= Seq::<u64>::empty());
        } else {
            lemma_pmul_coeff(v, b);
            lemma_conv_top(v, b);
            assert(coeff(pmul_spec(v, b), v.len() + b.len() - 2) != 0);
            assert(canonical(pmul_spec(v, b)));
        }
    }
}

/// Stores a polynomial in coefficient form.
#[derive(Clone, PartialEq, Eq, Hash, Default)]
pub struct Polynomial {
    /// The coefficient of `x^i` is stored at location `i` in `self.coeffs`.
    pub coeffs: Vec<u64>,
}

impl View for Polynomial {
    type V = Seq<u64>;

    open spec fn view(&self) -> Seq<u64> {
        self.coeffs@
    }
}

/// The coefficient views of a sequence of polynomials.
pub open spec fn views_of(s: Seq<Polynomial>) -> Seq<Seq<u64>> {
    s.map_values(|p: Polynomial| p@)
}

impl Polynomial {
    /// Reduced coefficients, no trailing zero.
    pub open spec fn wf(&self) -> bool {
        poly_wf(self@)
    }

    /// The zero polynomial: an empty coefficient vector.
    pub fn zero() -> (r: Polynomial)
        ensures
            r@ == Seq::<u64>::empty(),
            r.wf(),
    {
        Polynomial { coeffs: Vec::new() }
    }

    /// The constant polynomial 1.
    pub fn one() -> (r: Polynomial)
        ensures
            r@ == seq![1u64],
            r.wf(),
    {
        let mut coeffs: Vec<u64> = Vec::new();
        coeffs.push(1);
        Polynomial { coeffs }
    }

    /// The monic linear polynomial `coeff + x`.
    pub fn monomial(coeff: u64) -> (r: Polynomial)
        requires
            coeff < MODULUS,
        ensures
            r@ == seq![coeff, 1u64],
            r.wf(),
    {
        let mut coeffs: Vec<u64> = Vec::new();
        coeffs.push(coeff);
        coeffs.push(1);
        Polynomial { coeffs }
    }

    /// Wraps a coefficient vector without truncating it.
    pub fn from_coeffs(coeffs: Vec<u64>) -> (r: Polynomial)
        requires
            wf_values(coeffs@),
        ensures
            r@ == coeffs@,
    {
        Polynomial { coeffs }
    }

    /// A copy of this polynomial.
    pub fn copy(&self) -> (r: Polynomial)
        ensures
            r@ == self@,
    {
        let mut coeffs: Vec<u64> = Vec::new();
        let mut i: usize = 0;
        while i < self.coeffs.len()
            invariant
                i <= self.coeffs.len(),
                coeffs@ == self.coeffs@.subrange(0, i as int),
            decreases self.coeffs.len() - i,
        {
            coeffs.push(self.coeffs[i]);
            i = i + 1;
            proof {
                assert(coeffs@ =~= self.coeffs@.subrange(0, i as int));
            }
        }
        proof {
            assert(coeffs@ =~= self.coeffs@);
        }
        Polynomial { coeffs }
    }

    /// Removes trailing zero coefficients.
    pub fn truncate_leading_zeros(self) -> (r: Polynomial)
        ensures
            r@ == trunc(self@),
    {
        let mut coeffs = self.coeffs;
        let ghost orig: Seq<u64> = coeffs@;
        while coeffs.len() > 0 && coeffs[coeffs.len() - 1] == 0
            invariant
                trunc(coeffs@) == trunc(orig),
            decreases coeffs.len(),
        {
            proof {
                assert(coeffs@.drop_last() =~= coeffs@.subrange(0, coeffs@.len() - 1));
            }
            coeffs.pop();
        }
        Polynomial { coeffs }
    }

    /// Whether this is the zero polynomial.
    pub fn is_zero(&self) -> (r: bool)
        ensures
            r == (self@.len() == 0),
    {
        self.coeffs.len() == 0
    }

    /// The degree of a nonzero polynomial; reports 0 for the zero
    /// polynomial, which callers must gate with `is_zero`.
    pub fn degree(&self) -> (r: usize)
        ensures
            r as int == degree_of(self@),
    {
        if self.is_zero() {
            return 0;
        }
        self.coeffs.len() - 1
    }

    /// Horner's method for polynomial evaluation.
    fn horner_evaluate(poly_coeffs: &Vec<u64>, point: &u64) -> (r: u64)
        requires
            wf_values(poly_coeffs@),
            *point < MODULUS,
        ensures
            r as int == eval_poly(poly_coeffs@, *point as int),
            in_field(r as int),
    {
        let ghost s: Seq<u64> = poly_coeffs@;
        let ghost x: int = *point as int;
        let mut acc: u64 = 0;
        let mut i: usize = poly_coeffs.len();
        while i > 0
            invariant
                i <= poly_coeffs.len(),
                wf_values(s),
                s == poly_coeffs@,
                x == *point as int,
                in_field(x),
                in_field(acc as int),
                acc as int == eval_poly(s.subrange(i as int, s.len() as int), x),
            decreases i,
        {
            i = i - 1;
            proof {
                let tail = s.subrange(i as int, s.len() as int);
                assert(tail.len() > 0);
                assert(tail[0] == s[i as int]);
                assert(tail.drop_first() =~= s.subrange(i as int + 1, s.len() as int));
            }
            let ghost prior: int = acc as int;
            acc = fe_add(fe_mul(acc, *point), poly_coeffs[i]);
            proof {
                let tail = s.subrange(i as int, s.len() as int);
                let prev = s.subrange(i as int + 1, s.len() as int);
                let e = eval_poly(prev, x);
                assert(eval_poly(tail, x) == fadd(coeff(tail, 0), fmul(x, e)));
                assert(acc as int == fadd(fmul(prior, x), s[i as int] as int));
                lemma_fmul_basic(prior, x);
                assert(fmul(prior, x) == fmul(x, e));
                lemma_fadd_basic(fmul(x, e), s[i as int] as int);
                assert(acc as int == fadd(s[i as int] as int, fmul(x, e)));
            }
        }
        proof {
            assert(s.subrange(0, s.len() as int) =~= s);
        }
        acc
    }

    /// Evaluates the polynomial at `point`; the zero polynomial
    /// evaluates to the field's zero.
    pub fn evaluate(&self, point: &u64) -> (r: u64)
        requires
            wf_values(self@),
            *point < MODULUS,
        ensures
            r as int == eval_poly(self@, *point as int),
            in_field(r as int),
    {
        if self.is_zero() {
            return 0;
        }
        Polynomial::horner_evaluate(&self.coeffs, point)
    }

    /// Coefficient-wise sum, truncated to canonical form.
    pub fn add(&self, other: &Polynomial) -> (r: Polynomial)
        requires
            self.wf(),
            other.wf(),
        ensures
            r.wf(),
            r@.len() <= if self@.len() >= other@.len() { self@.len() } else { other@.len() },
            forall|k: int| #[trigger] coeff(r@, k) == fadd(coeff(self@, k), coeff(other@, k)),
    {
        let a = &self.coeffs;
        let b = &other.coeffs;
        if self.is_zero() {
            proof {
                lemma_coeff_fadd_zero(other@);
            }
            return other.copy();
        }
        if other.is_zero() {
            proof {
                lemma_coeff_fadd_zero(self@);
            }
            return self.copy();
        }
        let n = if a.len() >= b.len() { a.len() } else { b.len() };
        let mut out: Vec<u64> = Vec::new();
        let mut k: usize = 0;
        while k < n
            invariant
                k <= n,
                n == if a@.len() >= b@.len() { a@.len() } else { b@.len() },
                a@ == self@,
                b@ == other@,
                wf_values(a@),
                wf_values(b@),
                out@.len() == k,
                wf_values(out@),
                forall|t: int| 0 <= t < k ==> out@[t] as int == fadd(coeff(a@, t), coeff(b@, t)),
            decreases n - k,
        {
            let ca = if k < a.len() { a[k] } else { 0 };
            let cb = if k < b.len() { b[k] } else { 0 };
            out.push(fe_add(ca, cb));
            k = k + 1;
        }
        let ghost full: Seq<u64> = out@;
        let r = Polynomial::from_coeffs(out).truncate_leading_zeros();
        proof {
            lemma_trunc(full);
            assert forall|j: int| #[trigger] coeff(r@, j) == fadd(coeff(self@, j), coeff(other@, j)) by {
                assert(coeff(r@, j) == coeff(full, j));
                if 0 <= j < n {
                    assert(coeff(full, j) == full[j] as int);
                } else {
                    assert(coeff(self@, j) == 0 && coeff(other@, j) == 0);
                }
            }
        }
        r
    }

    /// Adds `other` into `self`, coefficient-wise.
    pub fn add_assign(&mut self, other: &Polynomial)
        requires
            old(self).wf(),
            other.wf(),
        ensures
            final(self).wf(),
            final(self)@.len() <= if old(self)@.len() >= other@.len() {
                old(self)@.len()
            } else {
                other@.len()
            },
            forall|k: int| #[trigger] coeff(final(self)@, k)
                == fadd(coeff(old(self)@, k), coeff(other@, k)),
    {
        let sum = self.add(other);
        *self = sum;
    }

    /// Coefficient-wise negation.
    pub fn neg(&self) -> (r: Polynomial)
        requires
            self.wf(),
        ensures
            r.wf(),
            r@.len() == self@.len(),
            forall|k: int| #[trigger] coeff(r@, k) == fneg(coeff(self@, k)),
    {
        let mut out: Vec<u64> = Vec::new();
        let mut k: usize = 0;
        while k < self.coeffs.len()
            invariant
                k <= self.coeffs.len(),
                wf_values(self@),
                out@.len() == k,
                wf_values(out@),
                forall|t: int| 0 <= t < k ==> out@[t] as int == fneg(coeff(self@, t)),
            decreases self.coeffs.len() - k,
        {
            out.push(fe_neg(self.coeffs[k]));
            k = k + 1;
        }
        proof {
            if self@.len() > 0 {
                assert(out@[self@.len() - 1] as int == fneg(coeff(self@, self@.len() - 1)));
            }
        }
        Polynomial { coeffs: out }
    }

    /// Coefficient-wise difference, truncated to canonical form.
    pub fn sub(&self, other: &Polynomial) -> (r: Polynomial)
        requires
            self.wf(),
            other.wf(),
        ensures
            r.wf(),
            r@.len() <= if self@.len() >= other@.len() { self@.len() } else { other@.len() },
            forall|k: int| #[trigger] coeff(r@, k) == fsub(coeff(self@, k), coeff(other@, k)),
    {
        let negated = other.neg();
        let r = self.add(&negated);
        proof {
            assert forall|k: int| #[trigger] coeff(r@, k) == fsub(coeff(self@, k), coeff(other@, k)) by {
                assert(coeff(r@, k) == fadd(coeff(self@, k), coeff(negated@, k)));
                assert(coeff(negated@, k) == fneg(coeff(other@, k)));
                lemma_fadd_fneg(coeff(self@, k), coeff(other@, k));
            }
        }
        r
    }

    /// The product polynomial: coefficient `k` of the result is the
    /// convolution of the inputs' coefficients at `k`.  The product of a
    /// zero polynomial with anything is the zero polynomial.
    pub fn mul(&self, other: &Polynomial) -> (r: Polynomial)
        requires
            self.wf(),
            other.wf(),
            self@.len() + other@.len() <= usize::MAX,
        ensures
            r.wf(),
            forall|k: int| #[trigger] coeff(r@, k) == conv_at(self@, other@, k),
            r@.len() == if self@.len() == 0 || other@.len() == 0 {
                0
            } else {
                self@.len() + other@.len() - 1
            },
    {
        let ghost av: Seq<u64> = self@;
        let ghost bv: Seq<u64> = other@;
        if self.is_zero() || other.is_zero() {
            proof {
                assert forall|k: int| #[trigger] conv_at(av, bv, k) == 0 by {
                    if av.len() == 0 {
                    } else {
                        assert forall|t: int| 0 <= t < av.len() implies
                            #[trigger] fmul(coeff(av, t), coeff(bv, k - t)) == 0 by {
                            lemma_coeff_in_field(av);
                            lemma_fmul_basic(coeff(av, t), 0);
                        }
                        lemma_conv_all_terms_zero(av, bv, k, av.len() as int);
                    }
                }
            }
            return Polynomial::zero();
        }
        let la = self.coeffs.len();
        let lb = other.coeffs.len();
        let n = la + lb - 1;
        let mut out: Vec<u64> = Vec::new();
        let mut t: usize = 0;
        while t < n
            invariant
                t <= n,
                out@.len() == t,
                forall|k: int| 0 <= k < t ==> out@[k] == 0,
            decreases n - t,
        {
            out.push(0);
            t = t + 1;
        }
        let mut i: usize = 0;
        proof {
            assert forall|k: int| 0 <= k < n implies out@[k] as int == conv_prefix(av, bv, k, 0) by {}
        }
        while i < la
            invariant
                i <= la,
                la == av.len(),
                lb == bv.len(),
                la > 0,
                lb > 0,
                n == la + lb - 1,
                av == self@,
                bv == other@,
                wf_values(av),
                wf_values(bv),
                out@.len() == n,
                wf_values(out@),
                forall|k: int| 0 <= k < n ==> out@[k] as int == conv_prefix(av, bv, k, i as int),
            decreases la - i,
        {
            let mut j: usize = 0;
            while j < lb
                invariant
                    j <= lb,
                    i < la,
                    la == av.len(),
                    lb == bv.len(),
                    la > 0,
                    lb > 0,
                    n == la + lb - 1,
                    av == self@,
                    bv == other@,
                    wf_values(av),
                    wf_values(bv),
                    out@.len() == n,
                    wf_values(out@),
                    forall|k: int| 0 <= k < n ==> out@[k] as int == if i <= k < i + j {
                        conv_prefix(av, bv, k, i as int + 1)
                    } else {
                        conv_prefix(av, bv, k, i as int)
                    },
                decreases lb - j,
            {
                let idx = i + j;
                let v = fe_add(out[idx], fe_mul(self.coeffs[i], other.coeffs[j]));
                out[idx] = v;
                proof {
                    assert(out@[idx as int] as int == fadd(
                        conv_prefix(av, bv, idx as int, i as int),
                        fmul(coeff(av, i as int), coeff(bv, idx as int - i)),
                    ));
                }
                j = j + 1;
            }
            proof {
                assert forall|k: int| 0 <= k < n implies out@[k] as int == conv_prefix(av, bv, k, i as int + 1) by {
                    if i <= k < i + lb {
                    } else {
                        assert(coeff(bv, k - i) == 0);
                        lemma_coeff_in_field(av);
                        lemma_fmul_basic(coeff(av, i as int), 0);
                        lemma_conv_prefix_in_field(av, bv, k, i as int);
                        lemma_fadd_basic(conv_prefix(av, bv, k, i as int), 0);
                    }
                }
            }
            i = i + 1;
        }
        proof {
            lemma_conv_top(av, bv);
            assert(out@[n - 1] as int == conv_at(av, bv, n - 1));
            assert forall|k: int| #[trigger] coeff(out@, k) == conv_at(av, bv, k) by {
                if 0 <= k < n {
                } else {
                    lemma_conv_beyond(av, bv, k);
                }
            }
        }
        Polynomial { coeffs: out }
    }

    /// Classical schoolbook division: returns `(quotient, remainder)` with
    /// `self == quotient * divisor + remainder` coefficient-wise and the
    /// remainder of strictly smaller length than the divisor.
    pub fn divide_with_q_and_r(&self, divisor: &Polynomial) -> (qr: (Polynomial, Polynomial))
        requires
            self.wf(),
            divisor.wf(),
            divisor@.len() > 0,
        ensures
            qr.0.wf(),
            qr.1.wf(),
            qr.1@.len() < divisor@.len(),
            qr.0@.len() == if self@.len() < divisor@.len() {
                0
            } else {
                self@.len() - divisor@.len() + 1
            },
            forall|k: int| #[trigger] coeff(self@, k)
                == fadd(conv_at(qr.0@, divisor@, k), coeff(qr.1@, k)),
    {
        let ghost sv: Seq<u64> = self@;
        let ghost dv: Seq<u64> = divisor@;
        let la = self.coeffs.len();
        let ld = divisor.coeffs.len();
        if self.is_zero() || la < ld {
            proof {
                lemma_coeff_fadd_zero(sv);
                assert(forall|k: int| conv_at(Seq::<u64>::empty(), dv, k) == 0);
            }
            let q = Polynomial::zero();
            let r = if self.is_zero() { Polynomial::zero() } else { self.copy() };
            return (q, r);
        }
        // Quotient slots, filled from the top down.
        let qlen = la - ld + 1;
        let mut q: Vec<u64> = Vec::new();
        let mut t: usize = 0;
        while t < qlen
            invariant
                t <= qlen,
                q@.len() == t,
                forall|u: int| 0 <= u < t ==> q@[u] == 0,
            decreases qlen - t,
        {
            q.push(0);
            t = t + 1;
        }
        let mut rem: Vec<u64> = self.copy().coeffs;
        let lead_inv = fe_inv(divisor.coeffs[ld - 1]);
        proof {
            lemma_conv_zero_a(q@, dv, 0, q@.len() as int);
            assert forall|k: int| #[trigger] coeff(sv, k)
                == fadd(conv_at(q@, dv, k), coeff(rem@, k)) by {
                lemma_conv_zero_a(q@, dv, k, q@.len() as int);
                lemma_coeff_fadd_zero(sv);
            }
        }
        while rem.len() >= ld
            invariant
                la == sv.len(),
                ld == dv.len(),
                0 < ld <= la,
                sv == self@,
                dv == divisor@,
                poly_wf(sv),
                poly_wf(dv),
                sv.len() > 0,
                wf_values(rem@),
                canonical(rem@),
                rem@.len() <= la,
                q@.len() == la - ld + 1,
                wf_values(q@),
                in_field(lead_inv as int),
                fmul(coeff(dv, ld - 1), lead_inv as int) == 1,
                forall|u: int| 0 <= u <= rem@.len() - ld ==> q@[u] == 0,
                (rem@ == sv && forall|u: int| 0 <= u < q@.len() ==> q@[u] == 0)
                    || (rem@.len() < la && q@[q@.len() - 1] != 0),
                forall|k: int| #[trigger] coeff(sv, k)
                    == fadd(conv_at(q@, dv, k), coeff(rem@, k)),
            decreases rem@.len(),
        {
            let ghost rem0: Seq<u64> = rem@;
            let ghost q0: Seq<u64> = q@;
            let dd = rem.len() - ld;
            let top = rem[rem.len() - 1];
            let cur = fe_mul(top, lead_inv);
            proof {
                // The quotient coefficient written in the first step is
                // nonzero, which makes the quotient canonical.
                if rem@ == sv {
                    assert(top != 0);
                    if lead_inv == 0 {
                        lemma_fmul_basic(coeff(dv, ld - 1), 0);
                        assert(false);
                    }
                    lemma_fmul_nonzero(top as int, lead_inv as int);
                    assert(cur != 0);
                }
            }
            q[dd] = cur;
            proof {
                assert(q@ == q0.update(dd as int, cur));
                assert forall|k: int| #[trigger] conv_at(q@, dv, k)
                    == fadd(conv_at(q0, dv, k), fmul(cur as int, coeff(dv, k - dd))) by {
                    lemma_conv_update(q0, dv, k, dd as int, cur, q0.len() as int);
                }
            }
            // Subtract cur * x^dd * divisor from the remainder.
            let mut i: usize = 0;
            while i < ld
                invariant
                    i <= ld,
                    ld == dv.len(),
                    ld >= 1,
                    dv == divisor@,
                    dd == rem0.len() - ld,
                    dd + ld == rem0.len(),
                    dd + ld <= usize::MAX,
                    wf_values(dv),
                    wf_values(rem0),
                    in_field(cur as int),
                    rem@.len() == rem0.len(),
                    wf_values(rem@),
                    forall|k: int| #[trigger] coeff(rem@, k) == if dd <= k < dd + i {
                        fsub(coeff(rem0, k), fmul(cur as int, coeff(dv, k - dd)))
                    } else {
                        coeff(rem0, k)
                    },
                decreases ld - i,
            {
                let idx = dd + i;
                let ghost pre: Seq<u64> = rem@;
                let v = fe_sub(rem[idx], fe_mul(cur, divisor.coeffs[i]));
                rem[idx] = v;
                proof {
                    assert(rem@ =~= pre.update(idx as int, v));
                    assert(coeff(pre, idx as int) == coeff(rem0, idx as int));
                    assert(coeff(dv, idx as int - dd) == dv[i as int] as int);
                    assert forall|k: int| #[trigger] coeff(rem@, k) == if dd <= k < dd + i + 1 {
                        fsub(coeff(rem0, k), fmul(cur as int, coeff(dv, k - dd)))
                    } else {
                        coeff(rem0, k)
                    } by {
                        if k == idx {
                            assert(coeff(rem@, k) == v as int);
                            assert(v as int == fsub(
                                coeff(rem0, idx as int),
                                fmul(cur as int, coeff(dv, idx as int - dd)),
                            ));
                        } else {
                            assert(coeff(rem@, k) == coeff(pre, k));
                        }
                    }
                }
                i = i + 1;
            }
            proof {
                // The subtraction affects every coefficient uniformly: outside
                // the written window the subtracted term is zero.
                assert forall|k: int| #[trigger] coeff(rem@, k)
                    == fsub(coeff(rem0, k), fmul(cur as int, coeff(dv, k - dd))) by {
                    lemma_coeff_in_field(rem0);
                    if dd <= k < dd + ld {
                    } else {
                        assert(coeff(dv, k - dd) == 0);
                        lemma_fmul_basic(cur as int, 0);
                        lemma_fadd_basic(coeff(rem0, k), 0);
                        assert(fsub(coeff(rem0, k), 0) == coeff(rem0, k));
                    }
                }
                // The division identity is preserved.
                assert forall|k: int| #[trigger] coeff(sv, k)
                    == fadd(conv_at(q@, dv, k), coeff(rem@, k)) by {
                    lemma_fadd_transfer(
                        conv_at(q0, dv, k),
                        coeff(rem0, k),
                        fmul(cur as int, coeff(dv, k - dd)),
                    );
                }
                // The top coefficient of the remainder is now zero.
                let ktop = rem0.len() - 1;
                assert(coeff(dv, ktop - dd) == coeff(dv, ld - 1));
                lemma_fmul_assoc(top as int, lead_inv as int, coeff(dv, ld - 1));
                lemma_fmul_basic(lead_inv as int, coeff(dv, ld - 1));
                assert(fmul(lead_inv as int, coeff(dv, ld - 1)) == 1);
                lemma_fmul_basic(top as int, 1);
                assert(fmul(cur as int, coeff(dv, ktop - dd)) == top as int);
                assert(coeff(rem@, ktop) == fsub(top as int, top as int));
                assert(coeff(rem@, ktop) == 0);
                assert(rem@[ktop] == 0);
            }
            // Pop trailing zeros; at least the cancelled top one goes.
            let ghost rem1: Seq<u64> = rem@;
            rem.pop();
            proof {
                assert(rem@ =~= rem1.drop_last());
                assert forall|k: int| #[trigger] coeff(rem@, k) == coeff(rem1, k) by {
                    if k == rem@.len() {
                        assert(rem1[k] == 0);
                    }
                }
            }
            while rem.len() > 0 && rem[rem.len() - 1] == 0
                invariant
                    rem@.len() < rem1.len(),
                    wf_values(rem@),
                    forall|k: int| #[trigger] coeff(rem@, k) == coeff(rem1, k),
                decreases rem@.len(),
            {
                let ghost before: Seq<u64> = rem@;
                rem.pop();
                proof {
                    assert(rem@ =~= before.drop_last());
                    assert forall|k: int| #[trigger] coeff(rem@, k) == coeff(rem1, k) by {
                        assert(coeff(before, k) == coeff(rem1, k));
                        if 0 <= k < rem@.len() {
                            assert(coeff(rem@, k) == coeff(before, k));
                        } else if k == rem@.len() {
                            assert(before[k] == 0);
                        }
                    }
                }
            }
            proof {
                assert(rem@.len() < rem1.len());
                assert(canonical(rem@));
                // The quotient's top slot, once written, stays nonzero.
                if rem0 == sv {
                    assert(dd == q@.len() - 1);
                    assert(q@[q@.len() - 1] == cur);
                } else {
                    assert(dd < q@.len() - 1);
                    assert(q@[q@.len() - 1] == q0[q0.len() - 1]);
                }
            }
        }
        (Polynomial { coeffs: q }, Polynomial { coeffs: rem })
    }

    /// Exact division: the divisor is required to divide `self` without
    /// remainder, and the quotient reproduces `self` exactly.  The
    /// remainder check that guards this invariant is discharged
    /// statically, so the division can never fail at run time.
    pub fn div(&self, divisor: &Polynomial) -> (r: Polynomial)
        requires
            self.wf(),
            divisor.wf(),
            divisor@.len() > 0,
            exactly_divides(divisor@, self@),
        ensures
            r.wf(),
            is_times(self@, r@, divisor@),
            r@.len() == if self@.len() < divisor@.len() {
                0
            } else {
                self@.len() - divisor@.len() + 1
            },
    {
        let qr = self.divide_with_q_and_r(divisor);
        let (q, rem) = qr;
        proof {
            let q0 = choose|qq: Seq<u64>| poly_wf(qq) && is_times(self@, qq, divisor@);
            let empty = Seq::<u64>::empty();
            assert forall|k: int| #[trigger] fadd(conv_at(q0, divisor@, k), coeff(empty, k))
                == fadd(conv_at(q@, divisor@, k), coeff(rem@, k)) by {
                assert(coeff(self@, k) == conv_at(q0, divisor@, k));
                lemma_conv_prefix_in_field(q0, divisor@, k, q0.len() as int);
                lemma_fadd_basic(conv_at(q0, divisor@, k), 0);
                assert(coeff(self@, k) == fadd(conv_at(q@, divisor@, k), coeff(rem@, k)));
            }
            lemma_division_unique(divisor@, q0, empty, q@, rem@);
        }
        assert(rem@.len() == 0);
        q
    }

    /// Adds a constant to the polynomial.
    pub fn add_scalar(&self, other: &u64) -> (r: Polynomial)
        requires
            self.wf(),
            *other < MODULUS,
        ensures
            r.wf(),
            forall|k: int| #[trigger] coeff(r@, k)
                == fadd(coeff(self@, k), if k == 0 { *other as int } else { 0 }),
    {
        let constant = Polynomial::scalar_poly(other);
        self.add(&constant)
    }

    /// Subtracts a constant from the polynomial.
    pub fn sub_scalar(&self, other: &u64) -> (r: Polynomial)
        requires
            self.wf(),
            *other < MODULUS,
        ensures
            r.wf(),
            forall|k: int| #[trigger] coeff(r@, k)
                == fsub(coeff(self@, k), if k == 0 { *other as int } else { 0 }),
    {
        let constant = Polynomial::scalar_poly(other);
        self.sub(&constant)
    }

    /// Multiplies the polynomial by a constant.
    pub fn mul_scalar(&self, other: &u64) -> (r: Polynomial)
        requires
            self.wf(),
            *other < MODULUS,
            self@.len() + 1 <= usize::MAX,
        ensures
            r.wf(),
            forall|k: int| #[trigger] coeff(r@, k) == fmul(coeff(self@, k), *other as int),
    {
        let constant = Polynomial::scalar_poly(other);
        let r = self.mul(&constant);
        proof {
            let c0 = *other as int;
            assert forall|k: int| #[trigger] coeff(r@, k) == fmul(coeff(self@, k), c0) by {
                lemma_coeff_in_field(self@);
                if *other == 0 {
                    assert(constant@.len() == 0);
                    assert forall|t: int| 0 <= t < self@.len() implies
                        #[trigger] fmul(coeff(self@, t), coeff(constant@, k - t)) == 0 by {
                        lemma_fmul_basic(coeff(self@, t), 0);
                    }
                    lemma_conv_all_terms_zero(self@, constant@, k, self@.len() as int);
                    lemma_fmul_zero(coeff(self@, k));
                    lemma_fmul_basic(coeff(self@, k), 0);
                } else {
                    assert(coeff(constant@, 0) == *other as int);
                    assert(constant@ =~= seq![*other]);
                    lemma_conv_singleton(self@, c0, k);
                }
            }
        }
        r
    }

    /// The canonical constant polynomial with value `c`.
    fn scalar_poly(c: &u64) -> (r: Polynomial)
        requires
            *c < MODULUS,
        ensures
            r.wf(),
            r@.len() == if *c == 0 { 0int } else { 1int },
            forall|k: int| #[trigger] coeff(r@, k) == if k == 0 { *c as int } else { 0 },
    {
        let mut v: Vec<u64> = Vec::new();
        v.push(*c);
        let ghost full: Seq<u64> = v@;
        let r = Polynomial::from_coeffs(v).truncate_leading_zeros();
        proof {
            lemma_trunc(full);
            assert(full =~= seq![*c]);
            if *c == 0 {
                reveal_with_fuel(trunc, 3);
                assert(full.drop_last() =~= Seq::<u64>::empty());
                assert(trunc(full) =~= Seq::<u64>::empty());
            }
        }
        r
    }

    /// The product of a vector of polynomials, folded from 1.
    pub fn product(factors: &Vec<Polynomial>) -> (r: Polynomial)
        requires
            forall|i: int| 0 <= i < factors@.len() ==> (#[trigger] factors@[i]).wf(),
            total_len(views_of(factors@)) + 2 <= usize::MAX,
        ensures
            r.wf(),
            r@ == product_spec(views_of(factors@)),
    {
        let ghost vs: Seq<Seq<u64>> = views_of(factors@);
        proof {
            lemma_total_len_nonneg(vs);
        }
        let mut acc = Polynomial::one();
        proof {
            assert(views_of(factors@.subrange(0, 0)) =~= vs.subrange(0, 0));
            assert(vs.subrange(0, 0) =~= Seq::<Seq<u64>>::empty());
        }
        let mut i: usize = 0;
        while i < factors.len()
            invariant
                i <= factors@.len(),
                vs == views_of(factors@),
                vs.len() == factors@.len(),
                forall|j: int| 0 <= j < factors@.len() ==> (#[trigger] factors@[j]).wf(),
                forall|j: int| 0 <= j < vs.len() ==> #[trigger] vs[j] == factors@[j]@,
                total_len(vs) + 2 <= usize::MAX,
                acc.wf(),
                acc@ == product_spec(vs.subrange(0, i as int)),
                acc@.len() <= 1 + total_len(vs.subrange(0, i as int)),
            decreases factors@.len() - i,
        {
            proof {
                lemma_total_len_prefix(vs, i as int + 1);
                assert(vs.subrange(0, i as int + 1).drop_last() =~= vs.subrange(0, i as int));
                assert(vs.subrange(0, i as int + 1).last() == vs[i as int]);
                lemma_total_len_nonneg(vs.subrange(0, i as int));
                assert(acc@.len() + factors@[i as int]@.len() <= usize::MAX);
            }
            let next = acc.mul(&factors[i]);
            proof {
                let prev = vs.subrange(0, i as int);
                let cur = vs.subrange(0, i as int + 1);
                let b = vs[i as int];
                assert(product_spec(cur) == pmul_spec(acc@, b));
                if acc@.len() == 0 || b.len() == 0 {
                    assert(next@.len() == 0);
                    assert(next@ =~= pmul_spec(acc@, b));
                } else {
                    assert(forall|j: int| 0 <= j < prev.len() ==> poly_wf(#[trigger] prev[j]));
                    lemma_pmul_coeff(acc@, b);
                    assert forall|k: int| #[trigger] coeff(next@, k)
                        == coeff(pmul_spec(acc@, b), k) by {
                        assert(coeff(next@, k) == conv_at(acc@, b, k));
                    }
                    lemma_conv_top(acc@, b);
                    assert(canonical(pmul_spec(acc@, b)));
                    lemma_canonical_coeff_eq(next@, pmul_spec(acc@, b));
                }
                assert(forall|j: int| 0 <= j < cur.len() ==> poly_wf(#[trigger] cur[j]));
                lemma_product_props(cur);
            }
            acc = next;
            i = i + 1;
        }
        proof {
            assert(vs.subrange(0, vs.len() as int) =~= vs);
        }
        acc
    }

    /// The product of `(x - p)` over the given points.
    pub fn vanishing_polynomial(points: &Vec<u64>) -> (r: Polynomial)
        requires
            wf_values(points@),
            points@.len() + 3 <= usize::MAX,
        ensures
            r.wf(),
            r@ == vanish_spec(points@),
            r@.len() == points@.len() + 1,
    {
        let ghost pv: Seq<u64> = points@;
        proof {
            lemma_vanish_props(pv);
        }
        let mut acc = Polynomial::one();
        proof {
            assert(pv.subrange(0, 0) =~= Seq::<u64>::empty());
        }
        let mut i: usize = 0;
        while i < points.len()
            invariant
                i <= points.len(),
                pv == points@,
                wf_values(pv),
                pv.len() + 3 <= usize::MAX,
                acc.wf(),
                acc@.len() == i + 1,
                acc@ == vanish_spec(pv.subrange(0, i as int)),
            decreases points.len() - i,
        {
            let factor = Polynomial::monomial(fe_neg(points[i]));
            let next = acc.mul(&factor);
            proof {
                let pre = pv.subrange(0, i as int);
                let cur = pv.subrange(0, i as int + 1);
                assert(cur.drop_last() =~= pre);
                assert(cur.last() == pv[i as int]);
                assert(factor@ =~= linear_factor(pv[i as int] as int));
                lemma_vanish_props(cur);
                lemma_vanish_props(pre);
                lemma_pmul_coeff(vanish_spec(pre), linear_factor(pv[i as int] as int));
                assert(vanish_spec(cur) == pmul_spec(acc@, factor@));
                assert forall|k: int| #[trigger] coeff(next@, k) == coeff(vanish_spec(cur), k) by {
                    assert(coeff(next@, k) == conv_at(acc@, factor@, k));
                    assert(coeff(vanish_spec(cur), k) == conv_at(acc@, factor@, k));
                }
                lemma_canonical_coeff_eq(next@, vanish_spec(cur));
            }
            acc = next;
            i = i + 1;
        }
        proof {
            assert(pv.subrange(0, pv.len() as int) =~= pv);
        }
        acc
    }

    /// Lagrange interpolation: returns the unique polynomial of length at
    /// most the number of points that takes the given value at each of
    /// the given pairwise-distinct points.
    pub fn naive_interpolate(point_to_evals: &Vec<(u64, u64)>) -> (r: Polynomial)
        requires
            forall|i: int| 0 <= i < point_to_evals@.len()
                ==> (#[trigger] point_to_evals@[i]).0 < MODULUS && point_to_evals@[i].1 < MODULUS,
            forall|i: int, j: int| 0 <= i < j < point_to_evals@.len()
                ==> (#[trigger] point_to_evals@[i]).0 != (#[trigger] point_to_evals@[j]).0,
            point_to_evals@.len() + 3 <= usize::MAX,
        ensures
            r.wf(),
            r@.len() <= point_to_evals@.len(),
            forall|i: int| 0 <= i < point_to_evals@.len()
                ==> eval_poly(r@, (#[trigger] point_to_evals@[i]).0 as int)
                    == point_to_evals@[i].1 as int,
    {
        let ghost pe: Seq<(u64, u64)> = point_to_evals@;
        let n = point_to_evals.len();
        let mut points: Vec<u64> = Vec::new();
        let mut t: usize = 0;
        while t < n
            invariant
                t <= n,
                n == pe.len(),
                pe == point_to_evals@,
                points@.len() == t,
                forall|u: int| 0 <= u < t ==> points@[u] == (#[trigger] pe[u]).0,
                forall|i: int| 0 <= i < pe.len()
                    ==> (#[trigger] pe[i]).0 < MODULUS && pe[i].1 < MODULUS,
            decreases n - t,
        {
            points.push(point_to_evals[t].0);
            t = t + 1;
        }
        let ghost pv: Seq<u64> = points@;
        proof {
            assert forall|u: int| 0 <= u < pv.len() implies #[trigger] pv[u] < MODULUS by {
                assert(pv[u] == pe[u].0);
            }
        }
        let vanishing_poly = Polynomial::vanishing_polynomial(&points);
        let mut result = Polynomial::zero();
        let mut i: usize = 0;
        while i < n
            invariant
                i <= n,
                n == pe.len(),
                pe == point_to_evals@,
                pv == points@,
                pv.len() == n,
                forall|u: int| 0 <= u < n ==> pv[u] == (#[trigger] pe[u]).0,
                forall|u: int| 0 <= u < pe.len()
                    ==> (#[trigger] pe[u]).0 < MODULUS && pe[u].1 < MODULUS,
                forall|u: int, j: int| 0 <= u < j < pe.len()
                    ==> (#[trigger] pe[u]).0 != (#[trigger] pe[j]).0,
                pe.len() + 3 <= usize::MAX,
                wf_values(pv),
                vanishing_poly.wf(),
                vanishing_poly@ == vanish_spec(pv),
                vanishing_poly@.len() == n + 1,
                result.wf(),
                result@.len() <= n,
                forall|j: int| 0 <= j < n ==> eval_poly(result@, (#[trigger] pe[j]).0 as int)
                    == if j < i { pe[j].1 as int } else { 0 },
            decreases n - i,
        {
            let p = point_to_evals[i].0;
            let value = point_to_evals[i].1;
            let factor = Polynomial::monomial(fe_neg(p));
            let ghost removed: Seq<u64> = pv.remove(i as int);
            proof {
                assert(factor@ =~= linear_factor(p as int));
                assert(wf_values(removed)) by {
                    assert(forall|u: int| 0 <= u < removed.len()
                        ==> removed[u] == pv[if u < i { u } else { u + 1 }]);
                }
                lemma_vanish_remove(pv, i as int);
                lemma_vanish_props(removed);
                lemma_pmul_coeff(vanish_spec(removed), linear_factor(p as int));
                assert(is_times(vanishing_poly@, vanish_spec(removed), factor@));
                assert(exactly_divides(factor@, vanishing_poly@)) by {
                    assert(poly_wf(vanish_spec(removed))
                        && is_times(vanishing_poly@, vanish_spec(removed), factor@));
                }
            }
            let term = vanishing_poly.div(&factor);
            proof {
                let w = vanish_spec(removed);
                let empty = Seq::<u64>::empty();
                assert forall|k: int| #[trigger] fadd(conv_at(term@, factor@, k), coeff(empty, k))
                    == fadd(conv_at(w, factor@, k), coeff(empty, k)) by {
                    assert(coeff(vanishing_poly@, k) == conv_at(term@, factor@, k));
                    assert(coeff(vanishing_poly@, k) == conv_at(w, factor@, k));
                }
                lemma_division_unique(factor@, term@, empty, w, empty);
                assert(term@ == w);
            }
            let denom = term.evaluate(&p);
            proof {
                assert forall|j: int| 0 <= j < removed.len()
                    implies (#[trigger] removed[j]) as int != p as int by {
                    if j < i {
                        assert(removed[j] == pv[j]);
                        assert(pe[j].0 != pe[i as int].0);
                    } else {
                        assert(removed[j] == pv[j + 1]);
                        assert(pe[i as int].0 != pe[j + 1].0);
                    }
                }
                lemma_vanish_nonroot(removed, p as int);
            }
            let inv_denom = fe_inv(denom);
            let scale = fe_mul(value, inv_denom);
            let mut scaled_coeffs: Vec<u64> = Vec::new();
            let mut k: usize = 0;
            while k < term.coeffs.len()
                invariant
                    k <= term.coeffs.len(),
                    wf_values(term@),
                    in_field(scale as int),
                    scaled_coeffs@.len() == k,
                    wf_values(scaled_coeffs@),
                    forall|u: int| 0 <= u < k
                        ==> scaled_coeffs@[u] as int == fmul(scale as int, coeff(term@, u)),
                decreases term.coeffs.len() - k,
            {
                scaled_coeffs.push(fe_mul(scale, term.coeffs[k]));
                k = k + 1;
            }
            let ghost full: Seq<u64> = scaled_coeffs@;
            let scaled = Polynomial::from_coeffs(scaled_coeffs).truncate_leading_zeros();
            proof {
                lemma_trunc(full);
                assert forall|u: int| #[trigger] coeff(scaled@, u)
                    == fmul(scale as int, coeff(term@, u)) by {
                    assert(coeff(scaled@, u) == coeff(full, u));
                    if 0 <= u < full.len() {
                    } else {
                        lemma_fmul_zero(scale as int);
                    }
                }
            }
            let updated = result.add(&scaled);
            proof {
                assert forall|j: int| 0 <= j < n implies eval_poly(updated@, (#[trigger] pe[j]).0 as int)
                    == if j < i + 1 { pe[j].1 as int } else { 0 } by {
                    let x = pe[j].0 as int;
                    lemma_eval_poly_add(result@, scaled@, updated@, x);
                    lemma_eval_poly_scale(term@, scaled@, scale as int, x);
                    if j == i {
                        assert(eval_poly(term@, x) == denom as int);
                        assert(eval_poly(scaled@, x) == fmul(scale as int, denom as int));
                        lemma_fmul_assoc(value as int, inv_denom as int, denom as int);
                        lemma_fmul_basic(inv_denom as int, denom as int);
                        assert(fmul(inv_denom as int, denom as int) == 1);
                        lemma_fmul_basic(value as int, 1);
                        assert(eval_poly(scaled@, x) == value as int);
                        lemma_fadd_basic(value as int, 0);
                        assert(eval_poly(result@, x) == 0);
                    } else {
                        // x is one of the removed points, a root of term.
                        let jr: int = if j < i { j } else { j - 1 };
                        assert(removed[jr] == pv[j]);
                        lemma_vanish_root(removed, jr);
                        assert(eval_poly(term@, x) == 0);
                        lemma_fmul_zero(scale as int);
                        assert(eval_poly(scaled@, x) == 0);
                        lemma_fadd_basic(eval_poly(result@, x), 0);
                    }
                }
            }
            result = updated;
            i = i + 1;
        }
        result
    }
}

} // verus!
