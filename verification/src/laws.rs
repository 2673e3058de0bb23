//! Ring laws of the polynomial engine, stated over the spec-level model
//! and proved once and for all.

use vstd::prelude::*;
use crate::field::{fadd, fsub, in_field, lemma_fadd_fsub_cancel, lemma_fadd_basic};
use crate::polynomial::{
    coeff, conv_at, poly_wf, lemma_canonical_coeff_eq, lemma_coeff_in_field,
    lemma_conv_prefix_in_field, lemma_division_unique,
};

verus! {

/// Exact division inverts multiplication: if `(q, r)` is a Euclidean
/// decomposition of the product `a * b` by `b`, then the quotient is `a`
/// and the remainder is zero.
pub proof fn lemma_mul_div_roundtrip(a: Seq<u64>, b: Seq<u64>, q: Seq<u64>, r: Seq<u64>)
    requires
        poly_wf(a),
        poly_wf(b),
        poly_wf(q),
        poly_wf(r),
        b.len() > 0,
        r.len() < b.len(),
        forall|k: int| #[trigger] conv_at(a, b, k) == fadd(conv_at(q, b, k), coeff(r, k)),
    ensures
        q == a,
        r.len() == 0,
{
    let empty = Seq::<u64>::empty();
    assert forall|k: int| #[trigger] fadd(conv_at(a, b, k), coeff(empty, k))
        == fadd(conv_at(q, b, k), coeff(r, k)) by {
        lemma_conv_prefix_in_field(a, b, k, a.len() as int);
        lemma_fadd_basic(conv_at(a, b, k), 0);
    }
    lemma_division_unique(b, a, empty, q, r);
}

/// Adding and then subtracting the same polynomial gives the original
/// back: if `c` is the coefficient-wise sum of `a` and `b`, and `d` the
/// coefficient-wise difference of `c` and `b`, then `d` is `a`.
pub proof fn lemma_add_sub_roundtrip(a: Seq<u64>, b: Seq<u64>, c: Seq<u64>, d: Seq<u64>)
    requires
        poly_wf(a),
        poly_wf(b),
        poly_wf(c),
        poly_wf(d),
        forall|k: int| #[trigger] coeff(c, k) == fadd(coeff(a, k), coeff(b, k)),
        forall|k: int| #[trigger] coeff(d, k) == fsub(coeff(c, k), coeff(b, k)),
    ensures
        d == a,
{
    lemma_coeff_in_field(a);
    lemma_coeff_in_field(b);
    assert forall|k: int| #[trigger] coeff(d, k) == coeff(a, k) by {
        lemma_fadd_fsub_cancel(coeff(a, k), coeff(b, k));
    }
    lemma_canonical_coeff_eq(d, a);
}

} // verus!
