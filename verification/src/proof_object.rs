//! The proof object carried from prover to verifier.
//!
//! The commitment scheme's root and opening-proof types and the
//! proof-of-work witness type are collaborators outside the polynomial
//! core, so the structures are generic over them; the polynomial data is
//! the engine's own canonical coefficient form.

use vstd::prelude::*;
use crate::polynomial::Polynomial;

verus! {

/// A proof for one of the M full rounds of the protocol.  Round `i`
/// commits to the folded evaluations of `g_i`, answers the out-of-domain
/// queries with `betas`, and justifies the in-domain queries against the
/// previous round's commitment.
pub struct RoundProof<C, Q, W> {
    /// Commitment to the stacked evaluations of `g_i` over the domain `L_i`.
    pub g_root: C,
    /// Replies `beta_{i, j}` to the out-of-domain queries to `g_i`.
    pub betas: Vec<u64>,
    /// Polynomial interpolating the evaluations of `g_i` at the in-domain
    /// and out-of-domain queried points.
    pub ans_polynomial: Polynomial,
    /// Opening proofs of the committed evaluations of `g_{i-1}` needed to
    /// recompute `f_{i-1}` at the roots of the in-domain queried points.
    pub query_proofs: Vec<(Vec<u64>, Q)>,
    /// Auxiliary polynomial helping the verifier evaluate `ans_polynomial`
    /// at the queried points.
    pub shake_polynomial: Polynomial,
    /// Solution to the proof-of-work challenge in round `i`.
    pub pow_witness: W,
}

/// A STIR proof that the committed polynomial satisfies the configured
/// degree bound: the per-round proofs, the final polynomial in plain
/// form, and the final round's proof of work and query openings.
pub struct StirProof<C, Q, W> {
    /// Round proofs for the full rounds `i = 1, ..., M`.
    pub round_proofs: Vec<RoundProof<C, Q, W>>,
    /// The final polynomial `p = g_{M+1}`, sent in the clear.
    pub final_polynomial: Polynomial,
    /// Proof of work for the final round.
    pub pow_witness: W,
    /// Openings of `g_M` for the final-round queries.
    pub final_round_queries: Vec<(Vec<u64>, Q)>,
}

impl<C, Q, W> RoundProof<C, Q, W> {
    /// All polynomial data and field elements in this round proof are
    /// well formed.
    pub open spec fn wf(&self) -> bool {
        &&& self.ans_polynomial.wf()
        &&& self.shake_polynomial.wf()
        &&& forall|i: int| 0 <= i < self.betas@.len()
            ==> #[trigger] self.betas@[i] < crate::field::MODULUS
    }
}

impl<C, Q, W> StirProof<C, Q, W> {
    /// All polynomial data carried by the proof is well formed.
    pub open spec fn wf(&self) -> bool {
        &&& self.final_polynomial.wf()
        &&& forall|i: int| 0 <= i < self.round_proofs@.len()
            ==> (#[trigger] self.round_proofs@[i]).wf()
    }
}

} // verus!
