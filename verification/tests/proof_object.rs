use stir::polynomial::Polynomial;
use stir::proof_object::{RoundProof, StirProof};

#[test]
fn proof_object_carries_round_data_immutably() {
    let round: RoundProof<[u8; 32], Vec<u8>, u64> = RoundProof {
        g_root: [7u8; 32],
        betas: vec![1, 2, 3],
        ans_polynomial: Polynomial::from_coeffs(vec![4, 5]),
        query_proofs: vec![(vec![9, 9], vec![0xAB])],
        shake_polynomial: Polynomial::from_coeffs(vec![6]),
        pow_witness: 42,
    };
    let proof: StirProof<[u8; 32], Vec<u8>, u64> = StirProof {
        round_proofs: vec![round],
        final_polynomial: Polynomial::from_coeffs(vec![1, 0, 1]),
        pow_witness: 99,
        final_round_queries: vec![(vec![3], vec![0xCD])],
    };
    assert_eq!(proof.round_proofs.len(), 1);
    assert_eq!(proof.round_proofs[0].g_root, [7u8; 32]);
    assert_eq!(proof.round_proofs[0].betas, vec![1, 2, 3]);
    assert_eq!(proof.round_proofs[0].ans_polynomial.coeffs, vec![4, 5]);
    assert_eq!(proof.round_proofs[0].pow_witness, 42);
    assert_eq!(proof.final_polynomial.coeffs, vec![1, 0, 1]);
    assert_eq!(proof.pow_witness, 99);
    assert_eq!(proof.final_round_queries[0].0, vec![3]);
}
