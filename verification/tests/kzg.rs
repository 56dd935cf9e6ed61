use pgp_challenger::kzg::{
    bit_reverse_index, bls_scalar_modulus, compute_evaluation_point, compute_root_of_unity, mod_exp, KzgError,
    KzgProver, BYTES_PER_BLOB,
};
use pgp_challenger::types::{B256, U256};

#[test]
fn test_bit_reverse_index() {
    assert_eq!(bit_reverse_index(0), 0);
    assert_eq!(bit_reverse_index(1), 2048);
    assert_eq!(bit_reverse_index(2), 1024);
    assert_eq!(bit_reverse_index(4095), 4095);
}

#[test]
fn test_compute_root_of_unity() {
    let root = compute_root_of_unity();
    let root_to_4096 = mod_exp(root, U256::from_u64(4096), bls_scalar_modulus());
    assert_eq!(root_to_4096, U256::from_u64(1));
}

#[test]
fn test_kzg_prover_creation() {
    let prover = KzgProver::new();
    assert!(prover.is_ok());
}

#[test]
fn test_generate_proof_for_zero_blob() {
    let prover = KzgProver::new().unwrap();
    let blob_data = vec![0u8; c_kzg::BYTES_PER_BLOB];
    let result = prover.generate_proof(&blob_data, 0);
    assert!(result.is_ok());
    let proof = result.unwrap();
    assert_eq!(proof.commitment.len(), 48);
    assert_eq!(proof.proof.len(), 48);
}

#[test]
fn bit_reversal_is_its_own_inverse() {
    for i in 0..4096usize {
        assert_eq!(bit_reverse_index(bit_reverse_index(i) as usize), i as u64);
    }
}

#[test]
fn root_of_unity_is_primitive() {
    let root = compute_root_of_unity();
    let half = mod_exp(root, U256::from_u64(2048), bls_scalar_modulus());
    assert_ne!(half, U256::from_u64(1));
}

#[test]
fn mod_exp_on_small_numbers() {
    let n = U256::from_u64;
    assert_eq!(mod_exp(n(3), n(5), n(7)), n(5));
    assert_eq!(mod_exp(n(10), n(3), n(1000)), n(0));
    assert_eq!(mod_exp(n(10), n(0), n(1)), n(0));
    assert_eq!(mod_exp(n(5), n(0), n(1)), n(0));
    assert_eq!(mod_exp(n(10), n(0), n(7)), n(1));
    assert_eq!(mod_exp(n(10), n(3), n(0)), n(0));
    assert_eq!(mod_exp(n(9), n(1), n(4)), n(1));
}

#[test]
fn evaluation_points() {
    let mut one = [0u8; 32];
    one[31] = 1;
    assert_eq!(compute_evaluation_point(0), B256(one));
    // Index 1 is reversed to 2048: the point is minus one.
    let minus_one = compute_evaluation_point(1);
    assert_eq!(minus_one.0[0], 0x73);
    assert_eq!(minus_one.0[31], 0x00);
}

#[test]
fn opened_value_is_the_field() {
    let prover = KzgProver::new().unwrap();
    let mut blob = vec![0u8; BYTES_PER_BLOB];
    for i in 0..4096usize {
        blob[i * 32 + 30] = (i >> 8) as u8;
        blob[i * 32 + 31] = (i & 0xFF) as u8;
    }
    for index in [0usize, 1, 2, 777, 4095] {
        let proof = prover.generate_proof(&blob, index).unwrap();
        assert_eq!(proof.value, proof.y_value);
        assert_eq!(proof.value.0[31], (index & 0xFF) as u8);
        assert_eq!(proof.commitment, prover.compute_commitment(&blob).unwrap());
        let settings = c_kzg::ethereum_kzg_settings(0);
        let ok = settings
            .verify_kzg_proof(
                &c_kzg::Bytes48::from_bytes(&proof.commitment).unwrap(),
                &c_kzg::Bytes32::new(compute_evaluation_point(index).0),
                &c_kzg::Bytes32::new(proof.value.0),
                &c_kzg::Bytes48::from_bytes(&proof.proof).unwrap(),
            )
            .unwrap();
        assert!(ok);
    }
}

#[test]
fn proof_errors() {
    let prover = KzgProver::default();
    let blob = vec![0u8; BYTES_PER_BLOB];
    assert_eq!(prover.generate_proof(&blob[1..], 0).err(), Some(KzgError::InvalidBlobSize { got: BYTES_PER_BLOB - 1 }));
    assert_eq!(prover.generate_proof(&blob, 4096).err(), Some(KzgError::FieldIndexOutOfRange { index: 4096 }));
    let mut bad = blob.clone();
    bad[0] = 0xFF;
    assert_eq!(prover.generate_proof(&bad, 0).err(), Some(KzgError::Commitment));
    assert_eq!(prover.compute_commitment(&bad).err(), Some(KzgError::Commitment));
    assert_eq!(KzgError::Proof.message(), "Failed to compute proof");
}
