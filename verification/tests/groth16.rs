use ark_bn254::{Fq, Fr, G1Affine, G1Projective, G2Affine, G2Projective};
use ark_ec::{CurveGroup, PrimeGroup};
use num_bigint::BigUint;
use pgp_challenger::blob::Groth16Proof;
use pgp_challenger::groth16::{
    address_to_fr, b256_to_fr, blob_proof_to_ark, parse_snarkjs_vk, G1Point, G2Point, Groth16Error,
    Groth16Verifier, SnarkjsVK, TransferPublicInputs, UpdatePublicInputs,
};
use pgp_challenger::types::{Address, B256, U256};

fn word_of(value: Fq) -> B256 {
    let bytes = BigUint::from(value).to_bytes_be();
    let mut w = [0u8; 32];
    w[32 - bytes.len()..].copy_from_slice(&bytes);
    B256(w)
}

fn text_of(value: Fq) -> String {
    BigUint::from(value).to_string()
}

fn g1(k: u64) -> G1Affine {
    (G1Projective::generator() * Fr::from(k)).into_affine()
}

fn g2(k: u64) -> G2Affine {
    (G2Projective::generator() * Fr::from(k)).into_affine()
}

fn g1_text(p: G1Affine) -> Vec<String> {
    vec![text_of(p.x), text_of(p.y), "1".to_string()]
}

fn g2_text(p: G2Affine) -> Vec<Vec<String>> {
    vec![
        vec![text_of(p.x.c0), text_of(p.x.c1)],
        vec![text_of(p.y.c0), text_of(p.y.c1)],
        vec!["1".to_string(), "0".to_string()],
    ]
}

/// A key whose equation is `a b = 2 * 3 + (1 + sum of (i + 2) x_i) * 5 + c * 7`.
fn key(inputs: u64) -> SnarkjsVK {
    SnarkjsVK {
        protocol: "groth16".to_string(),
        curve: "bn128".to_string(),
        vk_alpha_1: g1_text(g1(2)),
        vk_beta_2: g2_text(g2(3)),
        vk_gamma_2: g2_text(g2(5)),
        vk_delta_2: g2_text(g2(7)),
        ic: (0..=inputs).map(|i| g1_text(g1(i + 1))).collect(),
    }
}

fn proof_of(a: G1Affine, b: G2Affine, c: G1Affine) -> Groth16Proof {
    Groth16Proof {
        a_x: word_of(a.x),
        a_y: word_of(a.y),
        b_x0: word_of(b.x.c0),
        b_x1: word_of(b.x.c1),
        b_y0: word_of(b.y.c0),
        b_y1: word_of(b.y.c1),
        c_x: word_of(c.x),
        c_y: word_of(c.y),
    }
}

fn small(n: u8) -> B256 {
    let mut w = [0u8; 32];
    w[31] = n;
    B256(w)
}

fn two_keys() -> Groth16Verifier {
    Groth16Verifier::new(&key(7), &key(6)).unwrap()
}

#[test]
fn test_b256_to_fr() {
    let value = B256([0u8; 32]);
    let fr = b256_to_fr(value);
    assert!(fr.is_zero());

    let value = small(1);
    let fr = b256_to_fr(value);
    assert_eq!(fr, U256::from_u64(1));
}

#[test]
fn test_address_to_fr() {
    let addr = Address::zero();
    let fr = address_to_fr(addr);
    assert!(fr.is_zero());

    let mut bytes = [0u8; 20];
    bytes[19] = 1;
    let fr = address_to_fr(Address(bytes));
    assert_eq!(fr, U256::from_u64(1));
}

#[test]
fn test_transfer_public_inputs() {
    let inputs = TransferPublicInputs {
        anchor: B256::zero(),
        eth_key: Address::zero(),
        nullifier0: B256::zero(),
        nullifier1: B256::zero(),
        leaf0: B256::zero(),
        leaf1: B256::zero(),
        leaf2: B256::zero(),
    };
    let field_elements = inputs.to_field_elements();
    assert_eq!(field_elements.len(), 7);
}

#[test]
fn test_update_public_inputs() {
    let inputs = UpdatePublicInputs {
        anchor_before: B256::zero(),
        block_index: 0,
        updates: [B256::zero(); 3],
        anchor_after: B256::zero(),
    };
    let field_elements = inputs.to_field_elements();
    assert_eq!(field_elements.len(), 6);
}

#[test]
fn words_are_reduced_modulo_the_order() {
    // All ones is five times the order and a rest.
    let fr = b256_to_fr(B256::repeat_byte(0xFF));
    assert_eq!(fr, U256 {
        l0: 0xac96341c4ffffffa,
        l1: 0x36fc76959f60cd29,
        l2: 0x666ea36f7879462e,
        l3: 0x0e0a77c19a07df2f,
    });
}

#[test]
fn public_inputs_come_in_the_order_of_the_circuit() {
    let mut account = [0u8; 20];
    account[19] = 17;
    let transfer = TransferPublicInputs {
        anchor: small(16),
        eth_key: Address(account),
        nullifier0: small(11),
        nullifier1: small(12),
        leaf0: small(13),
        leaf1: small(14),
        leaf2: small(15),
    };
    let want: Vec<U256> = (11..=17).map(U256::from_u64).collect();
    assert_eq!(transfer.to_field_elements(), want);
    let update = UpdatePublicInputs {
        anchor_before: small(2),
        block_index: 6,
        updates: [small(3), small(4), small(5)],
        anchor_after: small(1),
    };
    let want: Vec<U256> = (1..=6).map(U256::from_u64).collect();
    assert_eq!(update.to_field_elements(), want);
}

#[test]
fn valid_proofs_verify_and_others_do_not() {
    let verifier = two_keys();
    let transfer = TransferPublicInputs {
        anchor: small(6),
        eth_key: Address::zero(),
        nullifier0: small(1),
        nullifier1: small(2),
        leaf0: small(3),
        leaf1: small(4),
        leaf2: small(5),
    };
    // The sum is 1 + 2*1 + 3*2 + 4*3 + 5*4 + 6*5 + 7*6 + 8*0 = 113.
    let rest = Fr::from(1000u64) * Fr::from(11u64) - Fr::from(6u64) - Fr::from(113u64 * 5);
    let c = rest / Fr::from(7u64);
    let c = (G1Projective::generator() * c).into_affine();
    let proof = proof_of(g1(1000), g2(11), c);
    assert_eq!(verifier.verify_transfer_proof(&proof, &transfer), Ok(true));
    let mut other = transfer;
    other.leaf2 = small(6);
    assert_eq!(verifier.verify_transfer_proof(&proof, &other), Ok(false));
    let wrong = proof_of(g1(1001), g2(11), c);
    assert_eq!(verifier.verify_transfer_proof(&wrong, &transfer), Ok(false));

    let update = UpdatePublicInputs {
        anchor_before: small(2),
        block_index: 6,
        updates: [small(3), small(4), small(5)],
        anchor_after: small(1),
    };
    // The sum is 1 + 2*1 + 3*2 + 4*3 + 5*4 + 6*5 + 7*6 = 113.
    assert_eq!(verifier.verify_update_proof(&proof, &update), Ok(true));
    let mut other = update;
    other.block_index = 7;
    assert_eq!(verifier.verify_update_proof(&proof, &other), Ok(false));
}

#[test]
fn points_at_infinity_are_points() {
    let verifier = two_keys();
    let zero = B256::zero();
    let proof = Groth16Proof {
        a_x: zero,
        a_y: zero,
        b_x0: zero,
        b_x1: zero,
        b_y0: zero,
        b_y1: zero,
        c_x: zero,
        c_y: zero,
    };
    let points = blob_proof_to_ark(&proof).unwrap();
    assert!(matches!(points.a, G1Point::Infinity));
    assert!(matches!(points.b, G2Point::Infinity));
    let bytes = points.to_bytes();
    assert_eq!(bytes.len(), 256);
    assert_eq!(bytes[63], 0x40);
    assert_eq!(bytes[191], 0x40);
    let inputs = TransferPublicInputs {
        anchor: zero,
        eth_key: Address::zero(),
        nullifier0: zero,
        nullifier1: zero,
        leaf0: zero,
        leaf1: zero,
        leaf2: zero,
    };
    assert_eq!(verifier.verify_transfer_proof(&proof, &inputs), Ok(false));
}

#[test]
fn proofs_off_the_curve_are_refused() {
    let good = proof_of(g1(1), g2(1), g1(1));
    assert!(blob_proof_to_ark(&good).is_ok());
    let mut bad = good;
    bad.a_x = small(2);
    assert_eq!(blob_proof_to_ark(&bad).err(), Some(Groth16Error::G1NotOnCurve));
    let mut bad = good;
    bad.b_y1 = small(2);
    assert_eq!(blob_proof_to_ark(&bad).err(), Some(Groth16Error::G2NotOnCurve));
    let mut bad = good;
    bad.c_x = B256::repeat_byte(0xFF);
    assert_eq!(blob_proof_to_ark(&bad).err(), Some(Groth16Error::InvalidCoordinate));
}

#[test]
fn a_key_with_another_number_of_inputs_cannot_verify() {
    let verifier = Groth16Verifier::new(&key(5), &key(6)).unwrap();
    let zero = B256::zero();
    let inputs = TransferPublicInputs {
        anchor: zero,
        eth_key: Address::zero(),
        nullifier0: zero,
        nullifier1: zero,
        leaf0: zero,
        leaf1: zero,
        leaf2: zero,
    };
    let proof = proof_of(g1(1), g2(1), g1(1));
    assert_eq!(verifier.verify_transfer_proof(&proof, &inputs), Err(Groth16Error::Verification));
}

#[test]
fn keys_are_read() {
    let key = parse_snarkjs_vk(&key(7)).unwrap();
    assert_eq!(key.gamma_abc_g1.len(), 8);
    assert!(matches!(key.gamma_abc_g1[0], G1Point::Affine { x, y } if x == U256::from_u64(1) && y == U256::from_u64(2)));
    assert_eq!(key.to_bytes().len(), 64 + 3 * 128 + 8 + 8 * 64);
    assert_eq!(key.to_bytes()[64 + 3 * 128], 8);
}

#[test]
fn key_errors() {
    let mut bad = key(1);
    bad.protocol = "plonk".to_string();
    assert_eq!(parse_snarkjs_vk(&bad).err(), Some(Groth16Error::WrongProtocol));
    let mut bad = key(1);
    bad.curve = "bls12381".to_string();
    assert_eq!(parse_snarkjs_vk(&bad).err(), Some(Groth16Error::WrongCurve));
    let mut bad = key(1);
    bad.vk_alpha_1 = vec!["1".to_string()];
    assert_eq!(parse_snarkjs_vk(&bad).err(), Some(Groth16Error::TooFewG1Coordinates));
    let mut bad = key(1);
    bad.vk_beta_2[0] = vec!["1".to_string()];
    assert_eq!(parse_snarkjs_vk(&bad).err(), Some(Groth16Error::TooFewG2Coordinates));
    let mut bad = key(1);
    bad.ic[1][0] = "12x".to_string();
    assert_eq!(parse_snarkjs_vk(&bad).err(), Some(Groth16Error::InvalidDecimal));
    let mut bad = key(1);
    bad.ic[1][0] = "30000000000000000000000000000000000000000000000000000000000000000000000000000".to_string();
    assert_eq!(parse_snarkjs_vk(&bad).err(), Some(Groth16Error::InvalidCoordinate));
    let mut bad = key(1);
    bad.ic[1][1] = "7".to_string();
    assert_eq!(parse_snarkjs_vk(&bad).err(), Some(Groth16Error::G1NotOnCurve));
}

#[test]
fn coordinates_may_have_a_sign_and_are_cut_to_a_word() {
    let mut other = key(1);
    other.ic[0][0] = "+0_1".to_string();
    assert!(parse_snarkjs_vk(&other).is_ok());
    // Two to the power of 256, plus one.
    other.ic[0][0] =
        "115792089237316195423570985008687907853269984665640564039457584007913129639937".to_string();
    assert!(parse_snarkjs_vk(&other).is_ok());
    other.ic[0][0] = "_1".to_string();
    assert_eq!(parse_snarkjs_vk(&other).err(), Some(Groth16Error::InvalidDecimal));
    other.ic[0][0] = "++1".to_string();
    assert_eq!(parse_snarkjs_vk(&other).err(), Some(Groth16Error::InvalidDecimal));
    other.ic[0][0] = "".to_string();
    assert_eq!(parse_snarkjs_vk(&other).err(), Some(Groth16Error::InvalidDecimal));
}

#[test]
fn a_key_whose_points_have_no_pairing_cannot_verify() {
    let mut verifier = two_keys();
    let max = U256 { l0: u64::MAX, l1: u64::MAX, l2: u64::MAX, l3: u64::MAX };
    verifier.transfer_vk.alpha_g1 = G1Point::Affine { x: max, y: max };
    let zero = B256::zero();
    let inputs = TransferPublicInputs {
        anchor: zero,
        eth_key: Address::zero(),
        nullifier0: zero,
        nullifier1: zero,
        leaf0: zero,
        leaf1: zero,
        leaf2: zero,
    };
    let proof = proof_of(g1(1), g2(1), g1(1));
    assert_eq!(verifier.verify_transfer_proof(&proof, &inputs), Err(Groth16Error::Verification));
}
