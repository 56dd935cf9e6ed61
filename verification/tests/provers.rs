use num_bigint::BigUint;
use pgp_challenger::circom_prover::{
    biguint_to_b256, biguint_to_u256, convert_proof as convert_circom_proof, extract_anchor_after,
    update_input as circom_update_input, CircomError, CircomProof, RustCircomProver,
};
use pgp_challenger::snarkjs::{
    anchor_from_signals, b256_to_decimal, convert_proof, decimal_to_b256, decimal_to_u256, split_words,
    update_input, SnarkjsError, SnarkjsProof, SnarkjsProver,
};
use pgp_challenger::text::same_text;
use pgp_challenger::types::{B256, U256};

fn small(n: u8) -> B256 {
    let mut w = [0u8; 32];
    w[31] = n;
    B256(w)
}

fn texts(list: &[&str]) -> Vec<String> {
    list.iter().map(|s| s.to_string()).collect()
}

#[test]
fn snarkjs_test_b256_to_decimal() {
    let zero = B256::zero();
    assert_eq!(b256_to_decimal(zero), "0");
    let one = small(1);
    assert_eq!(b256_to_decimal(one), "1");
}

#[test]
fn circom_prover_test_b256_to_decimal() {
    let zero = B256::zero();
    assert_eq!(b256_to_decimal(zero), "0");
    let one = small(1);
    assert_eq!(b256_to_decimal(one), "1");
}

#[test]
fn test_decimal_to_b256() {
    let zero = decimal_to_b256("0").unwrap();
    assert_eq!(zero, B256::zero());
    let one = decimal_to_b256("1").unwrap();
    assert_eq!(one, small(1));
}

#[test]
fn test_roundtrip() {
    let original = B256::repeat_byte(0x42);
    let decimal = b256_to_decimal(original);
    let recovered = decimal_to_b256(&decimal).unwrap();
    assert_eq!(original, recovered);
}

#[test]
fn test_biguint_to_b256() {
    let zero = BigUint::from(0u32);
    assert_eq!(biguint_to_b256(&zero.to_bytes_be()).unwrap(), B256::zero());
    let one = BigUint::from(1u32);
    assert_eq!(biguint_to_b256(&one.to_bytes_be()).unwrap(), small(1));
}

#[test]
fn decimals_of_large_numbers() {
    let max = "115792089237316195423570985008687907853269984665640564039457584007913129639935";
    assert_eq!(b256_to_decimal(B256::repeat_byte(0xFF)), max);
    assert_eq!(decimal_to_b256(max).unwrap(), B256::repeat_byte(0xFF));
    let more = "115792089237316195423570985008687907853269984665640564039457584007913129639936";
    assert_eq!(decimal_to_u256(more), Err(SnarkjsError::InvalidDecimal));
    assert_eq!(decimal_to_u256("12a"), Err(SnarkjsError::InvalidDecimal));
    assert_eq!(decimal_to_u256("1_000"), Ok(U256::from_u64(1000)));
    assert_eq!(decimal_to_u256(""), Ok(U256::zero()));
}

#[test]
fn large_numbers_do_not_fit() {
    let bytes = [1u8; 33];
    assert_eq!(biguint_to_b256(&bytes).err(), Some(CircomError::TooLarge));
    assert_eq!(biguint_to_u256(&bytes).err(), Some(CircomError::TooLarge));
    assert_eq!(biguint_to_u256(&[1, 0]).unwrap(), U256::from_u64(256));
}

#[test]
fn command_is_split_into_words() {
    assert_eq!(split_words("  npx \t snarkjs\n"), texts(&["npx", "snarkjs"]));
    assert!(split_words(" \u{a0} ").is_empty());
    assert!(split_words("").is_empty());
    assert_eq!(split_words("a"), texts(&["a"]));
    let prover = SnarkjsProver::new("npx snarkjs", "c.wasm", "c.zkey");
    assert_eq!(
        prover.parse_snarkjs_command().unwrap(),
        ("npx".to_string(), texts(&["snarkjs"]))
    );
    assert_eq!(
        prover.witness_command("in", "wit").unwrap(),
        ("npx".to_string(), texts(&["snarkjs", "wtns", "calculate", "c.wasm", "in", "wit"]))
    );
    assert_eq!(
        prover.prove_command("wit", "proof", "public").unwrap(),
        ("npx".to_string(), texts(&["snarkjs", "groth16", "prove", "c.zkey", "wit", "proof", "public"]))
    );
    let empty = SnarkjsProver::new("   ", "c.wasm", "c.zkey");
    assert_eq!(empty.parse_snarkjs_command(), Err(SnarkjsError::EmptyCommand));
    assert_eq!(empty.witness_command("a", "b"), Err(SnarkjsError::EmptyCommand));
}

#[test]
fn words_are_parted_by_white_space() {
    let mut white = vec![];
    for c in (0..=0x10FFFFu32).filter_map(char::from_u32) {
        if split_words(&c.to_string()).is_empty() {
            white.push(c as u32);
        }
    }
    let mut expected: Vec<u32> = (0x9..=0xD).collect();
    expected.extend([0x20, 0x85, 0xA0, 0x1680]);
    expected.extend(0x2000..=0x200A);
    expected.extend([0x2028, 0x2029, 0x202F, 0x205F, 0x3000]);
    assert_eq!(white, expected);
    assert_eq!(split_words("a\u{3000}b\u{200b}c"), texts(&["a", "b\u{200b}c"]));
}

#[test]
fn snarkjs_proof_changes_parts_of_the_second_point() {
    let raw = SnarkjsProof {
        pi_a: texts(&["1", "2", "1"]),
        pi_b: vec![texts(&["3", "4"]), texts(&["5", "6"]), texts(&["1", "0"])],
        pi_c: texts(&["7", "8", "1"]),
    };
    let proof = convert_proof(&raw).unwrap();
    let n = U256::from_u64;
    assert_eq!(proof.p_a, [n(1), n(2)]);
    assert_eq!(proof.p_b, [[n(4), n(3)], [n(6), n(5)]]);
    assert_eq!(proof.p_c, [n(7), n(8)]);
    let bad = SnarkjsProof { pi_a: texts(&["1", "x"]), ..raw };
    assert_eq!(convert_proof(&bad).err(), Some(SnarkjsError::InvalidDecimal));
}

#[test]
fn anchor_is_the_first_signal() {
    let signals = texts(&["7", "1", "2", "3", "4", "5"]);
    assert_eq!(anchor_from_signals(&signals).unwrap(), small(7));
    assert_eq!(
        anchor_from_signals(&signals[..5]).err(),
        Some(SnarkjsError::InvalidSignalCount { got: 5 })
    );
}

#[test]
fn circom_proof_is_converted() {
    let b = |n: u8| vec![n];
    let raw = CircomProof {
        a_x: b(1),
        a_y: b(2),
        b_x: (b(3), b(4)),
        b_y: (b(5), b(6)),
        c_x: b(7),
        c_y: b(8),
        public_inputs: vec![b(9), b(1), b(1), b(1), b(1), b(1)],
    };
    let n = U256::from_u64;
    let proof = convert_circom_proof(&raw).unwrap();
    assert_eq!(proof.p_b, [[n(4), n(3)], [n(6), n(5)]]);
    assert_eq!(extract_anchor_after(&raw).unwrap(), small(9));
    let few = CircomProof { public_inputs: vec![b(9)], ..raw };
    assert_eq!(extract_anchor_after(&few).err(), Some(CircomError::InvalidSignalCount { got: 1 }));
    let large = CircomProof { a_x: vec![1; 33], ..few };
    assert_eq!(convert_circom_proof(&large).err(), Some(CircomError::TooLarge));
    assert_eq!(RustCircomProver::new("k.zkey").zkey_path, "k.zkey");
}

#[test]
fn circuit_inputs_are_decimal() {
    let mut proofs = [[B256::zero(); 16]; 4];
    proofs[1][2] = small(5);
    let mut path = [B256::zero(); 28];
    path[27] = small(6);
    let leaves = [small(1), small(2), small(3)];
    let input = update_input(small(10), small(11), leaves, 8193, 12, small(13), proofs, path);
    assert_eq!(input.anchor_before, "10");
    assert_eq!(input.block_root_before, "11");
    assert_eq!(input.updates, texts(&["1", "2", "3"]));
    assert_eq!(input.block_index, "8193");
    assert_eq!(input.in_block_index, "12");
    assert_eq!(input.nonzero_field, "13");
    assert_eq!(input.block_proofs.len(), 4);
    assert_eq!(input.block_proofs[1][2], "5");
    assert_eq!(input.root_path[27], "6");
    let flat = circom_update_input(small(10), small(11), leaves, 8193, 12, small(13), proofs, path);
    assert_eq!(flat.anchor_before, texts(&["10"]));
    assert_eq!(flat.block_index, texts(&["8193"]));
    assert_eq!(flat.block_proofs.len(), 64);
    assert_eq!(flat.block_proofs[18], "5");
    assert_eq!(flat.root_path[27], "6");
}

#[test]
fn texts_are_compared_by_characters() {
    assert!(same_text("groth16", "groth16"));
    assert!(!same_text("groth16", "groth1"));
    assert!(!same_text("groth16", "groth17"));
}
