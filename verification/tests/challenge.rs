use pgp_challenger::blob::{blobs_from_bytes, ParsedBlock};
use pgp_challenger::challenge::memory::{
    anchor_memory_address, global_to_local_address, leaf_memory_address, nullifier_memory_address,
    num_deposits_to_memory_length, tx_memory_address, FIELDS_PER_BLOB,
};
use pgp_challenger::challenge::{BlobWithHash, ChallengeBuilder, ChallengeError, BLOB_FIELD_COUNT};
use pgp_challenger::kzg::KzgError;
use pgp_challenger::runner::default_block_data;
use pgp_challenger::runner::plan::{plan_challenge, ChallengePlan, PriorAnchor};
use pgp_challenger::types::{Address, BlockData, Proof, TimestampAndIndex, B256, U256};
use pgp_challenger::validators::{DepositValidator, FraudEvidence, NullifierValidator, TreeUpdateValidator};

fn header(block_nr: u64, num_deposits: u64, num_transactions: u64) -> BlockData {
    BlockData {
        anchor: B256::zero(),
        timestamp: U256::zero(),
        num_transactions: U256::from_u64(num_transactions),
        num_deposits: U256::from_u64(num_deposits),
        block_nr: U256::from_u64(block_nr),
        block_index: TimestampAndIndex { day: 0, index: 0 },
        sequencer: Address::zero(),
        blobhashes: vec![],
    }
}

fn word(first: u8, last: u8) -> B256 {
    let mut w = [0u8; 32];
    w[0] = first;
    w[31] = last;
    B256(w)
}

fn put(blob: &mut [u8], field: usize, value: B256) {
    blob[field * 32..field * 32 + 32].copy_from_slice(&value.0);
}

fn no_proof() -> Proof {
    let zero = U256::zero();
    Proof { p_a: [zero; 2], p_b: [[zero; 2]; 2], p_c: [zero; 2] }
}

#[test]
fn test_deposit_leaf_memory_address() {
    assert_eq!(ChallengeBuilder::deposit_leaf_memory_address(0), 0);
    assert_eq!(ChallengeBuilder::deposit_leaf_memory_address(1), 1);
    assert_eq!(ChallengeBuilder::deposit_leaf_memory_address(2), 2);
    assert_eq!(ChallengeBuilder::deposit_leaf_memory_address(3), 4);
    assert_eq!(ChallengeBuilder::deposit_leaf_memory_address(4), 5);
    assert_eq!(ChallengeBuilder::deposit_leaf_memory_address(5), 6);
    assert_eq!(ChallengeBuilder::deposit_leaf_memory_address(6), 8);
}

#[test]
fn test_num_deposits_to_memory_length() {
    assert_eq!(num_deposits_to_memory_length(0), 0);
    assert_eq!(num_deposits_to_memory_length(1), 4);
    assert_eq!(num_deposits_to_memory_length(2), 4);
    assert_eq!(num_deposits_to_memory_length(3), 4);
    assert_eq!(num_deposits_to_memory_length(4), 8);
    assert_eq!(num_deposits_to_memory_length(6), 8);
}

#[test]
fn test_tx_memory_address() {
    assert_eq!(tx_memory_address(0, 0), 0);
    assert_eq!(tx_memory_address(1, 0), 15);
    assert_eq!(tx_memory_address(0, 3), 4);
    assert_eq!(tx_memory_address(1, 3), 19);
}

#[test]
fn test_nullifier_memory_address() {
    assert_eq!(nullifier_memory_address(0, 0, 0), 9);
    assert_eq!(nullifier_memory_address(0, 0, 1), 10);
    assert_eq!(nullifier_memory_address(0, 3, 0), 13);
}

#[test]
fn test_global_to_local_address() {
    assert_eq!(global_to_local_address(0), (0, 0));
    assert_eq!(global_to_local_address(100), (0, 100));
    assert_eq!(global_to_local_address(4095), (0, 4095));
    assert_eq!(global_to_local_address(4096), (1, 0));
    assert_eq!(global_to_local_address(4096 + 100), (1, 100));
    assert_eq!(global_to_local_address(4096 + 4095), (1, 4095));
    assert_eq!(global_to_local_address(8192), (2, 0));
    assert_eq!(global_to_local_address(8192 + 500), (2, 500));
    assert_eq!(FIELDS_PER_BLOB, 4096);
}

#[test]
fn test_anchor_memory_address() {
    assert_eq!(anchor_memory_address(0, 0, true), 3);
    assert_eq!(anchor_memory_address(1, 0, true), 7);
    assert_eq!(anchor_memory_address(2, 0, true), 11);
    assert_eq!(anchor_memory_address(0, 0, false), 14);
    assert_eq!(anchor_memory_address(1, 0, false), 29);
    assert_eq!(anchor_memory_address(0, 3, false), 18);
    assert_eq!(anchor_memory_address(1, 3, false), 33);
    assert_eq!(anchor_memory_address(0, 6, false), 22);
}

#[test]
fn test_leaf_memory_address() {
    assert_eq!(leaf_memory_address(0, 3, true, 0), 0);
    assert_eq!(leaf_memory_address(1, 3, true, 0), 1);
    assert_eq!(leaf_memory_address(3, 6, true, 0), 4);
    assert_eq!(leaf_memory_address(0, 0, false, 0), 11);
    assert_eq!(leaf_memory_address(0, 0, false, 1), 12);
    assert_eq!(leaf_memory_address(0, 0, false, 2), 13);
    assert_eq!(leaf_memory_address(1, 0, false, 0), 26);
}

#[test]
fn test_build_region() {
    let builder = ChallengeBuilder::new().unwrap();
    let mut blob_data = vec![0u8; 131072];
    put(&mut blob_data, 0, B256::repeat_byte(0x11));
    put(&mut blob_data, 1, B256::repeat_byte(0x22));
    put(&mut blob_data, 2, B256::repeat_byte(0x33));
    let blob_hash = B256::repeat_byte(0xAA);

    let region = builder.build_region(&blob_data, 0, 3, blob_hash).unwrap();

    assert_eq!(region.length, U256::from_u64(3));
    assert_eq!(region.memory_address, U256::zero());
    assert_eq!(region.data.len(), 3);
    assert_eq!(region.proofs.len(), 3);
    assert_eq!(region.hash, blob_hash);
    assert_eq!(region.commitment.len(), 48);
    for proof in &region.proofs {
        assert_eq!(proof.len(), 48);
    }
    assert_eq!(region.data[0], B256::repeat_byte(0x11));
    assert_eq!(region.data[2], B256::repeat_byte(0x33));
}

#[test]
fn test_build_region_at_offset() {
    let builder = ChallengeBuilder::new().unwrap();
    let mut blob_data = vec![0u8; 131072];
    let mut value_a = [0xAAu8; 32];
    value_a[0] = 0x01;
    let mut value_b = [0xBBu8; 32];
    value_b[0] = 0x02;
    put(&mut blob_data, 100, B256(value_a));
    put(&mut blob_data, 101, B256(value_b));
    let blob_hash = B256::repeat_byte(0x0F);

    let region = builder.build_region(&blob_data, 100, 2, blob_hash).unwrap();

    assert_eq!(region.length, U256::from_u64(2));
    assert_eq!(region.memory_address, U256::from_u64(100));
    assert_eq!(region.data.len(), 2);
    assert_eq!(region.proofs.len(), 2);
    assert_eq!(region.data[1], B256(value_b));
}

#[test]
fn test_extension_region_detection() {
    let blob_size: u64 = 4096;
    let tx_start_1: u64 = 4080;
    let tx_length: u64 = 15;
    let needs_extension_1 = tx_start_1 + tx_length > blob_size;
    assert!(!needs_extension_1, "Transaction at 4080 should fit in single blob");

    let tx_start_2: u64 = 4090;
    let needs_extension_2 = tx_start_2 + tx_length > blob_size;
    assert!(needs_extension_2, "Transaction at 4090 should need extension region");

    if needs_extension_2 {
        let first_blob_count = blob_size - tx_start_2;
        let second_blob_count = tx_length - first_blob_count;
        assert_eq!(first_blob_count, 6, "First blob should have 6 fields");
        assert_eq!(second_blob_count, 9, "Second blob should have 9 fields");
    }
}

#[test]
fn test_extension_region_memory_calculation() {
    let num_deposits: u64 = 1000;
    let tx_183_addr = tx_memory_address(183, num_deposits);
    assert!(tx_183_addr >= 4081, "TX 183 should be near blob boundary");

    let num_deposits_2: u64 = 1020;
    let tx_182_addr = tx_memory_address(182, num_deposits_2);
    let blob_size: u64 = 4096;
    let tx_length: u64 = 15;
    let crosses_boundary = tx_182_addr + tx_length > blob_size;
    if crosses_boundary {
        let first_count = blob_size.saturating_sub(tx_182_addr);
        let second_count = tx_length.saturating_sub(first_count);
        assert!(first_count > 0, "Should have some fields in first blob");
        assert!(second_count > 0, "Should have some fields in second blob");
        assert_eq!(first_count + second_count, tx_length, "Total should equal tx length");
    }
}

#[test]
fn test_build_region_with_extension_single_blob() {
    let builder = ChallengeBuilder::new().unwrap();
    let mut blob_data = vec![0u8; 131072];
    for i in 0..10usize {
        put(&mut blob_data, i, word((i % 0x30) as u8, i as u8));
    }
    let blob_hash = B256::repeat_byte(0x01);
    let blobs = vec![BlobWithHash { data: &blob_data, hash: blob_hash }];

    let region_pair = builder.build_region_with_extension(&blobs, 0, 5).unwrap();

    assert_eq!(region_pair.region.length, U256::from_u64(5));
    assert_eq!(region_pair.region.memory_address, U256::zero());
    assert_eq!(region_pair.region.data.len(), 5);
    assert_eq!(region_pair.extension.length, U256::zero());
    assert!(region_pair.extension.data.is_empty());
}

#[test]
fn test_build_region_with_extension_crosses_boundary() {
    let builder = ChallengeBuilder::new().unwrap();
    let mut blob1 = vec![0u8; 131072];
    let mut blob2 = vec![0u8; 131072];
    for i in 4090..4096usize {
        let mut value = [0u8; 32];
        value[0] = 0x01;
        value[30] = (i >> 8) as u8;
        value[31] = (i & 0xFF) as u8;
        put(&mut blob1, i, B256(value));
    }
    for i in 0..10usize {
        put(&mut blob2, i, word(0x02, i as u8));
    }
    let blob1_hash = B256::repeat_byte(0x01);
    let blob2_hash = B256::repeat_byte(0x02);
    let blobs = vec![
        BlobWithHash { data: &blob1, hash: blob1_hash },
        BlobWithHash { data: &blob2, hash: blob2_hash },
    ];

    let region_pair = builder.build_region_with_extension(&blobs, 4090, 15).unwrap();

    assert_eq!(region_pair.region.length, U256::from_u64(6));
    assert_eq!(region_pair.region.memory_address, U256::from_u64(4090));
    assert_eq!(region_pair.region.data.len(), 6);
    assert_eq!(region_pair.region.hash, blob1_hash);
    assert_eq!(region_pair.extension.length, U256::from_u64(9));
    assert_eq!(region_pair.extension.memory_address, U256::zero());
    assert_eq!(region_pair.extension.data.len(), 9);
    assert_eq!(region_pair.extension.hash, blob2_hash);
    assert_eq!(region_pair.extension.data[8], word(0x02, 8));
    assert_eq!(region_pair.region.data[5].0[31], 0xFF);
}

#[test]
fn test_build_region_with_extension_error_missing_blob() {
    let builder = ChallengeBuilder::new().unwrap();
    let blob_data = vec![0u8; 131072];
    let blobs = vec![BlobWithHash { data: &blob_data, hash: B256::repeat_byte(0x01) }];

    let result = builder.build_region_with_extension(&blobs, 4090, 15);

    assert!(result.is_err(), "Should fail when second blob is missing");
    let err = result.unwrap_err().message();
    assert!(err.contains("second blob not provided"), "Error message should mention missing blob: {err}");
}

#[test]
fn test_build_region_with_extension_empty_blobs() {
    let builder = ChallengeBuilder::new().unwrap();
    let blobs: Vec<BlobWithHash> = vec![];

    let result = builder.build_region_with_extension(&blobs, 0, 5);

    assert!(result.is_err(), "Should fail with no blobs");
    let err = result.unwrap_err().message();
    assert!(err.contains("No blobs provided"), "Error message should mention no blobs: {err}");
}

#[test]
fn test_empty_region() {
    let empty = ChallengeBuilder::empty_region();
    assert_eq!(empty.length, U256::zero());
    assert_eq!(empty.memory_address, U256::zero());
    assert!(empty.data.is_empty());
    assert!(empty.proofs.is_empty());
    assert!(empty.commitment.is_empty());
    assert_eq!(empty.hash, B256::zero());
}

#[test]
fn test_blob_field_count_constant() {
    assert_eq!(BLOB_FIELD_COUNT, 4096);
    assert_eq!(BLOB_FIELD_COUNT * 32, 131072);
}

#[test]
fn region_errors_name_what_is_wrong() {
    let builder = ChallengeBuilder::new().unwrap();
    let short = vec![0u8; 100];
    let region = builder.build_region(&short, 0, 1, B256::zero());
    assert_eq!(
        region.err(),
        Some(ChallengeError::Kzg(KzgError::InvalidBlobSize { got: 100 }))
    );
    let blob = vec![0u8; 131072];
    let region = builder.build_region(&blob, 4095, 2, B256::zero());
    assert_eq!(
        region.err(),
        Some(ChallengeError::Kzg(KzgError::FieldIndexOutOfRange { index: 4096 }))
    );
    let blobs = [BlobWithHash { data: &blob, hash: B256::zero() }];
    assert_eq!(
        builder.build_region_with_extension(&blobs, 5000, 1).err(),
        Some(ChallengeError::BlobMissing { blob: 1, provided: 1 })
    );
    assert_eq!(
        builder.generate_proof_multi_blob(&blobs, 4096).err(),
        Some(ChallengeError::BlobMissing { blob: 1, provided: 1 })
    );
    let outside = vec![0xFFu8; 131072];
    assert_eq!(
        builder.compute_commitment(&outside).err(),
        Some(ChallengeError::Kzg(KzgError::Commitment))
    );
}

#[test]
fn deposit_challenge_submits_the_field_of_the_blob() {
    let builder = ChallengeBuilder::new().unwrap();
    let mut blob = vec![0u8; 131072];
    put(&mut blob, 4, word(1, 0x44));
    put(&mut blob, 5, word(1, 0x55));
    let blobs = [BlobWithHash { data: &blob, hash: B256::repeat_byte(7) }];
    let evidence = FraudEvidence::DepositWrongLeaf {
        block_data: header(2, 4, 0),
        deposit_nr: 3,
        expected_leaf: B256::zero(),
        submitted_leaf: B256::repeat_byte(0x99),
    };
    let params = builder.build_deposit_challenge(&evidence, &blobs, default_block_data()).unwrap();
    assert_eq!(params.deposit_nr, 3);
    assert_eq!(B256(params.sequencer_submitted_leaf), word(1, 0x44));
    assert_eq!(params.commitment.len(), 48);
    assert_eq!(params.proof.len(), 48);
    assert_eq!(params.block_data.block_nr, U256::from_u64(2));

    let padding = FraudEvidence::DepositPaddingNotZero {
        block_data: header(2, 4, 0),
        group_index: 1,
        slot_index: 1,
        submitted_value: B256::zero(),
    };
    let params = builder.build_deposit_challenge(&padding, &blobs, default_block_data()).unwrap();
    assert_eq!(params.deposit_nr, 4);
    assert_eq!(B256(params.sequencer_submitted_leaf), word(1, 0x55));

    let fields = blobs_from_bytes(&[blob.clone()]);
    let parsed = ParsedBlock::from_blobs(&fields, 4, 0).unwrap();
    assert_eq!(parsed.get_deposit_leaf(3).unwrap(), word(1, 0x44));
    assert_eq!(parsed.get_deposit_leaf(4).unwrap(), word(1, 0x55));
}

#[test]
fn deposit_challenge_errors() {
    let builder = ChallengeBuilder::new().unwrap();
    let blob = vec![0u8; 131072];
    let blobs = [BlobWithHash { data: &blob, hash: B256::zero() }];
    let padding = |group_index: u64, slot_index: u64| FraudEvidence::DepositPaddingNotZero {
        block_data: header(1, 1, 0),
        group_index,
        slot_index,
        submitted_value: B256::zero(),
    };
    assert_eq!(
        builder.build_deposit_challenge(&padding(0, 3), &blobs, default_block_data()).err(),
        Some(ChallengeError::InvalidSlotIndex { slot: 3 })
    );
    assert_eq!(
        builder.build_deposit_challenge(&padding(u64::MAX, 1), &blobs, default_block_data()).err(),
        Some(ChallengeError::DepositNumberOverflow)
    );
    assert_eq!(
        builder.build_deposit_challenge(&padding(0, 1), &[], default_block_data()).err(),
        Some(ChallengeError::NoBlobsForDeposit)
    );
    let other = FraudEvidence::NullifierDoubleSpend {
        first_block_nr: 0,
        second_block_nr: 0,
        first_tx_number: 0,
        second_tx_number: 0,
        first_which: 0,
        second_which: 1,
        nullifier: B256::zero(),
    };
    assert_eq!(
        builder.build_deposit_challenge(&other, &blobs, default_block_data()).err(),
        Some(ChallengeError::ExpectedDepositEvidence)
    );
}

#[test]
fn nullifier_challenge_proves_both_uses() {
    let builder = ChallengeBuilder::new().unwrap();
    let mut blob = vec![0u8; 131072];
    put(&mut blob, 9, word(1, 0x11));
    put(&mut blob, 25, word(1, 0x11));
    let blobs = [BlobWithHash { data: &blob, hash: B256::zero() }];
    let evidence = FraudEvidence::NullifierDoubleSpend {
        first_block_nr: 1,
        second_block_nr: 1,
        first_tx_number: 0,
        second_tx_number: 1,
        first_which: 0,
        second_which: 1,
        nullifier: word(1, 0x11),
    };
    let params = builder
        .build_nullifier_challenge(
            &evidence,
            &blobs,
            &blobs,
            header(1, 0, 2),
            header(1, 0, 2),
            default_block_data(),
        )
        .unwrap();
    assert_eq!(params.reused_nullifier, word(1, 0x11));
    assert_eq!(params.second_tx_number, 1);
    assert_eq!(params.second_which, 1);
    assert_ne!(params.first_proof, params.second_proof);
    assert_eq!(params.first_commitment, params.second_commitment);

    let wrong = FraudEvidence::DepositWrongLeaf {
        block_data: header(1, 1, 0),
        deposit_nr: 0,
        expected_leaf: B256::zero(),
        submitted_leaf: B256::zero(),
    };
    assert_eq!(
        builder
            .build_nullifier_challenge(&wrong, &blobs, &blobs, header(1, 0, 2), header(1, 0, 2), default_block_data())
            .err(),
        Some(ChallengeError::ExpectedNullifierEvidence)
    );
    assert_eq!(
        builder
            .build_nullifier_challenge(&evidence, &[], &blobs, header(1, 0, 2), header(1, 0, 2), default_block_data())
            .err(),
        Some(ChallengeError::NoBlobsForFirstBlock)
    );
    assert_eq!(
        builder
            .build_nullifier_challenge(&evidence, &blobs, &[], header(1, 0, 2), header(1, 0, 2), default_block_data())
            .err(),
        Some(ChallengeError::NoBlobsForSecondBlock)
    );
    let mut huge = header(1, 0, 2);
    huge.num_deposits = U256 { l0: 0, l1: 1, l2: 0, l3: 0 };
    assert_eq!(
        builder
            .build_nullifier_challenge(&evidence, &blobs, &blobs, huge, header(1, 0, 2), default_block_data())
            .err(),
        Some(ChallengeError::ValueTooLarge)
    );
}

#[test]
fn transaction_challenge_takes_fourteen_fields() {
    let builder = ChallengeBuilder::new().unwrap();
    let mut blob = vec![0u8; 131072];
    for i in 0..15usize {
        put(&mut blob, 4 + i, word(1, i as u8));
    }
    let blobs = [BlobWithHash { data: &blob, hash: B256::repeat_byte(1) }];
    let evidence = FraudEvidence::InvalidTransactionProof {
        block_data: header(3, 2, 1),
        tx_nr: 0,
        anchor_block_nr: 2,
        anchor_update_nr: 0,
        is_deposit: true,
    };
    let params = builder
        .build_transaction_challenge_multi_blob(
            &evidence,
            &blobs,
            B256::repeat_byte(5),
            header(2, 3, 0),
            &blobs,
            3,
            default_block_data(),
        )
        .unwrap();
    assert_eq!(params.tx_nr, 0);
    assert_eq!(params.region.data.len(), 14);
    assert_eq!(params.region.memory_address, U256::from_u64(4));
    assert_eq!(params.region.data[0], word(1, 0));
    assert_eq!(params.region.data[13], word(1, 13));
    assert!(params.extension_region.data.is_empty());
    assert_eq!(params.anchor, B256::repeat_byte(5));
    assert_eq!(params.prior_anchor_proof.len(), 48);

    assert_eq!(
        builder
            .build_transaction_challenge_multi_blob(
                &evidence,
                &blobs,
                B256::zero(),
                header(2, 3, 0),
                &[],
                3,
                default_block_data()
            )
            .err(),
        Some(ChallengeError::NoBlobsForPriorAnchorBlock)
    );
}

#[test]
fn single_blob_transaction_challenge_uses_the_first_hash() {
    let builder = ChallengeBuilder::new().unwrap();
    let blob = vec![0u8; 131072];
    let mut block = header(3, 0, 1);
    block.blobhashes = vec![B256::repeat_byte(0x21), B256::repeat_byte(0x22)];
    let evidence = FraudEvidence::InvalidAnchorReference {
        block_data: block,
        tx_nr: 0,
        anchor_block_nr: 9,
        anchor_update_nr: 0,
        is_deposit: false,
    };
    let params = builder
        .build_transaction_challenge(
            &evidence,
            &blob,
            B256::zero(),
            header(2, 0, 1),
            &blob,
            14,
            default_block_data(),
        )
        .unwrap();
    assert_eq!(params.region.hash, B256::repeat_byte(0x21));
    assert_eq!(params.region.data.len(), 14);
}

fn wrong_update(block_data: BlockData, update_nr: u64, is_tx: bool) -> FraudEvidence {
    FraudEvidence::IncorrectTreeUpdate {
        block_data,
        update_nr,
        is_tx,
        expected_anchor: B256::repeat_byte(1),
        submitted_anchor: B256::repeat_byte(2),
        prior_anchor: B256::repeat_byte(3),
        leaves: [B256::zero(); 3],
        prior_anchor_block_nr: None,
        prior_update_nr: None,
        merkle_data: None,
    }
}

#[test]
fn tree_update_challenge_takes_leaves_and_root() {
    let builder = ChallengeBuilder::new().unwrap();
    let mut blob = vec![0u8; 131072];
    for i in 0..40usize {
        put(&mut blob, i, word(1, i as u8));
    }
    let blobs = [BlobWithHash { data: &blob, hash: B256::repeat_byte(1) }];
    // Two deposit groups, then transactions: update 3 is transaction 1.
    let params = builder
        .build_tree_update_challenge_multi_blob(
            &wrong_update(header(1, 4, 2), 3, true),
            &blobs,
            B256::repeat_byte(3),
            &blobs,
            22,
            B256::repeat_byte(1),
            no_proof(),
            default_block_data(),
        )
        .unwrap();
    assert_eq!(params.region.memory_address, U256::from_u64(8 + 15 + 11));
    assert_eq!(params.region.data.len(), 4);
    assert_eq!(params.region.data[0], word(1, 34));
    let params = builder
        .build_tree_update_challenge_multi_blob(
            &wrong_update(header(1, 4, 2), 1, false),
            &blobs,
            B256::repeat_byte(3),
            &blobs,
            3,
            B256::repeat_byte(1),
            no_proof(),
            default_block_data(),
        )
        .unwrap();
    assert_eq!(params.region.memory_address, U256::from_u64(4));
    assert_eq!(params.region.data[3], word(1, 7));
    let params = builder
        .build_tree_update_challenge(
            &wrong_update(header(1, 4, 2), 0, false),
            &blob,
            B256::repeat_byte(3),
            &blob,
            3,
            B256::repeat_byte(1),
            no_proof(),
            default_block_data(),
        )
        .unwrap();
    assert_eq!(params.region.hash, B256::zero());
    assert_eq!(params.true_anchor, B256::repeat_byte(1));
}

#[test]
fn genesis_challenge_has_no_proof_of_the_prior_anchor() {
    let builder = ChallengeBuilder::new().unwrap();
    let blob = vec![0u8; 131072];
    let blobs = [BlobWithHash { data: &blob, hash: B256::repeat_byte(1) }];
    let build = |block_nr: u64, update_nr: u64, blobs: &[BlobWithHash]| {
        builder.build_tree_update_challenge_genesis(
            &wrong_update(header(block_nr, 3, 0), update_nr, false),
            blobs,
            B256::repeat_byte(9),
            B256::repeat_byte(1),
            no_proof(),
            default_block_data(),
        )
    };
    let params = build(0, 0, &blobs).unwrap();
    assert_eq!(params.prior_anchor, B256::repeat_byte(9));
    assert!(params.prior_anchor_commitment.is_empty());
    assert!(params.prior_anchor_proof.is_empty());
    assert_eq!(build(1, 0, &blobs).err(), Some(ChallengeError::NotGenesisBlock));
    assert_eq!(build(0, 1, &blobs).err(), Some(ChallengeError::NotFirstUpdate));
    assert_eq!(build(0, 0, &[]).err(), Some(ChallengeError::NoBlobsForCurrentBlock));
}

/// A block read from one blob, with the blob and its header.
fn block_in(blob: &[u8], num_deposits: u64, num_transactions: u64) -> (BlockData, ParsedBlock) {
    let data = header(1, num_deposits, num_transactions);
    let fields = blobs_from_bytes(&[blob.to_vec()]);
    let block = ParsedBlock::from_blobs(&fields, num_deposits as usize, num_transactions as usize).unwrap();
    (data, block)
}

#[test]
fn found_deposit_frauds_can_be_challenged() {
    let builder = ChallengeBuilder::default();
    let mut blob = vec![0u8; 131072];
    for (field, last) in [(0, 1), (1, 2), (2, 3), (4, 4), (5, 9)] {
        put(&mut blob, field, word(1, last));
    }
    let (data, block) = block_in(&blob, 4, 0);
    let expected = [word(1, 1), word(1, 7), word(1, 3), word(1, 4)];
    let frauds = DepositValidator::new().validate_block(&data, &block, &expected);
    assert_eq!(frauds.len(), 2);
    let blobs = [BlobWithHash { data: &blob, hash: B256::repeat_byte(1) }];
    let wrong = builder.build_deposit_challenge(&frauds[0], &blobs, default_block_data()).unwrap();
    assert_eq!((wrong.deposit_nr, wrong.sequencer_submitted_leaf), (1, word(1, 2).0));
    let padding = builder.build_deposit_challenge(&frauds[1], &blobs, default_block_data()).unwrap();
    assert_eq!((padding.deposit_nr, padding.sequencer_submitted_leaf), (4, word(1, 9).0));
}

#[test]
fn found_double_spends_can_be_challenged() {
    let builder = ChallengeBuilder::new().unwrap();
    let mut blob = vec![0u8; 131072];
    for (field, last) in [(9, 1), (10, 2), (24, 3), (25, 1)] {
        put(&mut blob, field, word(1, last));
    }
    let (data, block) = block_in(&blob, 0, 2);
    let frauds = NullifierValidator::new().process_block(&[], 1, &block).fraud;
    assert_eq!(frauds.len(), 1);
    let blobs = [BlobWithHash { data: &blob, hash: B256::repeat_byte(1) }];
    let params = builder
        .build_nullifier_challenge(&frauds[0], &blobs, &blobs, data.clone(), data.clone(), default_block_data())
        .unwrap();
    assert_eq!(params.reused_nullifier, word(1, 1));
    assert_eq!(params.first_proof, builder.generate_proof(&blob, 9).unwrap().proof);
    assert_eq!(params.second_proof, builder.generate_proof(&blob, 25).unwrap().proof);
}

#[test]
fn found_tree_frauds_can_be_challenged() {
    let builder = ChallengeBuilder::new().unwrap();
    let mut blob = vec![0u8; 131072];
    for field in 0..8usize {
        put(&mut blob, field, word(1, field as u8));
    }
    let (data, block) = block_in(&blob, 6, 0);
    let (frauds, _) =
        TreeUpdateValidator::new().validate_block(&data, &block, word(2, 2), Some(0), 1, 0, &[]);
    // Both updates claim a wrong root, and so does the header.
    assert_eq!(frauds.len(), 3);
    let blobs = [BlobWithHash { data: &blob, hash: B256::repeat_byte(1) }];
    let params = builder
        .build_tree_update_challenge_multi_blob(
            &frauds[1],
            &blobs,
            word(1, 3),
            &blobs,
            3,
            B256::repeat_byte(1),
            no_proof(),
            default_block_data(),
        )
        .unwrap();
    let words: Vec<B256> = (4..8).map(|i| word(1, i)).collect();
    assert_eq!(params.region.data, words);
    // The evidence against the header is held against the last update, and so has a plan.
    let in_field_three = ChallengePlan::TreeUpdate { prior: PriorAnchor::SameBlock { field_index: 3 } };
    assert_eq!(plan_challenge(&frauds[1], &data), Ok(in_field_three));
    assert_eq!(plan_challenge(&frauds[2], &data), Ok(in_field_three));
    let params = builder
        .build_tree_update_challenge_multi_blob(
            &frauds[2],
            &blobs,
            word(1, 3),
            &blobs,
            3,
            B256::repeat_byte(1),
            no_proof(),
            default_block_data(),
        )
        .unwrap();
    assert_eq!(params.update_nr, 1);
    assert_eq!(params.region.data, words);
}
