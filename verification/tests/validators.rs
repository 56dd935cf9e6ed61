use pgp_challenger::blob::{
    Blob, BlobError, DecodedAnchorInfo, Groth16Proof, ParsedBlock, ParsedTransaction, BLOB_SIZE,
};
use pgp_challenger::groth16::{G1Point, G2Point, Groth16Verifier, VerifyingKey};
use pgp_challenger::types::{Address, BlockData, TimestampAndIndex, B256, U256};
use pgp_challenger::validators::nullifier::{NullifierRecord, NullifierValidator};
use pgp_challenger::validators::transaction::{authorized_without_registry, judge_proof, TxVerdict};
use pgp_challenger::validators::{AnchorLookup, DepositValidator, FraudEvidence, TransactionValidator};

fn make_block_data(block_nr: u64, num_deposits: u64) -> BlockData {
    BlockData {
        anchor: B256::zero(),
        timestamp: U256::zero(),
        num_transactions: U256::zero(),
        num_deposits: U256::from_u64(num_deposits),
        block_nr: U256::from_u64(block_nr),
        block_index: TimestampAndIndex { day: 0, index: 0 },
        sequencer: Address::zero(),
        blobhashes: vec![],
    }
}

fn create_blob_with_deposits(deposits: &[B256]) -> Blob {
    let mut blob = [B256::zero(); BLOB_SIZE];
    let mut blob_idx = 0;
    for (i, leaf) in deposits.iter().enumerate() {
        blob[blob_idx] = *leaf;
        blob_idx += 1;
        if (i + 1) % 3 == 0 {
            blob_idx += 1;
        }
    }
    blob
}

fn create_blob_with_transactions(nullifiers: &[(B256, B256)]) -> Blob {
    let mut blob = [B256::zero(); BLOB_SIZE];
    for (tx_idx, (null0, null1)) in nullifiers.iter().enumerate() {
        let base = tx_idx * 15;
        blob[base + 9] = *null0;
        blob[base + 10] = *null1;
    }
    blob
}

/// The records of a database, and a validator that is run against them.
struct State {
    records: Vec<(B256, NullifierRecord)>,
}

impl State {
    fn in_memory() -> State {
        State { records: vec![] }
    }

    fn nullifier_count(&self) -> usize {
        self.records.len()
    }

    fn delete_nullifiers_from(&mut self, block_nr: u64) {
        self.records.retain(|(_, r)| r.block_nr < block_nr);
    }

    fn process_block(&mut self, block_nr: u64, block: &ParsedBlock) -> Vec<FraudEvidence> {
        let validator = NullifierValidator::new();
        let asked = validator.collect_nullifiers(block_nr, block).first_uses;
        let existing: Vec<(B256, NullifierRecord)> =
            self.records.iter().filter(|(n, _)| asked.iter().any(|(a, _)| a == n)).copied().collect();
        let outcome = validator.process_block(&existing, block_nr, block);
        self.records.extend(outcome.new_nullifiers);
        outcome.fraud
    }
}

#[test]
fn test_deposit_validator_no_fraud() {
    let validator = DepositValidator::new();
    let leaf1 = B256::repeat_byte(0x11);
    let leaf2 = B256::repeat_byte(0x22);
    let leaf3 = B256::repeat_byte(0x33);
    let expected_deposits = vec![leaf1, leaf2, leaf3];
    let blob = create_blob_with_deposits(&[leaf1, leaf2, leaf3]);
    let block_data = make_block_data(1, 3);
    let parsed_block = ParsedBlock::from_blobs(&[blob], 3, 0).unwrap();

    let fraud = validator.validate_block(&block_data, &parsed_block, &expected_deposits);
    assert!(fraud.is_empty(), "Should not detect fraud for valid deposits");
}

#[test]
fn test_deposit_validator_detects_wrong_leaf() {
    let validator = DepositValidator::new();
    let expected_leaf = B256::repeat_byte(0x11);
    let wrong_leaf = B256::repeat_byte(0xFF);
    let expected_deposits = vec![expected_leaf];
    let blob = create_blob_with_deposits(&[wrong_leaf]);
    let block_data = make_block_data(1, 1);
    let parsed_block = ParsedBlock::from_blobs(&[blob], 1, 0).unwrap();

    let fraud = validator.validate_block(&block_data, &parsed_block, &expected_deposits);
    assert_eq!(fraud.len(), 1, "Should detect one fraud");
    match &fraud[0] {
        FraudEvidence::DepositWrongLeaf { deposit_nr, expected_leaf: exp, submitted_leaf: sub, .. } => {
            assert_eq!(*deposit_nr, 0);
            assert_eq!(*exp, expected_leaf);
            assert_eq!(*sub, wrong_leaf);
        }
        _ => panic!("Expected DepositWrongLeaf fraud"),
    }
}

#[test]
fn test_deposit_padding_validation() {
    let validator = DepositValidator::new();
    let non_zero = B256::repeat_byte(0xFF);

    fn assert_padding_fraud(fraud: &[FraudEvidence], expected_group: u64, expected_slot: u64) {
        let padding = fraud.iter().find(|f| matches!(f, FraudEvidence::DepositPaddingNotZero { .. }));
        assert!(padding.is_some(), "Should detect padding not zero");
        match padding.unwrap() {
            FraudEvidence::DepositPaddingNotZero { group_index, slot_index, .. } => {
                assert_eq!(*group_index, expected_group);
                assert_eq!(*slot_index, expected_slot);
            }
            _ => panic!("Expected DepositPaddingNotZero"),
        }
    }

    let leaf1 = B256::repeat_byte(0x11);
    let mut blob = [B256::zero(); BLOB_SIZE];
    blob[0] = leaf1;
    blob[1] = non_zero;
    let parsed = ParsedBlock::from_blobs(&[blob], 1, 0).unwrap();
    let fraud = validator.validate_block(&make_block_data(1, 1), &parsed, &[leaf1]);
    assert_padding_fraud(&fraud, 0, 1);

    let leaf2 = B256::repeat_byte(0x22);
    let mut blob = [B256::zero(); BLOB_SIZE];
    blob[0] = leaf1;
    blob[1] = leaf2;
    blob[2] = non_zero;
    let parsed = ParsedBlock::from_blobs(&[blob], 2, 0).unwrap();
    let fraud = validator.validate_block(&make_block_data(1, 2), &parsed, &[leaf1, leaf2]);
    assert_padding_fraud(&fraud, 0, 2);

    let leaf3 = B256::repeat_byte(0x33);
    let blob = create_blob_with_deposits(&[leaf1, leaf2, leaf3]);
    let parsed = ParsedBlock::from_blobs(&[blob], 3, 0).unwrap();
    let fraud = validator.validate_block(&make_block_data(1, 3), &parsed, &[leaf1, leaf2, leaf3]);
    assert!(fraud.is_empty(), "Full group should have no padding fraud");

    let leaf4 = B256::repeat_byte(0x44);
    let mut blob = [B256::zero(); BLOB_SIZE];
    blob[0] = leaf1;
    blob[1] = leaf2;
    blob[2] = leaf3;
    blob[4] = leaf4;
    blob[5] = non_zero;
    let parsed = ParsedBlock::from_blobs(&[blob], 4, 0).unwrap();
    let fraud = validator.validate_block(&make_block_data(1, 4), &parsed, &[leaf1, leaf2, leaf3, leaf4]);
    assert_padding_fraud(&fraud, 1, 1);
}

#[test]
fn both_padding_slots_are_reported() {
    let mut blob = [B256::zero(); BLOB_SIZE];
    blob[1] = B256::repeat_byte(1);
    blob[2] = B256::repeat_byte(2);
    let parsed = ParsedBlock::from_blobs(&[blob], 1, 0).unwrap();
    let fraud = DepositValidator::default().validate_block(&make_block_data(1, 1), &parsed, &[B256::zero()]);
    assert_eq!(fraud.len(), 2);
    assert!(matches!(fraud[0], FraudEvidence::DepositPaddingNotZero { slot_index: 1, .. }));
    assert!(matches!(fraud[1], FraudEvidence::DepositPaddingNotZero { slot_index: 2, .. }));
}

#[test]
fn uncountable_deposits_are_not_checked() {
    let parsed = ParsedBlock::from_blobs(&[[B256::repeat_byte(9); BLOB_SIZE]], 1, 0).unwrap();
    let mut header = make_block_data(1, 1);
    header.num_deposits = U256 { l0: 1, l1: 0, l2: 1, l3: 0 };
    let fraud = DepositValidator::new().validate_block(&header, &parsed, &[B256::zero()]);
    assert!(fraud.is_empty());
}

#[test]
fn test_nullifier_validator_no_double_spend() {
    let mut state = State::in_memory();
    let null1 = B256::repeat_byte(0x11);
    let null2 = B256::repeat_byte(0x22);
    let null3 = B256::repeat_byte(0x33);
    let null4 = B256::repeat_byte(0x44);
    let blob = create_blob_with_transactions(&[(null1, null2), (null3, null4)]);
    let parsed_block = ParsedBlock::from_blobs(&[blob], 0, 2).unwrap();

    let fraud = state.process_block(1, &parsed_block);
    assert!(fraud.is_empty(), "Should not detect fraud with unique nullifiers");
    assert_eq!(state.nullifier_count(), 4);
}

#[test]
fn test_nullifier_validator_detects_double_spend_same_block() {
    let mut state = State::in_memory();
    let null1 = B256::repeat_byte(0x11);
    let null2 = B256::repeat_byte(0x22);
    let blob = create_blob_with_transactions(&[(null1, null2), (null1, B256::zero())]);
    let parsed_block = ParsedBlock::from_blobs(&[blob], 0, 2).unwrap();

    let fraud = state.process_block(1, &parsed_block);
    assert_eq!(fraud.len(), 1, "Should detect one double-spend");
    match &fraud[0] {
        FraudEvidence::NullifierDoubleSpend {
            first_tx_number,
            second_tx_number,
            first_which,
            second_which,
            nullifier,
            ..
        } => {
            assert_eq!(*first_tx_number, 0);
            assert_eq!(*second_tx_number, 1);
            assert_eq!(*first_which, 0);
            assert_eq!(*second_which, 0);
            assert_eq!(*nullifier, null1);
        }
        _ => panic!("Expected NullifierDoubleSpend fraud"),
    }
}

#[test]
fn test_nullifier_validator_detects_double_spend_different_blocks() {
    let mut state = State::in_memory();
    let null1 = B256::repeat_byte(0x11);
    let null2 = B256::repeat_byte(0x22);
    let blob1 = create_blob_with_transactions(&[(null1, null2)]);
    let parsed_block1 = ParsedBlock::from_blobs(&[blob1], 0, 1).unwrap();
    let fraud1 = state.process_block(1, &parsed_block1);
    assert!(fraud1.is_empty());

    let blob2 = create_blob_with_transactions(&[(null1, B256::zero())]);
    let parsed_block2 = ParsedBlock::from_blobs(&[blob2], 0, 1).unwrap();
    let fraud2 = state.process_block(2, &parsed_block2);
    assert_eq!(fraud2.len(), 1, "Should detect cross-block double-spend");
}

#[test]
fn test_nullifier_validator_detects_double_spend_same_transaction() {
    let mut state = State::in_memory();
    let null1 = B256::repeat_byte(0x11);
    let blob = create_blob_with_transactions(&[(null1, null1)]);
    let parsed_block = ParsedBlock::from_blobs(&[blob], 0, 1).unwrap();

    let fraud = state.process_block(1, &parsed_block);
    assert_eq!(fraud.len(), 1, "Should detect double-spend within same transaction");
    match &fraud[0] {
        FraudEvidence::NullifierDoubleSpend {
            first_block_nr,
            second_block_nr,
            first_tx_number,
            second_tx_number,
            first_which,
            second_which,
            nullifier,
        } => {
            assert_eq!(*first_block_nr, 1);
            assert_eq!(*second_block_nr, 1);
            assert_eq!(*first_tx_number, 0, "Both uses in same transaction");
            assert_eq!(*second_tx_number, 0, "Both uses in same transaction");
            assert_eq!(*first_which, 0, "First use is nullifier0");
            assert_eq!(*second_which, 1, "Second use is nullifier1");
            assert_eq!(*nullifier, null1);
        }
        _ => panic!("Expected NullifierDoubleSpend fraud"),
    }
}

#[test]
fn test_nullifier_validator_rollback() {
    let mut state = State::in_memory();
    for block_nr in 1..=3u64 {
        let null0 = B256::repeat_byte(block_nr as u8);
        let null1 = B256::repeat_byte((block_nr + 10) as u8);
        let blob = create_blob_with_transactions(&[(null0, null1)]);
        let parsed_block = ParsedBlock::from_blobs(&[blob], 0, 1).unwrap();
        state.process_block(block_nr, &parsed_block);
    }
    assert_eq!(state.nullifier_count(), 6);
    state.delete_nullifiers_from(2);
    assert_eq!(state.nullifier_count(), 2, "Should only keep nullifiers from block 1 (2 per block)");
}

#[test]
fn test_nullifier_validator_tracks_zero_nullifiers() {
    let mut state = State::in_memory();
    let blob = create_blob_with_transactions(&[(B256::zero(), B256::zero())]);
    let parsed_block = ParsedBlock::from_blobs(&[blob], 0, 1).unwrap();
    let fraud = state.process_block(1, &parsed_block);
    assert_eq!(fraud.len(), 1, "Should detect double-spend of B256::ZERO within same transaction");
    assert_eq!(state.nullifier_count(), 1, "Should track zero nullifiers (the first occurrence)");
}

#[test]
fn test_nullifier_validator_zero_cross_block_double_spend() {
    let mut state = State::in_memory();
    let blob1 = create_blob_with_transactions(&[(B256::zero(), B256::repeat_byte(1))]);
    let parsed_block1 = ParsedBlock::from_blobs(&[blob1], 0, 1).unwrap();
    let fraud1 = state.process_block(1, &parsed_block1);
    assert!(fraud1.is_empty(), "Block 1 should have no fraud");
    assert_eq!(state.nullifier_count(), 2);

    let blob2 = create_blob_with_transactions(&[(B256::zero(), B256::repeat_byte(2))]);
    let parsed_block2 = ParsedBlock::from_blobs(&[blob2], 0, 1).unwrap();
    let fraud2 = state.process_block(2, &parsed_block2);
    assert_eq!(fraud2.len(), 1, "Should detect B256::ZERO double-spend across blocks");
    match &fraud2[0] {
        FraudEvidence::NullifierDoubleSpend { first_block_nr, second_block_nr, nullifier, .. } => {
            assert_eq!(*first_block_nr, 1);
            assert_eq!(*second_block_nr, 2);
            assert_eq!(*nullifier, B256::zero());
        }
        _ => panic!("Expected NullifierDoubleSpend fraud"),
    }
}

#[test]
fn in_block_evidence_comes_before_that_against_earlier_blocks() {
    let a = B256::repeat_byte(1);
    let b = B256::repeat_byte(2);
    let existing = [(a, NullifierRecord { block_nr: 4, tx_index: 3, which: 1 })];
    let blob = create_blob_with_transactions(&[(a, b), (b, a)]);
    let block = ParsedBlock::from_blobs(&[blob], 0, 2).unwrap();
    let outcome = NullifierValidator::default().process_block(&existing, 9, &block);
    assert_eq!(outcome.fraud.len(), 3);
    assert!(matches!(outcome.fraud[0], FraudEvidence::NullifierDoubleSpend { first_block_nr: 9, second_tx_number: 1, .. }));
    assert!(matches!(
        outcome.fraud[2],
        FraudEvidence::NullifierDoubleSpend { first_block_nr: 4, first_tx_number: 3, first_which: 1, second_tx_number: 0, .. }
    ));
    assert_eq!(outcome.new_nullifiers.len(), 1);
    assert_eq!(outcome.new_nullifiers[0].0, b);
}

#[test]
fn test_anchor_lookup() {
    let mut lookup = AnchorLookup::new();
    lookup.set_current_block(100);
    let anchor = B256::repeat_byte(0x11);
    lookup.insert(50, 0, false, anchor);
    lookup.insert(50, 1, false, B256::repeat_byte(0x22));
    lookup.insert(50, 0, true, B256::repeat_byte(0x33));

    assert_eq!(lookup.get(50, 0, false), Some(anchor));
    assert_eq!(lookup.get(50, 1, false), Some(B256::repeat_byte(0x22)));
    assert_eq!(lookup.get(50, 0, true), Some(B256::repeat_byte(0x33)));
    assert_eq!(lookup.get(99, 0, false), None);

    assert_eq!(lookup.get_max_update_nr(50, false), Some(1));
    assert_eq!(lookup.get_max_update_nr(50, true), Some(0));
    assert_eq!(lookup.get_max_update_nr(99, false), None);
}

#[test]
fn anchor_references() {
    let mut lookup = AnchorLookup::default();
    lookup.set_current_block(10);
    lookup.insert_batch(&[
        (5, 3, false, B256::repeat_byte(1)),
        (5, 1, false, B256::repeat_byte(2)),
        (7, 0, true, B256::repeat_byte(3)),
    ]);
    assert_eq!(lookup.len(), 3);
    assert!(!lookup.is_empty());
    assert_eq!(lookup.current_block_nr(), 10);
    assert!(lookup.is_valid_reference(5, 3, false));
    assert!(lookup.is_valid_reference(5, 2, false));
    assert!(!lookup.is_valid_reference(5, 4, false));
    assert!(lookup.is_valid_reference(5, 4, true));
    assert!(lookup.is_valid_reference(10, 900, false));
    assert!(!lookup.is_valid_reference(11, 0, false));
    let mut all = lookup.all_anchors();
    all.sort_by_key(|a| (a.0, a.1));
    assert_eq!(all[0], (5, 1, false, B256::repeat_byte(2)));
    assert_eq!(all[2], (7, 0, true, B256::repeat_byte(3)));
    lookup.rollback_from(7);
    assert_eq!(lookup.len(), 2);
    assert_eq!(lookup.get(7, 0, true), None);
    assert_eq!(lookup.get_max_update_nr(7, true), None);
    assert_eq!(lookup.get_max_update_nr(5, false), Some(3));
    lookup.rollback_from(0);
    assert!(lookup.is_empty());
    assert_eq!(lookup.get_max_update_nr(5, false), None);
}

fn zero_proof() -> Groth16Proof {
    let zero = B256::zero();
    Groth16Proof { a_x: zero, a_y: zero, b_x0: zero, b_x1: zero, b_y0: zero, b_y1: zero, c_x: zero, c_y: zero }
}

fn transaction() -> ParsedTransaction {
    ParsedTransaction {
        proof: zero_proof(),
        anchor_info: B256::zero(),
        nullifier0: B256::repeat_byte(1),
        nullifier1: B256::repeat_byte(2),
        leaf0: B256::repeat_byte(3),
        leaf1: B256::repeat_byte(4),
        leaf2: B256::repeat_byte(5),
        new_root: B256::repeat_byte(6),
    }
}

fn transaction_validator() -> TransactionValidator {
    let key = || VerifyingKey {
        alpha_g1: G1Point::Infinity,
        beta_g2: G2Point::Infinity,
        gamma_g2: G2Point::Infinity,
        delta_g2: G2Point::Infinity,
        gamma_abc_g1: vec![G1Point::Infinity; 8],
    };
    TransactionValidator::new(Groth16Verifier { transfer_vk: key(), update_vk: key() })
}

fn info(block_nr: u32, update_nr: u32, eth_key: Address) -> DecodedAnchorInfo {
    DecodedAnchorInfo { block_nr, update_nr, is_deposit: false, eth_key }
}

#[test]
fn transactions_are_judged_by_anchor_proof_and_account() {
    let validator = transaction_validator();
    let mut lookup = AnchorLookup::new();
    lookup.set_current_block(3);
    lookup.insert(2, 0, false, B256::repeat_byte(7));
    let mut off_curve = transaction();
    off_curve.proof.a_x = B256::repeat_byte(1);
    let block = ParsedBlock {
        deposit_groups: vec![],
        transactions: vec![
            transaction(),
            transaction(),
            transaction(),
            transaction(),
            off_curve,
            transaction(),
        ],
    };
    let account = Address::repeat_byte(0xAB);
    let infos = [
        info(999, 0, Address::zero()),
        info(2, 1, Address::zero()),
        info(1, 0, Address::zero()),
        info(2, 0, Address::zero()),
        info(2, 0, account),
        info(2, 0, account),
    ];
    let verdicts = validator.validate_block(&make_block_data(3, 0), &block, &infos, &lookup);
    assert!(matches!(
        &verdicts[0],
        TxVerdict::Fraud(FraudEvidence::InvalidAnchorReference { tx_nr: 0, anchor_block_nr: 999, .. })
    ));
    assert!(matches!(
        &verdicts[1],
        TxVerdict::Fraud(FraudEvidence::InvalidAnchorReference { tx_nr: 1, anchor_update_nr: 1, .. })
    ));
    assert!(matches!(&verdicts[2], TxVerdict::NoFraud));
    assert!(matches!(&verdicts[3], TxVerdict::NoFraud));
    assert!(matches!(&verdicts[4], TxVerdict::Fraud(FraudEvidence::InvalidTransactionProof { tx_nr: 4, .. })));
    match &verdicts[5] {
        TxVerdict::NeedsAuthorization { eth_key, fields, .. } => {
            assert_eq!(*eth_key, account);
            assert_eq!(fields[4], B256::repeat_byte(5));
        }
        _ => panic!("Expected a question for authorisation"),
    }
    let refused = validator.conclude(&verdicts, &[true, true, true, true, true, false]);
    assert_eq!(refused.len(), 4);
    assert!(matches!(&refused[3], FraudEvidence::MissingEthKeyAuth { tx_nr: 5, .. }));
    let authorized = validator.conclude(&verdicts, &[false, false, false, false, false, true]);
    assert_eq!(authorized.len(), 3);
}

#[test]
fn an_invalid_proof_is_fraud_whoever_has_to_authorise() {
    let header = make_block_data(1, 0);
    let verdict = judge_proof(&header, 7, &transaction(), &info(0, 0, Address::zero()), false);
    assert!(matches!(verdict, TxVerdict::Fraud(FraudEvidence::InvalidTransactionProof { tx_nr: 7, .. })));
    let verdict = judge_proof(&header, 7, &transaction(), &info(0, 0, Address::zero()), true);
    assert!(matches!(verdict, TxVerdict::NoFraud));
    assert!(authorized_without_registry(Address::zero()));
    assert!(!authorized_without_registry(Address::repeat_byte(1)));
}

#[test]
fn transaction_proof_is_verified_against_an_anchor() {
    let validator = transaction_validator();
    let result = validator.validate_transaction_proof(&transaction(), &info(0, 0, Address::zero()), B256::zero());
    assert_eq!(result, Ok(true));
}

#[test]
fn blocks_need_enough_fields() {
    let blob = [B256::zero(); BLOB_SIZE];
    assert!(ParsedBlock::from_blobs(&[blob], 0, 273).is_ok());
    assert_eq!(ParsedBlock::from_blobs(&[blob], 0, 274).err(), Some(BlobError::TooFewFields));
    assert!(ParsedBlock::from_blobs(&[blob], 3072, 0).is_ok());
    assert_eq!(ParsedBlock::from_blobs(&[blob], 3073, 0).err(), Some(BlobError::TooFewFields));
    assert_eq!(ParsedBlock::from_blobs(&[], 1, 0).err(), Some(BlobError::TooFewFields));
    let parsed = ParsedBlock::from_blobs(&[blob], 2, 0).unwrap();
    assert!(parsed.get_deposit_leaf(2).is_ok());
    assert_eq!(parsed.get_deposit_leaf(3).err(), Some(BlobError::NoSuchDeposit));
}

#[test]
fn transactions_are_read_across_blobs() {
    let mut first = [B256::zero(); BLOB_SIZE];
    let mut second = [B256::zero(); BLOB_SIZE];
    // Transaction 273 starts at field 4095.
    first[4095] = B256::repeat_byte(0x0A);
    second[8] = B256::repeat_byte(0x0B);
    second[13] = B256::repeat_byte(0x0C);
    let parsed = ParsedBlock::from_blobs(&[first, second], 0, 274).unwrap();
    let tx = &parsed.transactions[273];
    assert_eq!(tx.proof.a_x, B256::repeat_byte(0x0A));
    assert_eq!(tx.nullifier0, B256::repeat_byte(0x0B));
    assert_eq!(tx.new_root, B256::repeat_byte(0x0C));
}
