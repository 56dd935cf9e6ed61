use pgp_challenger::blob::{BlobError, DecodedAnchorInfo, ParsedBlock};
use pgp_challenger::challenge::{ChallengeBuilder, ChallengeError};
use pgp_challenger::events::NewRootEvent;
use pgp_challenger::groth16::{G1Point, G2Point, Groth16Verifier, VerifyingKey};
use pgp_challenger::runner::plan::{
    attach_hashes, earlier_anchor_index, finish_tree_update, plan_challenge, rollback_target, starting_anchor,
    transaction_anchor_index, ChallengePlan, PriorAnchor,
};
use pgp_challenger::runner::retry::{
    anchors_before_block, frauds_of_type, records_before_block, roots_before_block, Retry, RetryAction,
};
use pgp_challenger::runner::{
    default_block_data, fraud_type_name, BlockOutcome, ChallengerRunner, RollbackPlan, RunnerError,
};
use pgp_challenger::types::{Address, BlockData, Proof, TimestampAndIndex, B256, U256};
use pgp_challenger::validators::nullifier::NullifierRecord;
use pgp_challenger::validators::{BlockTreeTracker, FraudEvidence, RootTreeTracker};

fn runner(roots: &[(u64, B256)]) -> ChallengerRunner {
    let key = || VerifyingKey {
        alpha_g1: G1Point::Infinity,
        beta_g2: G2Point::Infinity,
        gamma_g2: G2Point::Infinity,
        delta_g2: G2Point::Infinity,
        gamma_abc_g1: vec![G1Point::Infinity; 8],
    };
    let verifier = Groth16Verifier { transfer_vk: key(), update_vk: key() };
    ChallengerRunner::new(verifier, &[], roots, None, B256::repeat_byte(0x2A), 3, true)
}

fn header(block_nr: u64, num_deposits: u64, num_transactions: u64) -> BlockData {
    BlockData {
        anchor: B256::zero(),
        timestamp: U256::zero(),
        num_transactions: U256::from_u64(num_transactions),
        num_deposits: U256::from_u64(num_deposits),
        block_nr: U256::from_u64(block_nr),
        block_index: TimestampAndIndex { day: 0, index: block_nr as u128 },
        sequencer: Address::zero(),
        blobhashes: vec![],
    }
}

fn event(block_data: BlockData, block_number: U256) -> NewRootEvent {
    NewRootEvent {
        block_number,
        anchor: block_data.anchor,
        l2_block_hash: B256::zero(),
        block_data,
        l1_block_number: 77,
        tx_hash: B256::zero(),
    }
}

fn leaf(n: u8) -> B256 {
    let mut w = [0u8; 32];
    w[31] = n;
    B256(w)
}

/// A blob with one group of deposits and the given root after it.
fn deposit_blob(leaves: [B256; 3], new_root: B256) -> Vec<u8> {
    let mut blob = vec![0u8; 131072];
    for (i, w) in [leaves[0], leaves[1], leaves[2], new_root].iter().enumerate() {
        blob[32 * i..32 * i + 32].copy_from_slice(&w.0);
    }
    blob
}

fn wide() -> U256 {
    U256 { l0: 0, l1: 0, l2: 0, l3: 1 }
}

fn process(runner: &mut ChallengerRunner, block_data: BlockData, blob: Vec<u8>, deposits: &[B256]) -> BlockOutcome {
    let number = block_data.block_nr;
    let e = event(block_data, number);
    let block_nr = runner.start_block(&e).unwrap();
    let open = runner.open_block(block_nr, &e.block_data, &[blob]).unwrap();
    let infos: Vec<DecodedAnchorInfo> = vec![];
    let checks = runner.check_block(&e.block_data, block_nr, &open.block, deposits, &[], &infos);
    runner.close_block(&e.block_data, block_nr, e.l1_block_number, &open.block, checks, &[]).unwrap()
}

fn expected_anchor(roots: &[(u64, B256)], index: u64, leaves: [B256; 3]) -> B256 {
    let chain = RootTreeTracker::from_block_roots(roots);
    let mut tracker = BlockTreeTracker::new(index as usize, &chain.get_root_path_for_index(index));
    tracker.apply_update(leaves)
}

#[test]
fn a_correct_block_sets_its_anchor() {
    let leaves = [leaf(1), leaf(2), leaf(3)];
    let anchor = expected_anchor(&[], 1, leaves);
    let mut r = runner(&[]);
    let mut data = header(1, 3, 0);
    data.anchor = anchor;
    let outcome = process(&mut r, data, deposit_blob(leaves, anchor), &leaves);
    assert!(outcome.fraud.is_empty());
    assert_eq!(outcome.tree_index, 1);
    assert_eq!(outcome.anchor, anchor);
    assert_eq!(r.current_anchor(), anchor);

    let next_leaves = [leaf(4), leaf(5), leaf(6)];
    let next = expected_anchor(&[(1, outcome.block_root)], 2, next_leaves);
    let mut data = header(2, 3, 0);
    data.anchor = next;
    let outcome = process(&mut r, data, deposit_blob(next_leaves, next), &next_leaves);
    assert!(outcome.fraud.is_empty());
    assert_eq!(r.current_anchor(), next);
}

#[test]
fn all_evidence_is_gathered_with_its_place() {
    let leaves = [leaf(1), leaf(2), leaf(3)];
    let mut r = runner(&[]);
    let mut data = header(1, 3, 0);
    data.anchor = expected_anchor(&[], 1, leaves);
    let outcome = process(&mut r, data, deposit_blob(leaves, leaf(9)), &[leaf(1), leaf(7), leaf(3)]);
    assert_eq!(outcome.fraud.len(), 2);
    assert_eq!(fraud_type_name(&outcome.fraud[0].fraud), "DepositWrongLeaf");
    assert_eq!(fraud_type_name(&outcome.fraud[1].fraud), "IncorrectTreeUpdate");
    assert_eq!(outcome.fraud[1].block_nr, 1);
    assert_eq!(outcome.fraud[1].l1_block_number, 77);
    // The tree goes on from what the leaves lead to.
    assert_eq!(outcome.anchor, expected_anchor(&[], 1, leaves));
}

#[test]
fn a_rollback_goes_on_from_the_roots_that_are_left() {
    let mut r = runner(&[(1, leaf(1)), (2, leaf(2))]);
    let plan = r.plan_rollback(U256::from_u64(2)).unwrap();
    assert_eq!(plan, RollbackPlan { nullifiers_from: 2, anchors_from: 3, blocks_from: 2 });
    r.apply_rollback(plan, &[(1, leaf(1))]);
    assert_eq!(r.current_anchor(), runner(&[(1, leaf(1))]).current_anchor());
    assert_eq!(r.plan_rollback(wide()), Err(RunnerError::RollbackTargetTooLarge));
}

#[test]
fn anchors_of_a_block_are_numbered_by_kind() {
    let mut r = runner(&[]);
    let mut blob = deposit_blob([leaf(1), leaf(2), leaf(3)], leaf(4));
    // The root after the first transaction, which starts at field four.
    blob[32 * 18 + 31] = 5;
    let block = r.parse_block(&header(1, 3, 1), &[blob]).unwrap();
    let anchors = r.record_anchors((1 << 32) + 6, &block);
    assert_eq!(anchors, vec![(6, 0, true, leaf(4)), (6, 0, false, leaf(5))]);
}

#[test]
fn blocks_that_cannot_be_processed() {
    let mut r = runner(&[]);
    assert_eq!(r.start_block(&event(header(1, 0, 0), wide())).err(), Some(RunnerError::BlockNumberTooLarge));
    let mut data = header(1, 0, 0);
    data.num_transactions = wide();
    assert_eq!(r.parse_block(&data, &[]).err(), Some(RunnerError::TransactionCountTooLarge));
    data.num_deposits = wide();
    assert_eq!(r.parse_block(&data, &[]).err(), Some(RunnerError::DepositCountTooLarge));
    assert_eq!(
        r.parse_block(&header(1, 3, 0), &[]).err(),
        Some(RunnerError::Blob(BlobError::TooFewFields))
    );
    let empty = ParsedBlock { deposit_groups: vec![], transactions: vec![] };
    let mut data = header(1, 0, 0);
    data.block_index = TimestampAndIndex { day: 32767, index: 8191 };
    assert_eq!(r.check_room(&data, &empty), Ok(268435455));
    data.block_index = TimestampAndIndex { day: 32767, index: 8192 };
    assert_eq!(r.check_room(&data, &empty), Err(RunnerError::TreeIndexOutOfRange));
    data.block_index = TimestampAndIndex { day: u128::MAX, index: 0 };
    assert_eq!(r.check_room(&data, &empty), Err(RunnerError::TreeIndexOutOfRange));
    let groups = vec![0u8; 131072];
    let many: Vec<Vec<u8>> = (0..22).map(|_| groups.clone()).collect();
    let block = r.parse_block(&header(1, 65536, 0), &many).unwrap();
    assert_eq!(r.check_room(&header(1, 65536, 0), &block), Err(RunnerError::TooManyUpdates));
}

#[test]
fn settings_of_a_runner() {
    let r = runner(&[]);
    assert_eq!(r.registry_address(), Address::zero());
    assert_eq!(r.genesis_anchor(), B256::repeat_byte(0x2A));
    assert!(r.is_dry_run());
    assert!(r.should_retry(2));
    assert!(!r.should_retry(3));
}

#[test]
fn the_block_before_the_first() {
    let data = default_block_data();
    assert_eq!(data.anchor, B256::zero());
    assert_eq!(data.block_nr, U256::zero());
    assert!(data.blobhashes.is_empty());
    assert_eq!(rollback_target(0), None);
    assert_eq!(rollback_target(1), Some(0));
    assert_eq!(rollback_target(2), Some(1));
}

fn wrong_update(
    data: BlockData,
    update_nr: u64,
    is_tx: bool,
    prior_anchor_block_nr: Option<u64>,
    prior_update_nr: Option<u64>,
) -> FraudEvidence {
    let tracker = BlockTreeTracker::new(0, &[]);
    let leaves = [leaf(1), leaf(2), leaf(3)];
    FraudEvidence::IncorrectTreeUpdate {
        block_data: data,
        update_nr,
        is_tx,
        expected_anchor: leaf(8),
        submitted_anchor: leaf(9),
        prior_anchor: leaf(7),
        leaves,
        prior_anchor_block_nr,
        prior_update_nr,
        merkle_data: Some(tracker.get_merkle_data_before_update(0, leaves)),
    }
}

#[test]
fn plans_of_tree_update_challenges() {
    let data = header(3, 6, 0);
    let plan = |fraud: FraudEvidence| plan_challenge(&fraud, &header(3, 6, 0));
    assert_eq!(
        plan(wrong_update(data.clone(), 1, false, None, Some(0))),
        Ok(ChallengePlan::TreeUpdate { prior: PriorAnchor::SameBlock { field_index: 3 } })
    );
    assert_eq!(
        plan(wrong_update(data.clone(), 0, false, Some(2), None)),
        Ok(ChallengePlan::TreeUpdate { prior: PriorAnchor::EarlierBlock { block_nr: 2 } })
    );
    assert_eq!(
        plan(wrong_update(data.clone(), 0, false, None, None)),
        Ok(ChallengePlan::TreeUpdate { prior: PriorAnchor::Genesis })
    );
    assert_eq!(
        plan(wrong_update(data.clone(), 1, false, None, Some(1))),
        Err(RunnerError::PriorUpdateNotBefore { prior: 1, update: 1 })
    );
    let mut uncountable = data.clone();
    uncountable.num_deposits = wide();
    assert_eq!(
        plan_challenge(&wrong_update(data.clone(), 1, false, None, Some(0)), &uncountable),
        Err(RunnerError::DepositCountTooLarge)
    );
    let bare = FraudEvidence::IncorrectTreeUpdate {
        block_data: data,
        update_nr: 0,
        is_tx: false,
        expected_anchor: leaf(8),
        submitted_anchor: leaf(9),
        prior_anchor: leaf(7),
        leaves: [leaf(1), leaf(2), leaf(3)],
        prior_anchor_block_nr: None,
        prior_update_nr: None,
        merkle_data: None,
    };
    assert_eq!(plan(bare), Err(RunnerError::MissingMerkleData));
}

#[test]
fn the_prior_anchor_of_a_transaction_is_where_the_update_before_left_it() {
    let plan = |update_nr: u64| {
        let data = header(3, 3, 3);
        plan_challenge(&wrong_update(data.clone(), update_nr, true, None, Some(update_nr - 1)), &data)
    };
    let in_field = |field_index: usize| {
        Ok(ChallengePlan::TreeUpdate { prior: PriorAnchor::SameBlock { field_index } })
    };
    assert_eq!(plan(1), in_field(3));
    assert_eq!(plan(2), in_field(18));
    assert_eq!(plan(3), in_field(33));
}

#[test]
fn plans_of_other_challenges() {
    let data = header(3, 6, 2);
    let deposit = FraudEvidence::DepositWrongLeaf {
        block_data: data.clone(),
        deposit_nr: 0,
        expected_leaf: leaf(1),
        submitted_leaf: leaf(2),
    };
    assert_eq!(plan_challenge(&deposit, &data), Ok(ChallengePlan::Deposit));
    let nullifier = FraudEvidence::NullifierDoubleSpend {
        first_block_nr: 1,
        second_block_nr: 3,
        first_tx_number: 0,
        second_tx_number: 1,
        first_which: 0,
        second_which: 1,
        nullifier: leaf(5),
    };
    assert_eq!(
        plan_challenge(&nullifier, &data),
        Ok(ChallengePlan::Nullifier { first_block_nr: 1, second_block_nr: 3 })
    );
    let transaction = FraudEvidence::InvalidTransactionProof {
        block_data: data.clone(),
        tx_nr: 0,
        anchor_block_nr: 2,
        anchor_update_nr: 4,
        is_deposit: true,
    };
    assert_eq!(
        plan_challenge(&transaction, &data),
        Ok(ChallengePlan::Transaction { anchor_block_nr: 2, anchor_update_nr: 4, is_deposit: true })
    );
    assert_eq!(fraud_type_name(&nullifier), "NullifierDoubleSpend");
    assert_eq!(fraud_type_name(&transaction), "InvalidTransactionProof");
}

#[test]
fn fields_that_hold_anchors() {
    assert_eq!(transaction_anchor_index(&header(1, 6, 2), 1, true), Ok(7));
    assert_eq!(transaction_anchor_index(&header(1, 6, 2), 1, false), Ok(8 + 15 + 14));
    assert_eq!(earlier_anchor_index(&header(1, 6, 0)), Ok(7));
    assert_eq!(earlier_anchor_index(&header(1, 0, 2)), Ok(29));
    // One deposit group of four fields, then transactions of fifteen.
    assert_eq!(earlier_anchor_index(&header(1, 3, 1)), Ok(18));
    assert_eq!(earlier_anchor_index(&header(1, 4, 2)), Ok(8 + 15 + 14));
    assert_eq!(earlier_anchor_index(&header(1, 0, 0)), Ok(3));
    let mut data = header(1, 0, 0);
    data.num_transactions = wide();
    assert_eq!(earlier_anchor_index(&data), Err(RunnerError::TransactionCountTooLarge));
    data.num_deposits = wide();
    assert_eq!(earlier_anchor_index(&data), Err(RunnerError::DepositCountTooLarge));
    assert_eq!(transaction_anchor_index(&data, 0, true), Err(RunnerError::DepositCountTooLarge));
    assert_eq!(starting_anchor(PriorAnchor::Genesis, leaf(1), leaf(2)), leaf(2));
    assert_eq!(starting_anchor(PriorAnchor::EarlierBlock { block_nr: 1 }, leaf(1), leaf(2)), leaf(1));
}

#[test]
fn a_proof_has_to_lead_to_the_expected_anchor() {
    let builder = ChallengeBuilder::new().unwrap();
    let zero = U256::zero();
    let proof = Proof { p_a: [zero; 2], p_b: [[zero; 2]; 2], p_c: [zero; 2] };
    let fraud = wrong_update(header(0, 3, 0), 0, false, None, None);
    let data = vec![deposit_blob([leaf(1), leaf(2), leaf(3)], leaf(9))];
    let blobs = attach_hashes(&data, &[leaf(0x55), leaf(0x56)]);
    assert_eq!(blobs.len(), 1);
    let finish = |fraud: &FraudEvidence, true_anchor: B256| {
        finish_tree_update(
            &builder,
            fraud,
            &blobs,
            true,
            leaf(7),
            &[],
            0,
            true_anchor,
            proof,
            default_block_data(),
        )
    };
    assert_eq!(finish(&fraud, leaf(6)).err(), Some(RunnerError::AnchorMismatch));
    assert!(finish(&fraud, leaf(8)).is_ok());
    let other = FraudEvidence::DepositWrongLeaf {
        block_data: header(1, 3, 0),
        deposit_nr: 0,
        expected_leaf: leaf(1),
        submitted_leaf: leaf(2),
    };
    assert_eq!(
        finish(&other, leaf(8)).err(),
        Some(RunnerError::Challenge(ChallengeError::ExpectedTreeUpdateEvidence))
    );
}

#[test]
fn an_open_block_says_what_is_to_be_kept_and_asked_for() {
    let mut r = runner(&[]);
    let mut blob = deposit_blob([leaf(1), leaf(2), leaf(3)], leaf(4));
    // The nullifiers of two transactions, the first of which starts at field four.
    for (field, n) in [(13, 5), (14, 6), (28, 6), (29, 7)] {
        blob[32 * field + 31] = n;
    }
    let open = r.open_block(1, &header(1, 3, 2), &[blob]).unwrap();
    assert_eq!(open.anchors.len(), 3);
    assert_eq!(open.nullifiers, vec![leaf(5), leaf(6), leaf(7)]);
    assert_eq!(
        r.open_block(1, &header(1, 3, 0), &[]).err(),
        Some(RunnerError::Blob(BlobError::TooFewFields))
    );
}

#[test]
fn a_block_without_room_is_not_closed() {
    let mut r = runner(&[]);
    let before = r.current_anchor();
    let leaves = [leaf(1), leaf(2), leaf(3)];
    let mut data = header(1, 3, 0);
    data.block_index = TimestampAndIndex { day: 40000, index: 0 };
    let open = r.open_block(1, &data, &[deposit_blob(leaves, leaf(4))]).unwrap();
    let checks = r.check_block(&data, 1, &open.block, &leaves, &[], &[]);
    assert_eq!(
        r.close_block(&data, 1, 77, &open.block, checks, &[]).err(),
        Some(RunnerError::TreeIndexOutOfRange)
    );
    assert_eq!(r.current_anchor(), before);
}

#[test]
fn a_block_is_checked_again_against_what_was_before_it() {
    let roots = [(7, 3, leaf(1)), (8, 4, leaf(2)), (6, 2, leaf(3)), (9, 5, leaf(4))];
    assert_eq!(roots_before_block(&roots, 4), vec![(7, leaf(1)), (6, leaf(3))]);
    let anchors = [(3, 0, true, leaf(1)), (4, 0, false, leaf(2))];
    assert_eq!(anchors_before_block(&anchors, 4), vec![(3, 0, true, leaf(1))]);
    let record = |block_nr: u64| NullifierRecord { block_nr, tx_index: 0, which: 0 };
    let records = [(leaf(1), record(4)), (leaf(2), record(3)), (leaf(3), record(9))];
    assert_eq!(records_before_block(&records, 4), vec![(leaf(2), record(3))]);
}

#[test]
fn evidence_is_found_again_by_its_kind() {
    let leaves = [leaf(1), leaf(2), leaf(3)];
    let mut r = runner(&[]);
    let outcome = process(&mut r, header(1, 3, 0), deposit_blob(leaves, leaf(9)), &[leaf(7), leaf(2), leaf(8)]);
    assert_eq!(frauds_of_type(&outcome.fraud, "DepositWrongLeaf"), vec![0, 1]);
    assert_eq!(frauds_of_type(&outcome.fraud, "IncorrectTreeUpdate"), vec![2, 3]);
    assert!(frauds_of_type(&outcome.fraud, "NullifierDoubleSpend").is_empty());
}

#[test]
fn a_block_without_blobs_is_passed_over() {
    let r = runner(&[]);
    let mut data = header(1, 3, 0);
    assert!(r.skips_block(&event(data.clone(), U256::from_u64(1))));
    data.blobhashes.push(leaf(1));
    assert!(!r.skips_block(&event(data, U256::from_u64(1))));
}

/// The actions of a retry, the evidence at each place being submitted as `outcomes` says.
fn retry_with(places: Vec<usize>, outcomes: &[bool]) -> Vec<RetryAction> {
    let mut retry = Retry::new(places);
    let mut actions = vec![];
    loop {
        let action = retry.next_action();
        actions.push(action);
        match action {
            RetryAction::Submit { .. } => retry.report(outcomes[actions.len() - 1]),
            RetryAction::Delete | RetryAction::CountTry => return actions,
        }
    }
}

#[test]
fn a_retry_ends_with_the_first_success() {
    let submit = |place: usize| RetryAction::Submit { place };
    assert_eq!(
        retry_with(vec![2, 5, 6], &[false, true, true]),
        vec![submit(2), submit(5), RetryAction::Delete]
    );
    assert_eq!(
        retry_with(vec![2, 5], &[false, false]),
        vec![submit(2), submit(5), RetryAction::CountTry]
    );
    assert_eq!(retry_with(vec![], &[]), vec![RetryAction::CountTry]);
}
