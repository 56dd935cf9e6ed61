use pgp_challenger::challenge::{ChallengeBuilder, ChallengeError};
use pgp_challenger::groth16::{G1Point, G2Point, Groth16Verifier, VerifyingKey};
use pgp_challenger::runner::submission::{Challenge, Role, SubmissionStep};
use pgp_challenger::runner::{ChallengerRunner, RunnerError};
use pgp_challenger::types::{Address, BlockData, Proof, TimestampAndIndex, B256, U256};
use pgp_challenger::validators::{BlockTreeTracker, FraudEvidence};

fn header(block_nr: u64, num_deposits: u64, num_transactions: u64, hashes: usize) -> BlockData {
    BlockData {
        anchor: B256::zero(),
        timestamp: U256::zero(),
        num_transactions: U256::from_u64(num_transactions),
        num_deposits: U256::from_u64(num_deposits),
        block_nr: U256::from_u64(block_nr),
        block_index: TimestampAndIndex { day: 0, index: block_nr as u128 },
        sequencer: Address::repeat_byte(block_nr as u8),
        blobhashes: vec![B256::repeat_byte(block_nr as u8); hashes],
    }
}

fn runner(dry_run: bool) -> ChallengerRunner {
    let key = || VerifyingKey {
        alpha_g1: G1Point::Infinity,
        beta_g2: G2Point::Infinity,
        gamma_g2: G2Point::Infinity,
        delta_g2: G2Point::Infinity,
        gamma_abc_g1: vec![G1Point::Infinity; 8],
    };
    let verifier = Groth16Verifier { transfer_vk: key(), update_vk: key() };
    ChallengerRunner::new(verifier, &[], &[], None, leaf(0x63), 3, dry_run)
}

fn leaf(n: u8) -> B256 {
    let mut w = [0u8; 32];
    w[31] = n;
    B256(w)
}

/// A blob whose fields are numbered.
fn blob() -> Vec<u8> {
    let mut bytes = vec![0u8; 131072];
    for i in 0..100usize {
        bytes[32 * i + 31] = i as u8;
    }
    bytes
}

fn some_proof() -> Proof {
    let one = U256::from_u64(1);
    Proof { p_a: [one; 2], p_b: [[one; 2]; 2], p_c: [one; 2] }
}

/// Answers every step: the header of block `n` says six deposits, two transactions and one
/// blob, all of them with numbered fields. Returns the steps and what was built.
fn run(fraud: FraudEvidence, block_nr: u64) -> (Vec<SubmissionStep>, Result<Challenge, RunnerError>) {
    let builder = ChallengeBuilder::new().unwrap();
    let mut submission = runner(false).begin_submission(fraud, block_nr, 700).unwrap();
    let mut steps = vec![];
    loop {
        let step = submission.next_step();
        steps.push(step);
        match step {
            SubmissionStep::LoadHeader { role, block_nr } => {
                submission.take_header(role, Some((header(block_nr, 6, 2, 1), 100 + block_nr)));
            }
            SubmissionStep::FetchBlobs { role } => {
                let (_, hashes) = submission.blob_request(role);
                assert_eq!(hashes.len(), 1);
                submission.take_blobs(role, vec![blob()]);
            }
            SubmissionStep::LoadAnchor { .. } => submission.take_anchor(Some(leaf(0x40))),
            SubmissionStep::Prove { .. } => submission.take_proof(leaf(8), some_proof()),
            SubmissionStep::Build => return (steps, submission.build(&builder)),
            SubmissionStep::Fail { error } => return (steps, Err(error)),
        }
    }
}

fn wrong_leaf(block_nr: u64) -> FraudEvidence {
    FraudEvidence::DepositWrongLeaf {
        block_data: header(block_nr, 6, 2, 1),
        deposit_nr: 3,
        expected_leaf: leaf(1),
        submitted_leaf: leaf(4),
    }
}

fn double_spend(first_block_nr: u64, second_block_nr: u64) -> FraudEvidence {
    FraudEvidence::NullifierDoubleSpend {
        first_block_nr,
        second_block_nr,
        first_tx_number: 0,
        second_tx_number: 1,
        first_which: 0,
        second_which: 1,
        nullifier: leaf(5),
    }
}

fn wrong_update(
    block_nr: u64,
    update_nr: u64,
    prior_anchor_block_nr: Option<u64>,
    prior_update_nr: Option<u64>,
) -> FraudEvidence {
    let leaves = [leaf(1), leaf(2), leaf(3)];
    FraudEvidence::IncorrectTreeUpdate {
        block_data: header(block_nr, 6, 2, 1),
        update_nr,
        is_tx: false,
        expected_anchor: leaf(8),
        submitted_anchor: leaf(9),
        prior_anchor: leaf(7),
        leaves,
        prior_anchor_block_nr,
        prior_update_nr,
        merkle_data: Some(BlockTreeTracker::new(0, &[]).get_merkle_data_before_update(0, leaves)),
    }
}

fn load(role: Role, block_nr: u64) -> SubmissionStep {
    SubmissionStep::LoadHeader { role, block_nr }
}

fn fetch(role: Role) -> SubmissionStep {
    SubmissionStep::FetchBlobs { role }
}

#[test]
fn a_deposit_challenge_takes_the_block_and_the_one_before() {
    let (steps, built) = run(wrong_leaf(5), 5);
    assert_eq!(
        steps,
        vec![load(Role::Challenged, 5), load(Role::Target, 4), fetch(Role::Challenged), SubmissionStep::Build]
    );
    match built.unwrap() {
        Challenge::Deposit { params } => {
            assert_eq!(params.sequencer_submitted_leaf, leaf(4).0);
            assert_eq!(params.prior_block.sequencer, Address::repeat_byte(4));
        }
        _ => panic!("Expected a deposit challenge"),
    }
}

#[test]
fn every_block_but_that_of_number_zero_is_rolled_back_to_the_one_before() {
    let (steps, built) = run(wrong_leaf(1), 1);
    assert_eq!(
        steps,
        vec![load(Role::Challenged, 1), load(Role::Target, 0), fetch(Role::Challenged), SubmissionStep::Build]
    );
    match built.unwrap() {
        Challenge::Deposit { params } => {
            assert_eq!(params.prior_block.block_nr, U256::zero());
            assert_eq!(params.prior_block.num_deposits, U256::from_u64(6));
        }
        _ => panic!("Expected a deposit challenge"),
    }
    let (steps, built) = run(wrong_leaf(0), 0);
    assert_eq!(steps, vec![load(Role::Challenged, 0), fetch(Role::Challenged), SubmissionStep::Build]);
    match built.unwrap() {
        Challenge::Deposit { params } => assert_eq!(params.prior_block.num_deposits, U256::zero()),
        _ => panic!("Expected a deposit challenge"),
    }
}

#[test]
fn a_nullifier_challenge_takes_two_blocks() {
    let (steps, built) = run(double_spend(3, 5), 5);
    assert_eq!(
        steps[3..],
        [load(Role::First, 3), load(Role::Second, 5), fetch(Role::First), fetch(Role::Second), SubmissionStep::Build]
    );
    assert!(matches!(built, Ok(Challenge::Nullifier { .. })));
    // The blobs of one block are fetched once.
    let (steps, built) = run(double_spend(5, 5), 5);
    assert_eq!(
        steps[3..],
        [load(Role::First, 5), load(Role::Second, 5), fetch(Role::First), SubmissionStep::Build]
    );
    match built.unwrap() {
        Challenge::Nullifier { params } => {
            assert_eq!(params.second_commitment, params.first_commitment);
            assert_ne!(params.second_proof, params.first_proof);
        }
        _ => panic!("Expected a nullifier challenge"),
    }
}

#[test]
fn a_transaction_challenge_takes_the_anchor() {
    let fraud = FraudEvidence::InvalidTransactionProof {
        block_data: header(5, 6, 2, 1),
        tx_nr: 1,
        anchor_block_nr: 2,
        anchor_update_nr: 1,
        is_deposit: true,
    };
    let (steps, built) = run(fraud, 5);
    assert_eq!(
        steps[3..],
        [
            load(Role::Prior, 2),
            SubmissionStep::LoadAnchor { block_nr: 2, update_nr: 1, is_deposit: true },
            fetch(Role::Prior),
            SubmissionStep::Build,
        ]
    );
    match built.unwrap() {
        Challenge::Transaction { params } => {
            assert_eq!(params.anchor, leaf(0x40));
            assert_eq!(params.region.data[0], leaf(8 + 15));
        }
        _ => panic!("Expected a transaction challenge"),
    }
}

#[test]
fn a_tree_update_challenge_takes_a_proof() {
    let (steps, built) = run(wrong_update(5, 1, None, Some(0)), 5);
    assert_eq!(steps[3..], [SubmissionStep::Prove { start: leaf(7) }, SubmissionStep::Build]);
    match built.unwrap() {
        Challenge::TreeUpdate { params } => {
            assert_eq!(params.region.data, vec![leaf(4), leaf(5), leaf(6), leaf(7)]);
            assert_eq!(params.zk_proof.p_a[0], U256::from_u64(1));
        }
        _ => panic!("Expected a challenge of a tree update"),
    }
    let (steps, built) = run(wrong_update(5, 0, Some(4), None), 5);
    assert_eq!(
        steps[3..],
        [
            load(Role::Prior, 4),
            fetch(Role::Prior),
            SubmissionStep::Prove { start: leaf(7) },
            SubmissionStep::Build,
        ]
    );
    assert!(built.is_ok());
    // Without an earlier block the proof starts from the anchor before the first.
    let (steps, built) = run(wrong_update(0, 0, None, None), 0);
    assert_eq!(steps[2..], [SubmissionStep::Prove { start: leaf(0x63) }, SubmissionStep::Build]);
    match built.unwrap() {
        Challenge::TreeUpdate { params } => assert_eq!(params.prior_anchor, leaf(0x63)),
        _ => panic!("Expected a challenge of a tree update"),
    }
    let (_, built) = run(wrong_update(5, 0, None, None), 5);
    assert_eq!(built.err(), Some(RunnerError::Challenge(ChallengeError::NotGenesisBlock)));
}

#[test]
fn what_is_missing_ends_the_submission() {
    let mut s = runner(false).begin_submission(wrong_leaf(5), 5, 700).unwrap();
    s.take_header(Role::Challenged, None);
    assert_eq!(s.next_step(), SubmissionStep::Fail { error: RunnerError::BlockMissing { block_nr: 5 } });

    let mut s = runner(false).begin_submission(wrong_leaf(5), 5, 700).unwrap();
    s.take_header(Role::Challenged, Some((header(5, 6, 2, 0), 700)));
    s.take_header(Role::Target, None);
    assert_eq!(s.next_step(), SubmissionStep::Fail { error: RunnerError::NoBlobHashes { block_nr: 5 } });

    let fraud = FraudEvidence::InvalidAnchorReference {
        block_data: header(5, 6, 2, 1),
        tx_nr: 1,
        anchor_block_nr: 2,
        anchor_update_nr: 1,
        is_deposit: true,
    };
    let mut s = runner(false).begin_submission(fraud, 5, 700).unwrap();
    s.take_header(Role::Challenged, Some((header(5, 6, 2, 1), 44)));
    s.take_header(Role::Target, None);
    // The blobs of the challenged block are where the evidence says.
    assert_eq!(s.blob_request(Role::Challenged), (700, vec![B256::repeat_byte(5)]));
    s.take_blobs(Role::Challenged, vec![blob()]);
    s.take_header(Role::Prior, Some((header(2, 6, 2, 1), 44)));
    assert_eq!(s.blob_request(Role::Prior).0, 44);
    s.take_anchor(None);
    assert_eq!(
        s.next_step(),
        SubmissionStep::Fail {
            error: RunnerError::AnchorMissing { block_nr: 2, update_nr: 1, is_deposit: true }
        }
    );
}

#[test]
fn a_plan_that_fails_ends_the_submission() {
    // Evidence that names an update as coming before itself, which no check makes.
    let (_, built) = run(wrong_update(5, 1, None, Some(1)), 5);
    assert_eq!(built.err(), Some(RunnerError::PriorUpdateNotBefore { prior: 1, update: 1 }));
}

#[test]
fn nothing_is_begun_in_a_dry_run() {
    let dry = runner(true);
    assert_eq!(dry.begin_submission(wrong_leaf(5), 5, 700).err(), Some(RunnerError::DryRun));
    assert_eq!(dry.begin_submission(double_spend(3, 5), 5, 700).err(), Some(RunnerError::DryRun));
    let fraud = wrong_update(0, 0, None, None);
    assert_eq!(dry.begin_submission(fraud, 0, 700).err(), Some(RunnerError::DryRun));
    assert!(runner(false).begin_submission(wrong_leaf(5), 5, 700).is_ok());
}
