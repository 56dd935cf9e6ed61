//! What a challenge consists of, and which challenge follows from which evidence.

use crate::challenge::memory::{
    deposit_groups, deposit_leaf_address, nullifier_address, tx_address,
};
use crate::kzg::{
    blob_commitment, evaluation_point, field_bytes, field_proof, kzg_opening, FieldProofView, KzgError,
};
use crate::types::{be_bytes, zero_word, BlockData, BlockView, Proof, B256, U256};
use crate::validators::EvidenceView;
use vstd::prelude::*;

verus! {

/// Why no challenge was built.
#[derive(Clone, Copy, Debug, PartialEq, Eq, Structural)]
pub enum ChallengeError {
    NoBlobs,
    NoBlobsForDeposit,
    NoBlobsForFirstBlock,
    NoBlobsForSecondBlock,
    NoBlobsForCurrentBlock,
    NoBlobsForPriorAnchorBlock,
    /// An address lies in a blob that was not given.
    BlobMissing { blob: usize, provided: usize },
    /// A region runs on into a blob that was not given.
    SecondBlobMissing { start: usize, length: usize },
    /// A deposit group has no such slot.
    InvalidSlotIndex { slot: u64 },
    DepositNumberOverflow,
    ExpectedDepositEvidence,
    ExpectedNullifierEvidence,
    ExpectedTransactionEvidence,
    ExpectedTreeUpdateEvidence,
    /// A number in a block header is larger than 64 bits.
    ValueTooLarge,
    NotGenesisBlock,
    NotFirstUpdate,
    /// A KZG proof could not be made.
    Kzg(KzgError),
}

impl ChallengeError {
    /// What an error says.
    pub open spec fn text(self) -> &'static str {
        match self {
            ChallengeError::NoBlobs => "No blobs provided",
            ChallengeError::NoBlobsForDeposit => "No blobs provided for deposit challenge",
            ChallengeError::NoBlobsForFirstBlock => "No blobs provided for first block",
            ChallengeError::NoBlobsForSecondBlock => "No blobs provided for second block",
            ChallengeError::NoBlobsForCurrentBlock => "No blobs provided for current block",
            ChallengeError::NoBlobsForPriorAnchorBlock => "No blobs provided for prior anchor block",
            ChallengeError::BlobMissing { .. } => "Address lies in a blob that is not provided",
            ChallengeError::SecondBlobMissing { .. } =>
                "Region crosses blob boundary but second blob not provided",
            ChallengeError::InvalidSlotIndex { .. } =>
                "Invalid slot_index in DepositPaddingNotZero (must be 0, 1, or 2)",
            ChallengeError::DepositNumberOverflow => "Deposit number overflow",
            ChallengeError::ExpectedDepositEvidence => "Expected deposit-related fraud evidence",
            ChallengeError::ExpectedNullifierEvidence =>
                "Expected NullifierDoubleSpend fraud evidence",
            ChallengeError::ExpectedTransactionEvidence =>
                "Expected transaction-related fraud evidence",
            ChallengeError::ExpectedTreeUpdateEvidence =>
                "Expected IncorrectTreeUpdate fraud evidence",
            ChallengeError::ValueTooLarge =>
                "value exceeds u64::MAX - data is corrupted or malicious",
            ChallengeError::NotGenesisBlock => "Genesis challenge only valid for block 0",
            ChallengeError::NotFirstUpdate =>
                "Genesis challenge only valid for first update (update_nr=0)",
            ChallengeError::Kzg(e) => e.text(),
        }
    }

    /// What the error says.
    pub fn message(&self) -> (r: &'static str)
        ensures
            r@ == self.text()@,
    {
        match self {
            ChallengeError::NoBlobs => "No blobs provided",
            ChallengeError::NoBlobsForDeposit => "No blobs provided for deposit challenge",
            ChallengeError::NoBlobsForFirstBlock => "No blobs provided for first block",
            ChallengeError::NoBlobsForSecondBlock => "No blobs provided for second block",
            ChallengeError::NoBlobsForCurrentBlock => "No blobs provided for current block",
            ChallengeError::NoBlobsForPriorAnchorBlock => "No blobs provided for prior anchor block",
            ChallengeError::BlobMissing { .. } => "Address lies in a blob that is not provided",
            ChallengeError::SecondBlobMissing { .. } =>
                "Region crosses blob boundary but second blob not provided",
            ChallengeError::InvalidSlotIndex { .. } =>
                "Invalid slot_index in DepositPaddingNotZero (must be 0, 1, or 2)",
            ChallengeError::DepositNumberOverflow => "Deposit number overflow",
            ChallengeError::ExpectedDepositEvidence => "Expected deposit-related fraud evidence",
            ChallengeError::ExpectedNullifierEvidence =>
                "Expected NullifierDoubleSpend fraud evidence",
            ChallengeError::ExpectedTransactionEvidence =>
                "Expected transaction-related fraud evidence",
            ChallengeError::ExpectedTreeUpdateEvidence =>
                "Expected IncorrectTreeUpdate fraud evidence",
            ChallengeError::ValueTooLarge =>
                "value exceeds u64::MAX - data is corrupted or malicious",
            ChallengeError::NotGenesisBlock => "Genesis challenge only valid for block 0",
            ChallengeError::NotFirstUpdate =>
                "Genesis challenge only valid for first update (update_nr=0)",
            ChallengeError::Kzg(e) => e.message(),
        }
    }
}

/// A blob and its versioned hash.
#[derive(Clone, Copy, Debug)]
pub struct BlobWithHash<'a> {
    /// The bytes of the blob.
    pub data: &'a [u8],
    /// The versioned hash of the blob.
    pub hash: B256,
}

/// A run of blob fields, each with its KZG proof.
#[derive(Debug)]
pub struct Region {
    /// Number of fields.
    pub length: U256,
    /// Index, in the blob, of the first.
    pub memory_address: U256,
    pub data: Vec<B256>,
    pub proofs: Vec<Vec<u8>>,
    pub commitment: Vec<u8>,
    /// Versioned hash of the blob.
    pub hash: B256,
}

/// What a region says.
#[verifier::ext_equal]
pub struct RegionView {
    pub length: nat,
    pub memory_address: nat,
    pub data: Seq<Seq<u8>>,
    pub proofs: Seq<Seq<u8>>,
    pub commitment: Seq<u8>,
    pub hash: B256,
}

impl View for Region {
    type V = RegionView;

    open spec fn view(&self) -> RegionView {
        RegionView {
            length: self.length@,
            memory_address: self.memory_address@,
            data: Seq::new(self.data@.len(), |i: int| self.data@[i]@),
            proofs: Seq::new(self.proofs@.len(), |i: int| self.proofs@[i]@),
            commitment: self.commitment@,
            hash: self.hash,
        }
    }
}

/// The region without fields.
pub open spec fn no_region() -> RegionView {
    RegionView {
        length: 0,
        memory_address: 0,
        data: Seq::empty(),
        proofs: Seq::empty(),
        commitment: Seq::empty(),
        hash: zero_word(),
    }
}

/// A region, and what of it lies in the next blob.
#[derive(Debug)]
pub struct RegionPair {
    pub region: Region,
    pub extension: Region,
}

/// What a KZG result is to a challenge.
pub open spec fn lift<T>(r: Result<T, KzgError>) -> Result<T, ChallengeError> {
    match r {
        Ok(v) => Ok(v),
        Err(e) => Err(ChallengeError::Kzg(e)),
    }
}

/// The KZG proof of the field at a global address, and the hash of its blob.
pub open spec fn proof_at(blobs: Seq<BlobWithHash>, address: nat) -> Result<
    (FieldProofView, B256),
    ChallengeError,
> {
    let blob = (address / 4096) as int;
    if blob >= blobs.len() {
        Err(ChallengeError::BlobMissing { blob: blob as usize, provided: blobs.len() as usize })
    } else {
        match field_proof(blobs[blob].data@, address % 4096) {
            Ok(p) => Ok((p, blobs[blob].hash)),
            Err(e) => Err(ChallengeError::Kzg(e)),
        }
    }
}

/// The region of `length` fields of a blob from `start` on.
pub open spec fn region_of(blob: Seq<u8>, start: nat, length: nat, hash: B256) -> Result<
    RegionView,
    ChallengeError,
> {
    match blob_commitment(blob) {
        Err(e) => Err(ChallengeError::Kzg(e)),
        Ok(commitment) => if length > 0 && start + length > 4096 {
            Err(
                ChallengeError::Kzg(
                    KzgError::FieldIndexOutOfRange {
                        index: (if start >= 4096 {
                            start
                        } else {
                            4096
                        }) as usize,
                    },
                ),
            )
        } else {
            Ok(
                RegionView {
                    length,
                    memory_address: start,
                    data: Seq::new(length, |i: int| field_bytes(blob, start + i)),
                    proofs: Seq::new(length, |i: int| field_opening(blob, (start + i) as nat)),
                    commitment,
                    hash,
                },
            )
        },
    }
}

/// The KZG proof of a field.
pub open spec fn field_opening(blob: Seq<u8>, index: nat) -> Seq<u8> {
    kzg_opening(blob, be_bytes(evaluation_point(index), 32)).0
}

/// The region of `length` fields of a block from `start` on, split where it runs on
/// into the next blob.
pub open spec fn region_pair_of(blobs: Seq<BlobWithHash>, start: nat, length: nat) -> Result<
    (RegionView, RegionView),
    ChallengeError,
> {
    let blob = (start / 4096) as int;
    let local = start % 4096;
    if blobs.len() == 0 {
        Err(ChallengeError::NoBlobs)
    } else if blob >= blobs.len() {
        Err(ChallengeError::BlobMissing { blob: blob as usize, provided: blobs.len() as usize })
    } else if local + length <= 4096 {
        match region_of(blobs[blob].data@, local, length, blobs[blob].hash) {
            Ok(region) => Ok((region, no_region())),
            Err(e) => Err(e),
        }
    } else if blob + 1 >= blobs.len() {
        Err(ChallengeError::SecondBlobMissing { start: start as usize, length: length as usize })
    } else {
        let first = (4096 - local) as nat;
        match region_of(blobs[blob].data@, local, first, blobs[blob].hash) {
            Err(e) => Err(e),
            Ok(region) => match region_of(
                blobs[blob + 1].data@,
                0,
                (length - first) as nat,
                blobs[blob + 1].hash,
            ) {
                Err(e) => Err(e),
                Ok(extension) => Ok((region, extension)),
            },
        }
    }
}

/// A challenge of a wrong deposit leaf.
#[derive(Debug)]
pub struct DepositChallengeParams {
    pub block_data: BlockData,
    pub deposit_nr: u64,
    /// The leaf, as it stands in the blob.
    pub sequencer_submitted_leaf: [u8; 32],
    pub commitment: Vec<u8>,
    pub proof: Vec<u8>,
    /// Block to roll back to.
    pub prior_block: BlockData,
}

/// A challenge of a nullifier that is used twice.
#[derive(Debug)]
pub struct NullifierChallengeParams {
    pub reused_nullifier: B256,
    pub first_block_data: BlockData,
    pub second_block_data: BlockData,
    pub first_tx_number: u64,
    pub second_tx_number: u64,
    pub first_which: u8,
    pub second_which: u8,
    pub first_commitment: Vec<u8>,
    pub first_proof: Vec<u8>,
    pub second_commitment: Vec<u8>,
    pub second_proof: Vec<u8>,
    /// Block to roll back to.
    pub prior_block: BlockData,
}

/// A challenge of a transaction.
#[derive(Debug)]
pub struct TransactionChallengeParams {
    pub block_data: BlockData,
    pub tx_nr: u64,
    /// The fields of the transaction, but for its root.
    pub region: Region,
    pub extension_region: Region,
    /// The anchor that the transaction refers to.
    pub anchor: B256,
    pub prior_anchor_block: BlockData,
    pub prior_anchor_commitment: Vec<u8>,
    pub prior_anchor_proof: Vec<u8>,
    pub rollback_target_block: BlockData,
}

/// A challenge of a tree update.
#[derive(Debug)]
pub struct TreeUpdateChallengeParams {
    pub block_data: BlockData,
    pub update_nr: u64,
    pub is_tx: bool,
    /// The three leaves and the root.
    pub region: Region,
    pub extension_region: Region,
    pub prior_anchor: B256,
    pub prior_anchor_commitment: Vec<u8>,
    pub prior_anchor_proof: Vec<u8>,
    /// The anchor that the update leads to.
    pub true_anchor: B256,
    pub zk_proof: Proof,
    pub rollback_target_block: BlockData,
}

/// What a deposit challenge says.
#[verifier::ext_equal]
pub struct DepositChallenge {
    pub block: BlockView,
    pub deposit_nr: u64,
    pub leaf: Seq<u8>,
    pub commitment: Seq<u8>,
    pub proof: Seq<u8>,
    pub prior_block: BlockView,
}

impl View for DepositChallengeParams {
    type V = DepositChallenge;

    open spec fn view(&self) -> DepositChallenge {
        DepositChallenge {
            block: self.block_data@,
            deposit_nr: self.deposit_nr,
            leaf: self.sequencer_submitted_leaf@,
            commitment: self.commitment@,
            proof: self.proof@,
            prior_block: self.prior_block@,
        }
    }
}

/// What a nullifier challenge says.
#[verifier::ext_equal]
pub struct NullifierChallenge {
    pub nullifier: B256,
    pub first_block: BlockView,
    pub second_block: BlockView,
    pub first_tx_number: u64,
    pub second_tx_number: u64,
    pub first_which: u8,
    pub second_which: u8,
    pub first_commitment: Seq<u8>,
    pub first_proof: Seq<u8>,
    pub second_commitment: Seq<u8>,
    pub second_proof: Seq<u8>,
    pub prior_block: BlockView,
}

impl View for NullifierChallengeParams {
    type V = NullifierChallenge;

    open spec fn view(&self) -> NullifierChallenge {
        NullifierChallenge {
            nullifier: self.reused_nullifier,
            first_block: self.first_block_data@,
            second_block: self.second_block_data@,
            first_tx_number: self.first_tx_number,
            second_tx_number: self.second_tx_number,
            first_which: self.first_which,
            second_which: self.second_which,
            first_commitment: self.first_commitment@,
            first_proof: self.first_proof@,
            second_commitment: self.second_commitment@,
            second_proof: self.second_proof@,
            prior_block: self.prior_block@,
        }
    }
}

/// What a transaction challenge says.
#[verifier::ext_equal]
pub struct TransactionChallenge {
    pub block: BlockView,
    pub tx_nr: u64,
    pub region: RegionView,
    pub extension_region: RegionView,
    pub anchor: B256,
    pub prior_anchor_block: BlockView,
    pub prior_anchor_commitment: Seq<u8>,
    pub prior_anchor_proof: Seq<u8>,
    pub rollback_target_block: BlockView,
}

impl View for TransactionChallengeParams {
    type V = TransactionChallenge;

    open spec fn view(&self) -> TransactionChallenge {
        TransactionChallenge {
            block: self.block_data@,
            tx_nr: self.tx_nr,
            region: self.region@,
            extension_region: self.extension_region@,
            anchor: self.anchor,
            prior_anchor_block: self.prior_anchor_block@,
            prior_anchor_commitment: self.prior_anchor_commitment@,
            prior_anchor_proof: self.prior_anchor_proof@,
            rollback_target_block: self.rollback_target_block@,
        }
    }
}

/// What a tree update challenge says.
#[verifier::ext_equal]
pub struct TreeUpdateChallenge {
    pub block: BlockView,
    pub update_nr: u64,
    pub is_tx: bool,
    pub region: RegionView,
    pub extension_region: RegionView,
    pub prior_anchor: B256,
    pub prior_anchor_commitment: Seq<u8>,
    pub prior_anchor_proof: Seq<u8>,
    pub true_anchor: B256,
    pub zk_proof: Proof,
    pub rollback_target_block: BlockView,
}

impl View for TreeUpdateChallengeParams {
    type V = TreeUpdateChallenge;

    open spec fn view(&self) -> TreeUpdateChallenge {
        TreeUpdateChallenge {
            block: self.block_data@,
            update_nr: self.update_nr,
            is_tx: self.is_tx,
            region: self.region@,
            extension_region: self.extension_region@,
            prior_anchor: self.prior_anchor,
            prior_anchor_commitment: self.prior_anchor_commitment@,
            prior_anchor_proof: self.prior_anchor_proof@,
            true_anchor: self.true_anchor,
            zk_proof: self.zk_proof,
            rollback_target_block: self.rollback_target_block@,
        }
    }
}

/// A number of a block header, where it fits in 64 bits.
pub open spec fn header_number(value: U256) -> Result<nat, ChallengeError> {
    if value@ <= u64::MAX {
        Ok(value@)
    } else {
        Err(ChallengeError::ValueTooLarge)
    }
}

/// The block and the deposit that evidence against a deposit points at.
pub open spec fn challenged_deposit(evidence: EvidenceView) -> Result<
    (BlockView, u64),
    ChallengeError,
> {
    match evidence {
        EvidenceView::DepositWrongLeaf { block, deposit_nr, .. } => Ok((block, deposit_nr)),
        EvidenceView::DepositPaddingNotZero { block, group_index, slot_index, .. } =>
            if slot_index > 2 {
                Err(ChallengeError::InvalidSlotIndex { slot: slot_index })
            } else if group_index * 3 + slot_index > u64::MAX {
                Err(ChallengeError::DepositNumberOverflow)
            } else {
                Ok((block, (group_index * 3 + slot_index) as u64))
            },
        _ => Err(ChallengeError::ExpectedDepositEvidence),
    }
}

/// The challenge of a deposit.
pub open spec fn deposit_challenge(
    evidence: EvidenceView,
    blobs: Seq<BlobWithHash>,
    prior_block: BlockView,
) -> Result<DepositChallenge, ChallengeError> {
    if blobs.len() == 0 {
        Err(ChallengeError::NoBlobsForDeposit)
    } else {
        match challenged_deposit(evidence) {
            Err(e) => Err(e),
            Ok((block, deposit_nr)) => match proof_at(
                blobs,
                deposit_leaf_address(deposit_nr as nat),
            ) {
                Err(e) => Err(e),
                Ok((p, _)) => Ok(
                    DepositChallenge {
                        block,
                        deposit_nr,
                        leaf: p.value,
                        commitment: p.commitment,
                        proof: p.proof,
                        prior_block,
                    },
                ),
            },
        }
    }
}

/// The challenge of a nullifier that two transactions use.
pub open spec fn nullifier_challenge(
    evidence: EvidenceView,
    first_blobs: Seq<BlobWithHash>,
    second_blobs: Seq<BlobWithHash>,
    first_block: BlockView,
    second_block: BlockView,
    prior_block: BlockView,
) -> Result<NullifierChallenge, ChallengeError> {
    if first_blobs.len() == 0 {
        Err(ChallengeError::NoBlobsForFirstBlock)
    } else if second_blobs.len() == 0 {
        Err(ChallengeError::NoBlobsForSecondBlock)
    } else {
        match evidence {
            EvidenceView::NullifierDoubleSpend {
                first_tx_number,
                second_tx_number,
                first_which,
                second_which,
                nullifier,
                ..
            } => if first_block.num_deposits@ > u64::MAX || second_block.num_deposits@ > u64::MAX {
                Err(ChallengeError::ValueTooLarge)
            } else {
                match proof_at(
                    first_blobs,
                    nullifier_address(
                        first_tx_number as nat,
                        first_block.num_deposits@,
                        first_which as nat,
                    ),
                ) {
                    Err(e) => Err(e),
                    Ok((first, _)) => match proof_at(
                        second_blobs,
                        nullifier_address(
                            second_tx_number as nat,
                            second_block.num_deposits@,
                            second_which as nat,
                        ),
                    ) {
                        Err(e) => Err(e),
                        Ok((second, _)) => Ok(
                            NullifierChallenge {
                                nullifier,
                                first_block,
                                second_block,
                                first_tx_number: first_tx_number as u64,
                                second_tx_number: second_tx_number as u64,
                                first_which,
                                second_which,
                                first_commitment: first.commitment,
                                first_proof: first.proof,
                                second_commitment: second.commitment,
                                second_proof: second.proof,
                                prior_block,
                            },
                        ),
                    },
                }
            },
            _ => Err(ChallengeError::ExpectedNullifierEvidence),
        }
    }
}

/// The block and the transaction that evidence against a transaction points at.
pub open spec fn challenged_transaction(evidence: EvidenceView) -> Result<
    (BlockView, u64),
    ChallengeError,
> {
    match evidence {
        EvidenceView::InvalidTransactionProof { block, tx_nr, .. } => Ok((block, tx_nr)),
        EvidenceView::InvalidAnchorReference { block, tx_nr, .. } => Ok((block, tx_nr)),
        EvidenceView::MissingEthKeyAuth { block, tx_nr, .. } => Ok((block, tx_nr)),
        _ => Err(ChallengeError::ExpectedTransactionEvidence),
    }
}

/// The challenge of a transaction. Its root is no part of it.
pub open spec fn transaction_challenge(
    evidence: EvidenceView,
    blobs: Seq<BlobWithHash>,
    anchor: B256,
    prior_anchor_block: BlockView,
    prior_anchor_blobs: Seq<BlobWithHash>,
    prior_anchor_field_index: nat,
    rollback_target_block: BlockView,
) -> Result<TransactionChallenge, ChallengeError> {
    if blobs.len() == 0 {
        Err(ChallengeError::NoBlobsForCurrentBlock)
    } else if prior_anchor_blobs.len() == 0 {
        Err(ChallengeError::NoBlobsForPriorAnchorBlock)
    } else {
        match challenged_transaction(evidence) {
            Err(e) => Err(e),
            Ok((block, tx_nr)) => match header_number(block.num_deposits) {
                Err(e) => Err(e),
                Ok(num_deposits) => match region_pair_of(
                    blobs,
                    tx_address(tx_nr as nat, num_deposits),
                    14,
                ) {
                    Err(e) => Err(e),
                    Ok((region, extension_region)) => match proof_at(
                        prior_anchor_blobs,
                        prior_anchor_field_index,
                    ) {
                        Err(e) => Err(e),
                        Ok((p, _)) => Ok(
                            TransactionChallenge {
                                block,
                                tx_nr,
                                region,
                                extension_region,
                                anchor,
                                prior_anchor_block,
                                prior_anchor_commitment: p.commitment,
                                prior_anchor_proof: p.proof,
                                rollback_target_block,
                            },
                        ),
                    },
                },
            },
        }
    }
}

/// The block and the update that evidence against a tree update points at.
pub open spec fn challenged_update(evidence: EvidenceView) -> Result<
    (BlockView, u64, bool),
    ChallengeError,
> {
    match evidence {
        EvidenceView::IncorrectTreeUpdate { block, update_nr, is_tx, .. } => Ok(
            (block, update_nr, is_tx),
        ),
        _ => Err(ChallengeError::ExpectedTreeUpdateEvidence),
    }
}

/// Address of the three leaves and the root of an update. Updates are counted through
/// the block, transactions after deposit groups.
pub open spec fn update_address(update_nr: int, is_tx: bool, num_deposits: nat) -> int {
    if is_tx {
        deposit_groups(num_deposits) * 4 + (update_nr - deposit_groups(num_deposits)) * 15 + 11
    } else {
        update_nr * 4
    }
}

/// The challenge of a tree update whose prior anchor stands in a blob.
pub open spec fn tree_update_challenge(
    evidence: EvidenceView,
    blobs: Seq<BlobWithHash>,
    prior_anchor: B256,
    prior_anchor_blobs: Seq<BlobWithHash>,
    prior_anchor_field_index: nat,
    true_anchor: B256,
    zk_proof: Proof,
    rollback_target_block: BlockView,
) -> Result<TreeUpdateChallenge, ChallengeError> {
    if blobs.len() == 0 {
        Err(ChallengeError::NoBlobsForCurrentBlock)
    } else if prior_anchor_blobs.len() == 0 {
        Err(ChallengeError::NoBlobsForPriorAnchorBlock)
    } else {
        match challenged_update(evidence) {
            Err(e) => Err(e),
            Ok((block, update_nr, is_tx)) => match header_number(block.num_deposits) {
                Err(e) => Err(e),
                Ok(num_deposits) => match region_pair_of(
                    blobs,
                    update_address(update_nr as int, is_tx, num_deposits) as nat,
                    4,
                ) {
                    Err(e) => Err(e),
                    Ok((region, extension_region)) => match proof_at(
                        prior_anchor_blobs,
                        prior_anchor_field_index,
                    ) {
                        Err(e) => Err(e),
                        Ok((p, _)) => Ok(
                            TreeUpdateChallenge {
                                block,
                                update_nr,
                                is_tx,
                                region,
                                extension_region,
                                prior_anchor,
                                prior_anchor_commitment: p.commitment,
                                prior_anchor_proof: p.proof,
                                true_anchor,
                                zk_proof,
                                rollback_target_block,
                            },
                        ),
                    },
                },
            },
        }
    }
}

/// The challenge of the first update of the first block, whose prior anchor stands in
/// no blob.
pub open spec fn genesis_challenge(
    evidence: EvidenceView,
    blobs: Seq<BlobWithHash>,
    genesis_anchor: B256,
    true_anchor: B256,
    zk_proof: Proof,
    rollback_target_block: BlockView,
) -> Result<TreeUpdateChallenge, ChallengeError> {
    if blobs.len() == 0 {
        Err(ChallengeError::NoBlobsForCurrentBlock)
    } else {
        match challenged_update(evidence) {
            Err(e) => Err(e),
            Ok((block, update_nr, is_tx)) => if block.block_nr@ != 0 {
                Err(ChallengeError::NotGenesisBlock)
            } else if update_nr != 0 {
                Err(ChallengeError::NotFirstUpdate)
            } else {
                match header_number(block.num_deposits) {
                    Err(e) => Err(e),
                    Ok(num_deposits) => match region_pair_of(
                        blobs,
                        if is_tx {
                            tx_address(0, num_deposits) + 11
                        } else {
                            0
                        },
                        4,
                    ) {
                        Err(e) => Err(e),
                        Ok((region, extension_region)) => Ok(
                            TreeUpdateChallenge {
                                block,
                                update_nr,
                                is_tx,
                                region,
                                extension_region,
                                prior_anchor: genesis_anchor,
                                prior_anchor_commitment: Seq::empty(),
                                prior_anchor_proof: Seq::empty(),
                                true_anchor,
                                zk_proof,
                                rollback_target_block,
                            },
                        ),
                    },
                }
            },
        }
    }
}

/// The first of a list of hashes, zero where there is none.
pub open spec fn leading_hash(hashes: Seq<B256>) -> B256 {
    if hashes.len() > 0 {
        hashes[0]
    } else {
        zero_word()
    }
}

/// Whether the update that evidence points at exists in its block's numbering, and
/// can be addressed.
pub open spec fn update_in_reach(evidence: EvidenceView) -> bool {
    challenged_update(evidence) matches Ok((block, update_nr, is_tx)) ==> block.num_deposits@
        <= u64::MAX ==> {
        &&& is_tx ==> deposit_groups(block.num_deposits@) <= update_nr
        &&& update_address(update_nr as int, is_tx, block.num_deposits@) + 4 <= usize::MAX
    }
}

/// The challenge of a transaction, each block having one blob.
pub open spec fn single_blob_transaction_challenge(
    evidence: EvidenceView,
    blob_data: &[u8],
    anchor: B256,
    prior_anchor_block: BlockView,
    prior_anchor_blob_data: &[u8],
    prior_anchor_field_index: nat,
    rollback_target_block: BlockView,
) -> Result<TransactionChallenge, ChallengeError> {
    match challenged_transaction(evidence) {
        Err(e) => Err(e),
        Ok((block, _)) => transaction_challenge(
            evidence,
            seq![BlobWithHash { data: blob_data, hash: leading_hash(block.blobhashes) }],
            anchor,
            prior_anchor_block,
            seq![
                BlobWithHash {
                    data: prior_anchor_blob_data,
                    hash: leading_hash(prior_anchor_block.blobhashes),
                },
            ],
            prior_anchor_field_index,
            rollback_target_block,
        ),
    }
}

/// The challenge of a tree update, each block having one blob.
pub open spec fn single_blob_tree_update_challenge(
    evidence: EvidenceView,
    blob_data: &[u8],
    prior_anchor: B256,
    prior_anchor_blob_data: &[u8],
    prior_anchor_field_index: nat,
    true_anchor: B256,
    zk_proof: Proof,
    rollback_target_block: BlockView,
) -> Result<TreeUpdateChallenge, ChallengeError> {
    match challenged_update(evidence) {
        Err(e) => Err(e),
        Ok((block, _, _)) => tree_update_challenge(
            evidence,
            seq![BlobWithHash { data: blob_data, hash: leading_hash(block.blobhashes) }],
            prior_anchor,
            seq![BlobWithHash { data: prior_anchor_blob_data, hash: zero_word() }],
            prior_anchor_field_index,
            true_anchor,
            zk_proof,
            rollback_target_block,
        ),
    }
}

/// What a region says is what it holds, part by part, each field and each proof at its place.
pub proof fn law_region_says_what_it_holds(region: Region, i: int)
    ensures
        region@.length == region.length@,
        region@.memory_address == region.memory_address@,
        region@.data.len() == region.data@.len(),
        region@.proofs.len() == region.proofs@.len(),
        0 <= i < region.data@.len() ==> region@.data[i] == region.data@[i]@,
        0 <= i < region.proofs@.len() ==> region@.proofs[i] == region.proofs@[i]@,
        region@.commitment == region.commitment@,
        region@.hash == region.hash,
{
}

/// What a challenge says is what it holds, part by part.
pub proof fn law_challenge_says_what_it_holds(
    deposit: DepositChallengeParams,
    nullifier: NullifierChallengeParams,
    transaction: TransactionChallengeParams,
    update: TreeUpdateChallengeParams,
)
    ensures
        ({
            let said = deposit@;
            &&& said.block == deposit.block_data@
            &&& said.deposit_nr == deposit.deposit_nr
            &&& said.leaf == deposit.sequencer_submitted_leaf@
            &&& said.commitment == deposit.commitment@
            &&& said.proof == deposit.proof@
            &&& said.prior_block == deposit.prior_block@
        }),
        ({
            let said = nullifier@;
            &&& said.nullifier == nullifier.reused_nullifier
            &&& said.first_block == nullifier.first_block_data@
            &&& said.second_block == nullifier.second_block_data@
            &&& said.first_tx_number == nullifier.first_tx_number
            &&& said.second_tx_number == nullifier.second_tx_number
            &&& said.first_which == nullifier.first_which
            &&& said.second_which == nullifier.second_which
            &&& said.first_commitment == nullifier.first_commitment@
            &&& said.first_proof == nullifier.first_proof@
            &&& said.second_commitment == nullifier.second_commitment@
            &&& said.second_proof == nullifier.second_proof@
            &&& said.prior_block == nullifier.prior_block@
        }),
        ({
            let said = transaction@;
            &&& said.block == transaction.block_data@
            &&& said.tx_nr == transaction.tx_nr
            &&& said.region == transaction.region@
            &&& said.extension_region == transaction.extension_region@
            &&& said.anchor == transaction.anchor
            &&& said.prior_anchor_block == transaction.prior_anchor_block@
            &&& said.prior_anchor_commitment == transaction.prior_anchor_commitment@
            &&& said.prior_anchor_proof == transaction.prior_anchor_proof@
            &&& said.rollback_target_block == transaction.rollback_target_block@
        }),
        ({
            let said = update@;
            &&& said.block == update.block_data@
            &&& said.update_nr == update.update_nr
            &&& said.is_tx == update.is_tx
            &&& said.region == update.region@
            &&& said.extension_region == update.extension_region@
            &&& said.prior_anchor == update.prior_anchor
            &&& said.prior_anchor_commitment == update.prior_anchor_commitment@
            &&& said.prior_anchor_proof == update.prior_anchor_proof@
            &&& said.true_anchor == update.true_anchor
            &&& said.zk_proof == update.zk_proof
            &&& said.rollback_target_block == update.rollback_target_block@
        }),
{
}

} // verus!
