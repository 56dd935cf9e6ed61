//! The rules that a block has to keep, and the evidence that it broke one.

pub mod deposit;
pub mod fields;
pub mod nullifier;
pub mod transaction;
pub mod tree_update;

pub use deposit::DepositValidator;
pub use nullifier::NullifierValidator;
pub use transaction::{AnchorLookup, TransactionValidator};
pub use tree_update::block_tracker::BlockTreeTracker;
pub use tree_update::hierarchical::HierarchicalRootTracker;
pub use tree_update::root_tracker::{compute_anchor_from_path, RootTreeTracker};
pub use tree_update::{TreeUpdateValidator, BLOCKS_PER_DAY, BLOCK_IN_DAY_DEPTH, DAY_DEPTH};

use crate::types::{Address, BlockData, BlockView, B256};
use tree_update::block_tracker::proof_views;
use vstd::prelude::*;

verus! {

/// What a proof of one correct tree update is made from.
#[derive(Clone, Copy, Debug)]
pub struct TreeUpdateMerkleData {
    /// Root of the block tree before the update.
    pub block_root_before: B256,
    /// Position of the block in the root tree.
    pub block_index: u64,
    /// Index of the first of the three leaves in the block tree.
    pub in_block_index: usize,
    /// The last leaf before it that is not zero.
    pub nonzero_field: B256,
    /// Siblings, in the block tree, of the four positions that the update reads.
    pub block_proofs: [[B256; 16]; 4],
    /// Siblings of the block's position in the root tree.
    pub root_path: [B256; 28],
}

/// What the data of an update says.
#[verifier::ext_equal]
pub struct MerkleDataView {
    pub block_root_before: B256,
    pub block_index: u64,
    pub in_block_index: usize,
    pub nonzero_field: B256,
    pub block_proofs: Seq<Seq<B256>>,
    pub root_path: Seq<B256>,
}

impl View for TreeUpdateMerkleData {
    type V = MerkleDataView;

    open spec fn view(&self) -> MerkleDataView {
        MerkleDataView {
            block_root_before: self.block_root_before,
            block_index: self.block_index,
            in_block_index: self.in_block_index,
            nonzero_field: self.nonzero_field,
            block_proofs: proof_views(self.block_proofs),
            root_path: self.root_path@,
        }
    }
}

/// Evidence of fraud in a block.
#[derive(Debug)]
pub enum FraudEvidence {
    /// The blob holds another leaf than was deposited.
    DepositWrongLeaf {
        block_data: BlockData,
        deposit_nr: u64,
        expected_leaf: B256,
        submitted_leaf: B256,
    },
    /// A slot of the last deposit group that no deposit uses is not zero.
    DepositPaddingNotZero {
        block_data: BlockData,
        group_index: u64,
        slot_index: u64,
        submitted_value: B256,
    },
    /// A nullifier is used twice.
    NullifierDoubleSpend {
        first_block_nr: u64,
        second_block_nr: u64,
        first_tx_number: u32,
        second_tx_number: u32,
        first_which: u8,
        second_which: u8,
        nullifier: B256,
    },
    /// The proof of a transaction does not verify.
    InvalidTransactionProof {
        block_data: BlockData,
        tx_nr: u64,
        anchor_block_nr: u32,
        anchor_update_nr: u32,
        is_deposit: bool,
    },
    /// A transaction refers to an anchor that cannot exist.
    InvalidAnchorReference {
        block_data: BlockData,
        tx_nr: u64,
        anchor_block_nr: u32,
        anchor_update_nr: u32,
        is_deposit: bool,
    },
    /// The account named by a transaction has not authorised it.
    MissingEthKeyAuth {
        block_data: BlockData,
        tx_nr: u64,
        eth_key: Address,
        nullifiers: [B256; 2],
        leaves: [B256; 3],
        anchor_block_nr: u32,
        anchor_update_nr: u32,
        is_deposit: bool,
    },
    /// The root after an update is wrong.
    IncorrectTreeUpdate {
        block_data: BlockData,
        update_nr: u64,
        is_tx: bool,
        expected_anchor: B256,
        submitted_anchor: B256,
        /// Root before the update, as submitted.
        prior_anchor: B256,
        leaves: [B256; 3],
        /// Block that the prior anchor comes from, where it is an earlier one.
        prior_anchor_block_nr: Option<u64>,
        /// Update that the prior anchor comes from, where it is in the same block.
        prior_update_nr: Option<u64>,
        merkle_data: Option<TreeUpdateMerkleData>,
    },
}

/// What a piece of evidence says.
pub enum EvidenceView {
    DepositWrongLeaf {
        block: BlockView,
        deposit_nr: u64,
        expected_leaf: B256,
        submitted_leaf: B256,
    },
    DepositPaddingNotZero {
        block: BlockView,
        group_index: u64,
        slot_index: u64,
        submitted_value: B256,
    },
    NullifierDoubleSpend {
        first_block_nr: u64,
        second_block_nr: u64,
        first_tx_number: u32,
        second_tx_number: u32,
        first_which: u8,
        second_which: u8,
        nullifier: B256,
    },
    InvalidTransactionProof {
        block: BlockView,
        tx_nr: u64,
        anchor_block_nr: u32,
        anchor_update_nr: u32,
        is_deposit: bool,
    },
    InvalidAnchorReference {
        block: BlockView,
        tx_nr: u64,
        anchor_block_nr: u32,
        anchor_update_nr: u32,
        is_deposit: bool,
    },
    MissingEthKeyAuth {
        block: BlockView,
        tx_nr: u64,
        eth_key: Address,
        nullifiers: [B256; 2],
        leaves: [B256; 3],
        anchor_block_nr: u32,
        anchor_update_nr: u32,
        is_deposit: bool,
    },
    IncorrectTreeUpdate {
        block: BlockView,
        update_nr: u64,
        is_tx: bool,
        expected_anchor: B256,
        submitted_anchor: B256,
        prior_anchor: B256,
        leaves: [B256; 3],
        prior_anchor_block_nr: Option<u64>,
        prior_update_nr: Option<u64>,
        merkle_data: Option<MerkleDataView>,
    },
}

impl View for FraudEvidence {
    type V = EvidenceView;

    open spec fn view(&self) -> EvidenceView {
        match *self {
            FraudEvidence::DepositWrongLeaf {
                block_data,
                deposit_nr,
                expected_leaf,
                submitted_leaf,
            } => EvidenceView::DepositWrongLeaf {
                block: block_data@,
                deposit_nr,
                expected_leaf,
                submitted_leaf,
            },
            FraudEvidence::DepositPaddingNotZero {
                block_data,
                group_index,
                slot_index,
                submitted_value,
            } => EvidenceView::DepositPaddingNotZero {
                block: block_data@,
                group_index,
                slot_index,
                submitted_value,
            },
            FraudEvidence::NullifierDoubleSpend {
                first_block_nr,
                second_block_nr,
                first_tx_number,
                second_tx_number,
                first_which,
                second_which,
                nullifier,
            } => EvidenceView::NullifierDoubleSpend {
                first_block_nr,
                second_block_nr,
                first_tx_number,
                second_tx_number,
                first_which,
                second_which,
                nullifier,
            },
            FraudEvidence::InvalidTransactionProof {
                block_data,
                tx_nr,
                anchor_block_nr,
                anchor_update_nr,
                is_deposit,
            } => EvidenceView::InvalidTransactionProof {
                block: block_data@,
                tx_nr,
                anchor_block_nr,
                anchor_update_nr,
                is_deposit,
            },
            FraudEvidence::InvalidAnchorReference {
                block_data,
                tx_nr,
                anchor_block_nr,
                anchor_update_nr,
                is_deposit,
            } => EvidenceView::InvalidAnchorReference {
                block: block_data@,
                tx_nr,
                anchor_block_nr,
                anchor_update_nr,
                is_deposit,
            },
            FraudEvidence::MissingEthKeyAuth {
                block_data,
                tx_nr,
                eth_key,
                nullifiers,
                leaves,
                anchor_block_nr,
                anchor_update_nr,
                is_deposit,
            } => EvidenceView::MissingEthKeyAuth {
                block: block_data@,
                tx_nr,
                eth_key,
                nullifiers,
                leaves,
                anchor_block_nr,
                anchor_update_nr,
                is_deposit,
            },
            FraudEvidence::IncorrectTreeUpdate {
                block_data,
                update_nr,
                is_tx,
                expected_anchor,
                submitted_anchor,
                prior_anchor,
                leaves,
                prior_anchor_block_nr,
                prior_update_nr,
                merkle_data,
            } => EvidenceView::IncorrectTreeUpdate {
                block: block_data@,
                update_nr,
                is_tx,
                expected_anchor,
                submitted_anchor,
                prior_anchor,
                leaves,
                prior_anchor_block_nr,
                prior_update_nr,
                merkle_data: match merkle_data {
                    Some(data) => Some(data@),
                    None => None,
                },
            },
        }
    }
}

impl Clone for FraudEvidence {
    fn clone(&self) -> (r: Self)
        ensures
            r@ == self@,
    {
        match self {
            FraudEvidence::DepositWrongLeaf {
                block_data,
                deposit_nr,
                expected_leaf,
                submitted_leaf,
            } => FraudEvidence::DepositWrongLeaf {
                block_data: block_data.clone(),
                deposit_nr: *deposit_nr,
                expected_leaf: *expected_leaf,
                submitted_leaf: *submitted_leaf,
            },
            FraudEvidence::DepositPaddingNotZero {
                block_data,
                group_index,
                slot_index,
                submitted_value,
            } => FraudEvidence::DepositPaddingNotZero {
                block_data: block_data.clone(),
                group_index: *group_index,
                slot_index: *slot_index,
                submitted_value: *submitted_value,
            },
            FraudEvidence::NullifierDoubleSpend {
                first_block_nr,
                second_block_nr,
                first_tx_number,
                second_tx_number,
                first_which,
                second_which,
                nullifier,
            } => FraudEvidence::NullifierDoubleSpend {
                first_block_nr: *first_block_nr,
                second_block_nr: *second_block_nr,
                first_tx_number: *first_tx_number,
                second_tx_number: *second_tx_number,
                first_which: *first_which,
                second_which: *second_which,
                nullifier: *nullifier,
            },
            FraudEvidence::InvalidTransactionProof {
                block_data,
                tx_nr,
                anchor_block_nr,
                anchor_update_nr,
                is_deposit,
            } => FraudEvidence::InvalidTransactionProof {
                block_data: block_data.clone(),
                tx_nr: *tx_nr,
                anchor_block_nr: *anchor_block_nr,
                anchor_update_nr: *anchor_update_nr,
                is_deposit: *is_deposit,
            },
            FraudEvidence::InvalidAnchorReference {
                block_data,
                tx_nr,
                anchor_block_nr,
                anchor_update_nr,
                is_deposit,
            } => FraudEvidence::InvalidAnchorReference {
                block_data: block_data.clone(),
                tx_nr: *tx_nr,
                anchor_block_nr: *anchor_block_nr,
                anchor_update_nr: *anchor_update_nr,
                is_deposit: *is_deposit,
            },
            FraudEvidence::MissingEthKeyAuth {
                block_data,
                tx_nr,
                eth_key,
                nullifiers,
                leaves,
                anchor_block_nr,
                anchor_update_nr,
                is_deposit,
            } => FraudEvidence::MissingEthKeyAuth {
                block_data: block_data.clone(),
                tx_nr: *tx_nr,
                eth_key: *eth_key,
                nullifiers: *nullifiers,
                leaves: *leaves,
                anchor_block_nr: *anchor_block_nr,
                anchor_update_nr: *anchor_update_nr,
                is_deposit: *is_deposit,
            },
            FraudEvidence::IncorrectTreeUpdate {
                block_data,
                update_nr,
                is_tx,
                expected_anchor,
                submitted_anchor,
                prior_anchor,
                leaves,
                prior_anchor_block_nr,
                prior_update_nr,
                merkle_data,
            } => FraudEvidence::IncorrectTreeUpdate {
                block_data: block_data.clone(),
                update_nr: *update_nr,
                is_tx: *is_tx,
                expected_anchor: *expected_anchor,
                submitted_anchor: *submitted_anchor,
                prior_anchor: *prior_anchor,
                leaves: *leaves,
                prior_anchor_block_nr: *prior_anchor_block_nr,
                prior_update_nr: *prior_update_nr,
                merkle_data: *merkle_data,
            },
        }
    }
}

/// What each piece of a list of evidence says.
pub open spec fn evidence_views(fraud: Seq<FraudEvidence>) -> Seq<EvidenceView> {
    Seq::new(fraud.len(), |i: int| fraud[i]@)
}

/// Adding a piece of evidence adds what it says.
pub proof fn lemma_evidence_push(fraud: Seq<FraudEvidence>, e: FraudEvidence)
    ensures
        evidence_views(fraud.push(e)) == evidence_views(fraud).push(e@),
{
    assert(evidence_views(fraud.push(e)) =~= evidence_views(fraud).push(e@));
}

/// The verdict on a block.
#[derive(Debug)]
pub enum ValidationResult {
    /// The block keeps the rules.
    Valid,
    /// The block can be challenged.
    Fraud(FraudEvidence),
}

/// A check of blocks.
pub trait Validator {
    /// Checks a block of which the fields of its blobs are given. Returns the evidence
    /// against it.
    fn validate(&self, block_data: &BlockData, blob_data: &[B256]) -> Vec<FraudEvidence>;
}

/// What a piece of evidence says is what it holds, part by part.
pub proof fn law_evidence_says_what_it_holds(evidence: FraudEvidence)
    ensures
        match evidence {
            FraudEvidence::DepositWrongLeaf {
                block_data,
                deposit_nr,
                expected_leaf,
                submitted_leaf,
            } => evidence@ matches EvidenceView::DepositWrongLeaf {
                block,
                deposit_nr: nr,
                expected_leaf: expected,
                submitted_leaf: submitted,
            } && block == block_data@ && nr == deposit_nr && expected == expected_leaf && submitted
                == submitted_leaf,
            FraudEvidence::DepositPaddingNotZero {
                block_data,
                group_index,
                slot_index,
                submitted_value,
            } => evidence@ matches EvidenceView::DepositPaddingNotZero {
                block,
                group_index: group,
                slot_index: slot,
                submitted_value: submitted,
            } && block == block_data@ && group == group_index && slot == slot_index && submitted
                == submitted_value,
            FraudEvidence::NullifierDoubleSpend {
                first_block_nr,
                second_block_nr,
                first_tx_number,
                second_tx_number,
                first_which,
                second_which,
                nullifier,
            } => evidence@ matches EvidenceView::NullifierDoubleSpend {
                first_block_nr: first_block,
                second_block_nr: second_block,
                first_tx_number: first_tx,
                second_tx_number: second_tx,
                first_which: first,
                second_which: second,
                nullifier: word,
            } && first_block == first_block_nr && second_block == second_block_nr && first_tx
                == first_tx_number && second_tx == second_tx_number && first == first_which && second
                == second_which && word == nullifier,
            FraudEvidence::InvalidTransactionProof {
                block_data,
                tx_nr,
                anchor_block_nr,
                anchor_update_nr,
                is_deposit,
            } => evidence@ matches EvidenceView::InvalidTransactionProof {
                block,
                tx_nr: nr,
                anchor_block_nr: anchor_block,
                anchor_update_nr: anchor_update,
                is_deposit: kind,
            } && block == block_data@ && nr == tx_nr && anchor_block == anchor_block_nr
                && anchor_update == anchor_update_nr && kind == is_deposit,
            FraudEvidence::InvalidAnchorReference {
                block_data,
                tx_nr,
                anchor_block_nr,
                anchor_update_nr,
                is_deposit,
            } => evidence@ matches EvidenceView::InvalidAnchorReference {
                block,
                tx_nr: nr,
                anchor_block_nr: anchor_block,
                anchor_update_nr: anchor_update,
                is_deposit: kind,
            } && block == block_data@ && nr == tx_nr && anchor_block == anchor_block_nr
                && anchor_update == anchor_update_nr && kind == is_deposit,
            FraudEvidence::MissingEthKeyAuth {
                block_data,
                tx_nr,
                eth_key,
                nullifiers,
                leaves,
                anchor_block_nr,
                anchor_update_nr,
                is_deposit,
            } => evidence@ matches EvidenceView::MissingEthKeyAuth {
                block,
                tx_nr: nr,
                eth_key: account,
                nullifiers: two,
                leaves: three,
                anchor_block_nr: anchor_block,
                anchor_update_nr: anchor_update,
                is_deposit: kind,
            } && block == block_data@ && nr == tx_nr && account == eth_key && two == nullifiers
                && three == leaves && anchor_block == anchor_block_nr && anchor_update
                == anchor_update_nr && kind == is_deposit,
            FraudEvidence::IncorrectTreeUpdate {
                block_data,
                update_nr,
                is_tx,
                expected_anchor,
                submitted_anchor,
                prior_anchor,
                leaves,
                prior_anchor_block_nr,
                prior_update_nr,
                merkle_data,
            } => evidence@ matches EvidenceView::IncorrectTreeUpdate {
                block,
                update_nr: nr,
                is_tx: kind,
                expected_anchor: expected,
                submitted_anchor: submitted,
                prior_anchor: before,
                leaves: three,
                prior_anchor_block_nr: before_block,
                prior_update_nr: before_update,
                merkle_data: data,
            } && block == block_data@ && nr == update_nr && kind == is_tx && expected
                == expected_anchor && submitted == submitted_anchor && before == prior_anchor && three
                == leaves && before_block == prior_anchor_block_nr && before_update
                == prior_update_nr && (data is Some <==> merkle_data is Some) && (data is Some
                ==> data->0 == merkle_data->0@),
        },
{
}

/// What the data of an update says is what it holds, part by part.
pub proof fn law_update_data_says_what_it_holds(data: TreeUpdateMerkleData, i: int)
    requires
        0 <= i < 4,
    ensures
        data@.block_root_before == data.block_root_before,
        data@.block_index == data.block_index,
        data@.in_block_index == data.in_block_index,
        data@.nonzero_field == data.nonzero_field,
        data@.block_proofs.len() == 4,
        data@.block_proofs[i] == data.block_proofs@[i]@,
        data@.root_path == data.root_path@,
{
}

/// What a list of evidence says is what each piece of it says, in its order.
pub proof fn law_list_says_what_each_says(fraud: Seq<FraudEvidence>, i: int)
    ensures
        evidence_views(fraud).len() == fraud.len(),
        0 <= i < fraud.len() ==> evidence_views(fraud)[i] == fraud[i]@,
{
}

} // verus!
