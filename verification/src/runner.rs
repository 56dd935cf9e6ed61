//! The course of a block through the checks, the way back in a rollback, and what a challenge
//! is put together from.

pub mod course;
pub mod plan;
pub mod retry;
pub mod submission;

use crate::blob::{
    block_contents, blobs_from_bytes, holds_bytes, Blob, BlobError, BlockContents,
    DecodedAnchorInfo, ParsedBlock,
};
use crate::challenge::memory::{block_length, deposit_groups};
use crate::challenge::ChallengeError;
use crate::events::NewRootEvent;
use crate::groth16::{Groth16Verifier, KeyView};
use crate::merkle::{climb, tree_root};
use crate::types::{
    zero_address, zero_word, Address, BlockData, BlockView, TimestampAndIndex, B256, U256,
};
use crate::validators::deposit::{deposit_frauds, DepositValidator};
use crate::validators::nullifier::{
    nullifier_frauds, recorded_uses, uses_of, NullifierRecord, NullifierValidator,
};
use crate::validators::transaction::{
    anchor_key, anchors_before, block_verdicts, law_entered_anchors_are_known, law_rollback,
    transaction_frauds, verdict_views, with_anchors, AnchorLookup, AnchorsView, TransactionValidator,
    TxVerdict,
};
use crate::validators::tree_update::block_tracker::full_path;
use crate::validators::tree_update::root_tracker::{
    anchor_of, blocks_of, law_root_path, root_path_of, RootTreeTracker,
};
use crate::validators::tree_update::{
    are_leaves_of, final_block_tree_root, law_anchor_is_that_of_all_leaves,
    law_checked_anchor_is_chain_anchor, law_no_evidence_iff_correct, tree_frauds, updates_of, TreeContext,
    TreeUpdateValidator, BLOCKS_PER_DAY,
};
use crate::validators::{evidence_views, EvidenceView, FraudEvidence};
use vstd::prelude::*;

verus! {

/// Why a block was not processed, or a challenge not put together.
#[derive(Clone, Copy, Debug, PartialEq, Eq, Structural)]
pub enum RunnerError {
    /// A block number has more than 64 bits.
    BlockNumberTooLarge,
    /// A number of deposits has more than 64 bits.
    DepositCountTooLarge,
    /// A number of transactions has more than 64 bits.
    TransactionCountTooLarge,
    /// A rollback goes to a block whose number has more than 64 bits.
    RollbackTargetTooLarge,
    /// The blobs do not hold the block.
    Blob(BlobError),
    /// The position of a block lies outside the tree of block roots.
    TreeIndexOutOfRange,
    /// A block has more leaves than its tree.
    TooManyUpdates,
    /// What a proof of an update is made from is missing.
    MissingMerkleData,
    /// The update that the prior anchor comes from is not before the challenged one.
    PriorUpdateNotBefore { prior: u64, update: u64 },
    /// The proof that was made leads to another anchor.
    AnchorMismatch,
    /// The challenge could not be built.
    Challenge(ChallengeError),
    /// The header of a block is not kept.
    BlockMissing { block_nr: u64 },
    /// A block has no blobs.
    NoBlobHashes { block_nr: u64 },
    /// The anchor that a transaction refers to is not kept.
    AnchorMissing { block_nr: u32, update_nr: u32, is_deposit: bool },
    /// No challenge is submitted in a dry run.
    DryRun,
}

/// Evidence, and where it was found.
#[derive(Debug)]
pub struct FraudWithContext {
    pub fraud: FraudEvidence,
    /// Block that it was found in.
    pub block_nr: u64,
    /// Block of the first layer that holds the blobs.
    pub l1_block_number: u64,
}

/// The name of the kind of fraud that evidence is of.
pub open spec fn kind_name(fraud: EvidenceView) -> &'static str {
    match fraud {
        EvidenceView::DepositWrongLeaf { .. } => "DepositWrongLeaf",
        EvidenceView::DepositPaddingNotZero { .. } => "DepositPaddingNotZero",
        EvidenceView::NullifierDoubleSpend { .. } => "NullifierDoubleSpend",
        EvidenceView::InvalidTransactionProof { .. } => "InvalidTransactionProof",
        EvidenceView::InvalidAnchorReference { .. } => "InvalidAnchorReference",
        EvidenceView::MissingEthKeyAuth { .. } => "MissingEthKeyAuth",
        EvidenceView::IncorrectTreeUpdate { .. } => "IncorrectTreeUpdate",
    }
}

/// The name of the kind of fraud that evidence is of.
pub fn fraud_type_name(fraud: &FraudEvidence) -> (r: &'static str)
    ensures
        r@ == kind_name(fraud@)@,
{
    match fraud {
        FraudEvidence::DepositWrongLeaf { .. } => "DepositWrongLeaf",
        FraudEvidence::DepositPaddingNotZero { .. } => "DepositPaddingNotZero",
        FraudEvidence::NullifierDoubleSpend { .. } => "NullifierDoubleSpend",
        FraudEvidence::InvalidTransactionProof { .. } => "InvalidTransactionProof",
        FraudEvidence::InvalidAnchorReference { .. } => "InvalidAnchorReference",
        FraudEvidence::MissingEthKeyAuth { .. } => "MissingEthKeyAuth",
        FraudEvidence::IncorrectTreeUpdate { .. } => "IncorrectTreeUpdate",
    }
}

/// Whether a header is that of the block before the first: all of it is zero.
pub open spec fn is_first_header(header: BlockView) -> bool {
    &&& header.anchor == zero_word()
    &&& header.timestamp@ == 0
    &&& header.num_transactions@ == 0
    &&& header.num_deposits@ == 0
    &&& header.block_nr@ == 0
    &&& header.block_index == (TimestampAndIndex { day: 0, index: 0 })
    &&& header.sequencer == zero_address()
    &&& header.blobhashes.len() == 0
}

/// The header of the block before the first.
pub fn default_block_data() -> (r: BlockData)
    ensures
        is_first_header(r@),
{
    BlockData {
        anchor: B256::zero(),
        timestamp: U256::zero(),
        num_transactions: U256::zero(),
        num_deposits: U256::zero(),
        block_nr: U256::zero(),
        block_index: TimestampAndIndex { day: 0, index: 0 },
        sequencer: Address::zero(),
        blobhashes: Vec::new(),
    }
}

/// The low 32 bits of a block number.
pub open spec fn short_block_nr(block_nr: u64) -> u32 {
    (block_nr % 0x1_0000_0000) as u32
}

/// The anchors that a block leaves behind: those after its deposit groups, then those after
/// its transactions, each numbered from zero.
pub open spec fn anchors_of_block(block_nr: u32, block: BlockContents) -> Seq<
    (u32, u32, bool, B256),
> {
    Seq::new(
        block.deposit_groups.len(),
        |i: int| (block_nr, i as u32, true, block.deposit_groups[i].new_root),
    ) + Seq::new(
        block.transactions.len(),
        |i: int| (block_nr, i as u32, false, block.transactions[i].new_root),
    )
}

/// The position of a block in the tree of block roots.
pub open spec fn tree_index_of(index: TimestampAndIndex) -> int {
    index.day * 8192 + index.index
}

/// Whether the trees have room for a block.
pub open spec fn fits_trees(header: BlockView, block: BlockContents) -> bool {
    &&& tree_index_of(header.block_index) <= RootTreeTracker::MAX_TREE_INDEX
    &&& 3 * (block.deposit_groups.len() + block.transactions.len()) <= 65536
}

/// Where a block's tree updates start from, given the block roots before it.
pub open spec fn context_of(header: BlockView, block_nr: u64, blocks: Map<u64, B256>) -> TreeContext {
    TreeContext {
        block: header,
        prior_anchor: anchor_of(blocks),
        prior_block_nr: if block_nr > 0 {
            Some((block_nr - 1) as u64)
        } else {
            None
        },
        block_index: tree_index_of(header.block_index) as u64,
        start: 0,
        path: root_path_of(blocks, tree_index_of(header.block_index)),
    }
}

/// The root of a block's tree.
pub open spec fn final_root(block: BlockContents) -> B256 {
    final_block_tree_root(block, 0)
}

/// What evidence says that is given with where it was found.
pub open spec fn found_evidence(list: Seq<FraudWithContext>) -> Seq<EvidenceView> {
    Seq::new(list.len(), |i: int| list[i].fraud@)
}

/// The checks of a block that need no account's authorisation.
#[derive(Debug)]
pub struct BlockChecks {
    pub deposit_fraud: Vec<FraudEvidence>,
    pub nullifier_fraud: Vec<FraudEvidence>,
    /// Nullifiers to be recorded.
    pub new_nullifiers: Vec<(B256, NullifierRecord)>,
    pub verdicts: Vec<TxVerdict>,
}

/// What came of a block.
#[derive(Debug)]
pub struct BlockOutcome {
    pub fraud: Vec<FraudWithContext>,
    /// Position of the block in the tree of block roots.
    pub tree_index: u64,
    /// Root of the block's tree.
    pub block_root: B256,
    /// Anchor after the block, as its leaves lead to it.
    pub anchor: B256,
}

/// What a rollback takes back.
#[derive(Clone, Copy, Debug, PartialEq, Eq, Structural)]
pub struct RollbackPlan {
    /// First block whose nullifiers go.
    pub nullifiers_from: u64,
    /// First block whose anchors go.
    pub anchors_from: u32,
    /// First block that goes, with its root and the challenges that wait for it.
    pub blocks_from: u64,
}

/// What a rollback to a block takes back: its anchors stay.
pub open spec fn rollback_plan(to: nat) -> RollbackPlan {
    RollbackPlan {
        nullifiers_from: to as u64,
        anchors_from: short_block_nr(
            if to < u64::MAX {
                (to + 1) as u64
            } else {
                u64::MAX
            },
        ),
        blocks_from: to as u64,
    }
}

/// Checks blocks, and keeps track of what later ones are checked against.
pub struct ChallengerRunner {
    deposit_validator: DepositValidator,
    nullifier_validator: NullifierValidator,
    tree_update_validator: TreeUpdateValidator,
    transaction_validator: TransactionValidator,
    anchor_lookup: AnchorLookup,
    root_tree_tracker: RootTreeTracker,
    registry_address: Address,
    genesis_anchor: B256,
    max_retries: i32,
    dry_run: bool,
}

impl ChallengerRunner {
    /// The key that transfers are verified with.
    pub closed spec fn transfer_key(self) -> KeyView {
        self.transaction_validator.verifier.transfer_vk@
    }

    /// The anchors that are known.
    pub closed spec fn anchors(self) -> AnchorsView {
        self.anchor_lookup@
    }

    /// The block roots that are known, by position.
    pub closed spec fn blocks(self) -> Map<u64, B256> {
        self.root_tree_tracker@
    }

    /// The anchor before the first block.
    pub closed spec fn spec_genesis_anchor(self) -> B256 {
        self.genesis_anchor
    }

    /// The registry of authorisations.
    pub closed spec fn spec_registry_address(self) -> Address {
        self.registry_address
    }

    /// How often a challenge is tried again.
    pub closed spec fn spec_max_retries(self) -> i32 {
        self.max_retries
    }

    /// Whether no challenge is submitted.
    pub closed spec fn spec_dry_run(self) -> bool {
        self.dry_run
    }

    /// What is kept of anchors and of block roots is consistent.
    pub closed spec fn wf(self) -> bool {
        &&& self.anchor_lookup.wf()
        &&& self.root_tree_tracker.wf()
    }

    /// What does not change from block to block.
    pub open spec fn same_settings(self, other: Self) -> bool {
        &&& self.transfer_key() == other.transfer_key()
        &&& self.spec_genesis_anchor() == other.spec_genesis_anchor()
        &&& self.spec_registry_address() == other.spec_registry_address()
        &&& self.spec_max_retries() == other.spec_max_retries()
        &&& self.spec_dry_run() == other.spec_dry_run()
    }

    /// A runner that goes on from the anchors and the block roots that were kept.
    pub fn new(
        verifier: Groth16Verifier,
        anchors: &[(u32, u32, bool, B256)],
        block_roots: &[(u64, B256)],
        registry_address: Option<Address>,
        genesis_anchor: B256,
        max_retries: i32,
        dry_run: bool,
    ) -> (r: ChallengerRunner)
        requires
            forall|i: int|
                0 <= i < block_roots@.len() ==> (#[trigger] block_roots@[i]).0
                    <= RootTreeTracker::MAX_TREE_INDEX,
        ensures
            r.wf(),
            r.transfer_key() == verifier.transfer_vk@,
            r.anchors().anchors == with_anchors(Map::empty(), anchors@),
            r.anchors().current_block_nr == 0,
            r.blocks() == blocks_of(block_roots@),
            r.spec_genesis_anchor() == genesis_anchor,
            r.spec_registry_address() == (match registry_address {
                Some(address) => address,
                None => zero_address(),
            }),
            r.spec_max_retries() == max_retries,
            r.spec_dry_run() == dry_run,
    {
        let mut anchor_lookup = AnchorLookup::new();
        anchor_lookup.insert_batch(anchors);
        ChallengerRunner {
            deposit_validator: DepositValidator::new(),
            nullifier_validator: NullifierValidator::new(),
            tree_update_validator: TreeUpdateValidator::new(),
            transaction_validator: TransactionValidator::new(verifier),
            anchor_lookup,
            root_tree_tracker: RootTreeTracker::from_block_roots(block_roots),
            registry_address: match registry_address {
                Some(address) => address,
                None => Address::zero(),
            },
            genesis_anchor,
            max_retries,
            dry_run,
        }
    }

    /// Notes the block that an event announces. Returns its number.
    pub fn start_block(&mut self, event: &NewRootEvent) -> (r: Result<u64, RunnerError>)
        requires
            old(self).wf(),
        ensures
            final(self).wf(),
            final(self).same_settings(*old(self)),
            final(self).blocks() == old(self).blocks(),
            r is Ok <==> event.block_number@ <= u64::MAX,
            r matches Ok(nr) ==> nr == event.block_number@ && final(self).anchors() == (AnchorsView {
                current_block_nr: nr,
                ..old(self).anchors()
            }),
            r matches Err(e) ==> e == RunnerError::BlockNumberTooLarge && *final(self) == *old(
                self,
            ),
    {
        match event.block_number.to_u64() {
            Some(block_nr) => {
                self.anchor_lookup.set_current_block(block_nr);
                Ok(block_nr)
            },
            None => Err(RunnerError::BlockNumberTooLarge),
        }
    }

    /// Whether the block that an event announces is passed over: one without blobs draws no
    /// evidence, and nothing of it is entered.
    pub fn skips_block(&self, event: &NewRootEvent) -> (r: bool)
        ensures
            r == (event.block_data.blobhashes@.len() == 0),
    {
        event.block_data.blobhashes.len() == 0
    }

    /// Reads a block out of the bytes of its blobs.
    pub fn parse_block(&self, block_data: &BlockData, blob_data: &[Vec<u8>]) -> (r: Result<
        ParsedBlock,
        RunnerError,
    >)
        requires
            4096 * blob_data@.len() <= usize::MAX,
        ensures
            r matches Ok(block) ==> is_block_in(block@, block_data@, blob_data@),
            r matches Err(e) ==> parse_failure(block_data@, blob_data@.len()) == Some(e),
            r is Ok <==> parse_failure(block_data@, blob_data@.len()) is None,
    {
        let num_deposits: u64 = match block_data.num_deposits.to_u64() {
            Some(n) => n,
            None => {
                return Err(RunnerError::DepositCountTooLarge);
            },
        };
        let num_transactions: u64 = match block_data.num_transactions.to_u64() {
            Some(n) => n,
            None => {
                return Err(RunnerError::TransactionCountTooLarge);
            },
        };
        let blobs = blobs_from_bytes(blob_data);
        if num_deposits > usize::MAX as u64 || num_transactions > usize::MAX as u64 {
            return Err(RunnerError::Blob(BlobError::TooFewFields));
        }
        match ParsedBlock::from_blobs(
            blobs.as_slice(),
            num_deposits as usize,
            num_transactions as usize,
        ) {
            Ok(block) => {
                proof {
                    assert(hold_all(blobs@, blob_data@));
                }
                Ok(block)
            },
            Err(e) => Err(RunnerError::Blob(e)),
        }
    }

    /// Enters the anchors that a block leaves behind. Returns them, to be kept.
    pub fn record_anchors(&mut self, block_nr: u64, block: &ParsedBlock) -> (r: Vec<
        (u32, u32, bool, B256),
    >)
        requires
            old(self).wf(),
            block@.deposit_groups.len() <= u32::MAX,
            block@.transactions.len() <= u32::MAX,
        ensures
            final(self).wf(),
            final(self).same_settings(*old(self)),
            final(self).blocks() == old(self).blocks(),
            r@ == anchors_of_block(short_block_nr(block_nr), block@),
            final(self).anchors() == (AnchorsView {
                anchors: with_anchors(old(self).anchors().anchors, r@),
                ..old(self).anchors()
            }),
    {
        let short: u32 = (block_nr % 0x1_0000_0000) as u32;
        let mut list: Vec<(u32, u32, bool, B256)> = Vec::new();
        let groups: usize = block.deposit_groups.len();
        let mut i: usize = 0;
        while i < groups
            invariant
                i <= groups,
                groups == block@.deposit_groups.len(),
                groups <= u32::MAX,
                list@.len() == i,
                forall|j: int|
                    0 <= j < i ==> #[trigger] list@[j] == (
                        short,
                        j as u32,
                        true,
                        block@.deposit_groups[j].new_root,
                    ),
            decreases groups - i,
        {
            list.push((short, i as u32, true, block.deposit_groups[i].new_root));
            i += 1;
        }
        let mut t: usize = 0;
        while t < block.transactions.len()
            invariant
                t <= block@.transactions.len(),
                groups == block@.deposit_groups.len(),
                block@.transactions.len() <= u32::MAX,
                list@.len() == groups + t,
                forall|j: int|
                    0 <= j < groups ==> #[trigger] list@[j] == (
                        short,
                        j as u32,
                        true,
                        block@.deposit_groups[j].new_root,
                    ),
                forall|j: int|
                    groups <= j < groups + t ==> #[trigger] list@[j] == (
                        short,
                        (j - groups) as u32,
                        false,
                        block@.transactions[j - groups].new_root,
                    ),
            decreases block@.transactions.len() - t,
        {
            list.push((short, t as u32, false, block.transactions[t].new_root));
            t += 1;
        }
        assert(list@ =~= anchors_of_block(short_block_nr(block_nr), block@));
        self.anchor_lookup.insert_batch(list.as_slice());
        list
    }

    /// Runs the checks of a block that need no account's authorisation: `expected_deposits`
    /// are the leaves that were deposited, `existing` what is recorded of the block's
    /// nullifiers, `anchor_infos` what its transactions say of their anchors.
    pub fn check_block(
        &self,
        block_data: &BlockData,
        block_nr: u64,
        block: &ParsedBlock,
        expected_deposits: &[B256],
        existing: &[(B256, NullifierRecord)],
        anchor_infos: &[DecodedAnchorInfo],
    ) -> (r: BlockChecks)
        requires
            self.wf(),
            anchor_infos@.len() == block@.transactions.len(),
        ensures
            evidence_views(r.deposit_fraud@) == deposit_frauds(
                block_data@,
                block@,
                expected_deposits@,
            ),
            evidence_views(r.nullifier_fraud@) == nullifier_frauds(
                uses_of(block_nr, block@.transactions),
                existing@,
            ),
            r.new_nullifiers@ == recorded_uses(
                uses_of(block_nr, block@.transactions),
                existing@,
            ),
            verdict_views(r.verdicts@) == block_verdicts(
                self.transfer_key(),
                self.anchors(),
                block_data@,
                block@.transactions,
                anchor_infos@,
            ),
    {
        let deposit_fraud = self.deposit_validator.validate_block(
            block_data,
            block,
            expected_deposits,
        );
        let nullifiers = self.nullifier_validator.process_block(existing, block_nr, block);
        let verdicts = self.transaction_validator.validate_block(
            block_data,
            block,
            anchor_infos,
            &self.anchor_lookup,
        );
        BlockChecks {
            deposit_fraud,
            nullifier_fraud: nullifiers.fraud,
            new_nullifiers: nullifiers.new_nullifiers,
            verdicts,
        }
    }

    /// Whether the trees have room for a block, and if not, why.
    pub fn check_room(&self, block_data: &BlockData, block: &ParsedBlock) -> (r: Result<
        u64,
        RunnerError,
    >)
        ensures
            r is Ok <==> fits_trees(block_data@, block@),
            r matches Ok(index) ==> index == tree_index_of(block_data@.block_index),
            r matches Err(e) ==> e == (if tree_index_of(block_data@.block_index)
                <= RootTreeTracker::MAX_TREE_INDEX {
                RunnerError::TooManyUpdates
            } else {
                RunnerError::TreeIndexOutOfRange
            }),
    {
        let position = block_data.block_index;
        if position.day >= 32768 || position.index > RootTreeTracker::MAX_TREE_INDEX as u128 {
            return Err(RunnerError::TreeIndexOutOfRange);
        }
        let index: u64 = position.day as u64 * BLOCKS_PER_DAY + position.index as u64;
        if index > RootTreeTracker::MAX_TREE_INDEX {
            return Err(RunnerError::TreeIndexOutOfRange);
        }
        let groups: usize = block.deposit_groups.len();
        let transactions: usize = block.transactions.len();
        if groups > 21845 || transactions > 21845 - groups {
            return Err(RunnerError::TooManyUpdates);
        }
        Ok(index)
    }

    /// Checks the tree updates of a block, enters its root, and gathers all evidence against
    /// it: against deposits, nullifiers, transactions and tree updates, in that order.
    /// `authorized` says of each transaction whether its account has authorised it.
    pub fn finish_block(
        &mut self,
        block_data: &BlockData,
        block_nr: u64,
        l1_block_number: u64,
        block: &ParsedBlock,
        checks: BlockChecks,
        authorized: &[bool],
    ) -> (r: BlockOutcome)
        requires
            old(self).wf(),
            fits_trees(block_data@, block@),
            authorized@.len() == checks.verdicts@.len(),
        ensures
            final(self).wf(),
            final(self).same_settings(*old(self)),
            final(self).anchors() == old(self).anchors(),
            r.tree_index == tree_index_of(block_data@.block_index),
            r.block_root == final_root(block@),
            final(self).blocks() == old(self).blocks().insert(r.tree_index, r.block_root),
            r.anchor == anchor_of(final(self).blocks()),
            found_evidence(r.fraud@) == evidence_views(checks.deposit_fraud@) + evidence_views(
                checks.nullifier_fraud@,
            ) + transaction_frauds(
                verdict_views(checks.verdicts@),
                authorized@,
                checks.verdicts@.len(),
            ) + tree_frauds(
                context_of(block_data@, block_nr, old(self).blocks()),
                updates_of(block@),
            ),
            forall|i: int|
                0 <= i < r.fraud@.len() ==> (#[trigger] r.fraud@[i]).block_nr == block_nr
                    && r.fraud@[i].l1_block_number == l1_block_number,
    {
        let tx_fraud = self.transaction_validator.conclude(
            checks.verdicts.as_slice(),
            authorized,
        );
        let position = block_data.block_index;
        let tree_index: u64 = position.day as u64 * BLOCKS_PER_DAY + position.index as u64;
        let root_path = self.root_tree_tracker.get_root_path_for_index(tree_index);
        let prior_anchor = self.root_tree_tracker.current_anchor();
        let prior_block_nr: Option<u64> = if block_nr > 0 {
            Some(block_nr - 1)
        } else {
            None
        };
        proof {
            assert(full_path(root_path@) =~= root_path@);
        }
        let (tree_fraud, block_root) = self.tree_update_validator.validate_block(
            block_data,
            block,
            prior_anchor,
            prior_block_nr,
            tree_index,
            0,
            root_path.as_slice(),
        );
        let anchor = self.root_tree_tracker.insert_block_root(tree_index, block_root);
        let mut fraud: Vec<FraudWithContext> = Vec::new();
        assert(found_evidence(fraud@) =~= Seq::<EvidenceView>::empty());
        add_context(&mut fraud, checks.deposit_fraud, block_nr, l1_block_number);
        add_context(&mut fraud, checks.nullifier_fraud, block_nr, l1_block_number);
        add_context(&mut fraud, tx_fraud, block_nr, l1_block_number);
        add_context(&mut fraud, tree_fraud, block_nr, l1_block_number);
        proof {
            let e = Seq::<EvidenceView>::empty();
            let d = evidence_views(checks.deposit_fraud@);
            assert(e + d =~= d);
        }
        BlockOutcome { fraud, tree_index, block_root, anchor }
    }

    /// What a rollback to a block takes back. Fails exactly where the block's number has
    /// more than 64 bits.
    pub fn plan_rollback(&self, to: U256) -> (r: Result<RollbackPlan, RunnerError>)
        ensures
            r is Ok <==> to@ <= u64::MAX,
            r matches Ok(plan) ==> plan == rollback_plan(to@),
            r matches Err(e) ==> e == RunnerError::RollbackTargetTooLarge,
    {
        match to.to_u64() {
            Some(block_nr) => {
                let next: u64 = if block_nr < u64::MAX {
                    block_nr + 1
                } else {
                    u64::MAX
                };
                Ok(
                    RollbackPlan {
                        nullifiers_from: block_nr,
                        anchors_from: (next % 0x1_0000_0000) as u32,
                        blocks_from: block_nr,
                    },
                )
            },
            None => Err(RunnerError::RollbackTargetTooLarge),
        }
    }

    /// Takes blocks back: forgets anchors, and goes on from the block roots that are left.
    pub fn apply_rollback(&mut self, plan: RollbackPlan, remaining_roots: &[(u64, B256)])
        requires
            old(self).wf(),
            forall|i: int|
                0 <= i < remaining_roots@.len() ==> (#[trigger] remaining_roots@[i]).0
                    <= RootTreeTracker::MAX_TREE_INDEX,
        ensures
            final(self).wf(),
            final(self).same_settings(*old(self)),
            final(self).anchors() == (AnchorsView {
                anchors: anchors_before(old(self).anchors().anchors, plan.anchors_from),
                ..old(self).anchors()
            }),
            final(self).blocks() == blocks_of(remaining_roots@),
    {
        self.anchor_lookup.rollback_from(plan.anchors_from);
        self.root_tree_tracker = RootTreeTracker::from_block_roots(remaining_roots);
    }

    /// The anchor that the block roots lead to.
    pub fn current_anchor(&self) -> (r: B256)
        requires
            self.wf(),
        ensures
            r == anchor_of(self.blocks()),
    {
        self.root_tree_tracker.current_anchor()
    }

    /// The registry of authorisations.
    pub fn registry_address(&self) -> (r: Address)
        ensures
            r == self.spec_registry_address(),
    {
        self.registry_address
    }

    /// The anchor before the first block.
    pub fn genesis_anchor(&self) -> (r: B256)
        ensures
            r == self.spec_genesis_anchor(),
    {
        self.genesis_anchor
    }

    /// Whether no challenge is submitted.
    pub fn is_dry_run(&self) -> (r: bool)
        ensures
            r == self.spec_dry_run(),
    {
        self.dry_run
    }

    /// Whether a challenge that failed so often is tried again.
    pub fn should_retry(&self, retry_count: i32) -> (r: bool)
        ensures
            r == (retry_count < self.spec_max_retries()),
    {
        retry_count < self.max_retries
    }
}

/// Adds evidence with where it was found.
fn add_context(
    list: &mut Vec<FraudWithContext>,
    fraud: Vec<FraudEvidence>,
    block_nr: u64,
    l1_block_number: u64,
)
    requires
        forall|i: int|
            0 <= i < old(list)@.len() ==> (#[trigger] old(list)@[i]).block_nr == block_nr && old(
                list,
            )@[i].l1_block_number == l1_block_number,
    ensures
        found_evidence(final(list)@) == found_evidence(old(list)@) + evidence_views(fraud@),
        forall|i: int|
            0 <= i < final(list)@.len() ==> (#[trigger] final(list)@[i]).block_nr == block_nr
                && final(list)@[i].l1_block_number == l1_block_number,
{
    let ghost start = found_evidence(list@);
    let mut i: usize = 0;
    assert(found_evidence(list@) =~= start + evidence_views(fraud@).take(0));
    while i < fraud.len()
        invariant
            i <= fraud@.len(),
            found_evidence(list@) == start + evidence_views(fraud@).take(i as int),
            forall|k: int|
                0 <= k < list@.len() ==> (#[trigger] list@[k]).block_nr == block_nr
                    && list@[k].l1_block_number == l1_block_number,
        decreases fraud@.len() - i,
    {
        let ghost before = list@;
        let evidence = fraud[i].clone();
        let found = FraudWithContext { fraud: evidence, block_nr, l1_block_number };
        let ghost view = found.fraud@;
        list.push(found);
        i += 1;
        proof {
            assert(found_evidence(list@) =~= found_evidence(before).push(view));
            assert(evidence_views(fraud@).take(i as int) =~= evidence_views(fraud@).take(
                i - 1,
            ).push(view));
            assert(found_evidence(list@) =~= start + evidence_views(fraud@).take(i as int));
        }
    }
    assert(evidence_views(fraud@).take(i as int) =~= evidence_views(fraud@));
}

/// Whether a block is what the bytes of its blobs hold, by the numbers in its header.
pub open spec fn is_block_in(block: BlockContents, header: BlockView, data: Seq<Vec<u8>>) -> bool {
    exists|fields: Seq<Blob>| #[trigger]
        hold_all(fields, data) && block == block_contents(
            fields,
            header.num_deposits@,
            header.num_transactions@,
        )
}

/// Whether blobs hold the fields that bytes spell.
pub open spec fn hold_all(fields: Seq<Blob>, data: Seq<Vec<u8>>) -> bool {
    &&& fields.len() == data.len()
    &&& forall|i: int| 0 <= i < fields.len() ==> #[trigger] holds_bytes(fields[i], data[i]@)
}

/// Why a block cannot be read out of so many blobs.
pub open spec fn parse_failure(header: BlockView, num_blobs: nat) -> Option<RunnerError> {
    if header.num_deposits@ > u64::MAX {
        Some(RunnerError::DepositCountTooLarge)
    } else if header.num_transactions@ > u64::MAX {
        Some(RunnerError::TransactionCountTooLarge)
    } else if block_length(header.num_deposits@, header.num_transactions@) > 4096 * num_blobs {
        Some(RunnerError::Blob(BlobError::TooFewFields))
    } else {
        None
    }
}

/// A block whose tree updates draw no evidence leaves the chain at the anchor that its header
/// names.
pub proof fn law_accepted_block_sets_its_anchor(
    header: BlockView,
    block: BlockContents,
    block_nr: u64,
    blocks: Map<u64, B256>,
)
    requires
        fits_trees(header, block),
        updates_of(block).len() > 0,
        tree_frauds(context_of(header, block_nr, blocks), updates_of(block)).len() == 0,
    ensures
        anchor_of(blocks.insert(tree_index_of(header.block_index) as u64, final_root(block)))
            == header.anchor,
{
    let ctx = context_of(header, block_nr, blocks);
    law_no_evidence_iff_correct(ctx, updates_of(block));
    law_checked_anchor_is_chain_anchor(ctx, updates_of(block), blocks);
}

/// A block whose header names another anchor than its leaves lead to draws evidence.
pub proof fn law_wrong_anchor_is_found(
    header: BlockView,
    block: BlockContents,
    block_nr: u64,
    blocks: Map<u64, B256>,
)
    requires
        fits_trees(header, block),
        updates_of(block).len() > 0,
        anchor_of(blocks.insert(tree_index_of(header.block_index) as u64, final_root(block)))
            != header.anchor,
    ensures
        tree_frauds(context_of(header, block_nr, blocks), updates_of(block)).len() > 0,
{
    if tree_frauds(context_of(header, block_nr, blocks), updates_of(block)).len() == 0 {
        law_accepted_block_sets_its_anchor(header, block, block_nr, blocks);
    }
}

/// After a rollback to a block, the anchors that are known are those of that block and of
/// earlier ones, as long as block numbers do not outgrow 32 bits.
pub proof fn law_rollback_keeps_anchors_of_target(anchors: Map<u128, B256>, to: u64)
    requires
        to < u32::MAX,
    ensures
        forall|b: u32, u: u32, d: bool| #[trigger]
            anchors_before(anchors, rollback_plan(to as nat).anchors_from).contains_key(
                anchor_key(b, u, d),
            ) <==> (anchors.contains_key(anchor_key(b, u, d)) && b <= to),
{
    law_rollback(anchors, (to + 1) as u32, 0);
}

/// The anchors that a block leaves are known after it under the block's number: the root after
/// each deposit group and after each transaction, each counted from zero. What was known of
/// other blocks stays as it was.
pub proof fn law_roots_of_block_are_known(
    anchors: Map<u128, B256>,
    block_nr: u32,
    block: BlockContents,
    i: int,
)
    requires
        block.deposit_groups.len() <= u32::MAX,
        block.transactions.len() <= u32::MAX,
    ensures
        ({
            let after = with_anchors(anchors, anchors_of_block(block_nr, block));
            &&& 0 <= i < block.deposit_groups.len() ==> {
                let key = anchor_key(block_nr, i as u32, true);
                after.contains_key(key) && after[key] == block.deposit_groups[i].new_root
            }
            &&& 0 <= i < block.transactions.len() ==> {
                let key = anchor_key(block_nr, i as u32, false);
                after.contains_key(key) && after[key] == block.transactions[i].new_root
            }
            &&& forall|b: u32, u: u32, d: bool|
                b != block_nr || u >= (if d {
                    block.deposit_groups.len()
                } else {
                    block.transactions.len()
                }) ==> {
                    let key = #[trigger] anchor_key(b, u, d);
                    &&& after.contains_key(key) <==> anchors.contains_key(key)
                    &&& anchors.contains_key(key) ==> after[key] == anchors[key]
                }
        }),
{
    let list = anchors_of_block(block_nr, block);
    let groups = block.deposit_groups.len();
    let after = with_anchors(anchors, list);
    if 0 <= i < groups {
        let at = (block_nr, i as u32, true);
        law_entered_anchors_are_known(anchors, list, at);
        assert(list[i] == (block_nr, i as u32, true, block.deposit_groups[i].new_root));
        assert forall|j: int| i < j < list.len() implies (
            #[trigger] list[j].0,
            list[j].1,
            list[j].2,
        ) != at by {
            if j < groups {
                assert(list[j].1 == j as u32);
            } else {
                assert(!list[j].2);
            }
        }
    }
    if 0 <= i < block.transactions.len() {
        let at = (block_nr, i as u32, false);
        law_entered_anchors_are_known(anchors, list, at);
        let n = groups + i;
        assert(list[n] == (block_nr, i as u32, false, block.transactions[i].new_root));
        assert forall|j: int| n < j < list.len() implies (
            #[trigger] list[j].0,
            list[j].1,
            list[j].2,
        ) != at by {
            assert(list[j].1 == (j - groups) as u32);
        }
    }
    assert forall|b: u32, u: u32, d: bool|
        b != block_nr || u >= (if d {
            block.deposit_groups.len()
        } else {
            block.transactions.len()
        }) implies {
        let key = #[trigger] anchor_key(b, u, d);
        &&& after.contains_key(key) <==> anchors.contains_key(key)
        &&& anchors.contains_key(key) ==> after[key] == anchors[key]
    } by {
        law_entered_anchors_are_known(anchors, list, (b, u, d));
        assert forall|j: int| 0 <= j < list.len() implies (
            #[trigger] list[j].0,
            list[j].1,
            list[j].2,
        ) != (b, u, d) by {
            if j < groups {
                assert(list[j].1 == j as u32 && list[j].2);
            } else {
                assert(list[j].1 == (j - groups) as u32 && !list[j].2);
            }
        }
    }
}

/// A rollback to a block takes back the nullifiers of that block and of later ones, the blocks
/// from it on with their roots, and the anchors of later blocks. A block number keeps its low
/// 32 bits where anchors are kept.
pub proof fn law_rollback_plan(to: u64)
    ensures
        rollback_plan(to as nat).nullifiers_from == to,
        rollback_plan(to as nat).blocks_from == to,
        to < u32::MAX ==> rollback_plan(to as nat).anchors_from == to + 1,
        to <= u32::MAX ==> short_block_nr(to) == to,
        to < u64::MAX ==> rollback_plan(to as nat).anchors_from == short_block_nr((to + 1) as u64),
        short_block_nr(to) as int == to as int % 0x1_0000_0000,
{
}

/// After a rollback every anchor that is still known is the one that was known before.
pub proof fn law_rollback_changes_no_anchor(anchors: Map<u128, B256>, to: u64, key: u128)
    ensures
        ({
            let after = anchors_before(anchors, rollback_plan(to as nat).anchors_from);
            after.contains_key(key) ==> anchors.contains_key(key) && after[key] == anchors[key]
        }),
{
}

/// What the tree updates of a block are checked against: they start at the first leaf, from the
/// anchor of the chain before the block, at the position that its day and its place in the day
/// give it, and the block before it is the one that left the anchor.
pub proof fn law_updates_start_from_the_chain(header: BlockView, block_nr: u64, blocks: Map<u64, B256>)
    requires
        header.block_index.day * 8192 + header.block_index.index <= 268435455,
    ensures
        ({
            let ctx = context_of(header, block_nr, blocks);
            &&& ctx.block == header
            &&& ctx.prior_anchor == anchor_of(blocks)
            &&& block_nr == 0 ==> ctx.prior_block_nr is None
            &&& block_nr > 0 ==> ctx.prior_block_nr == Some((block_nr - 1) as u64)
            &&& ctx.block_index == 8192 * header.block_index.day + header.block_index.index
            &&& ctx.start == 0
            &&& forall|root: B256|
                #![trigger climb(root, ctx.block_index as int, ctx.path, 28)]
                climb(root, ctx.block_index as int, ctx.path, 28) == anchor_of(
                    blocks.insert(ctx.block_index, root),
                )
            &&& tree_index_of(header.block_index) == ctx.block_index
        }),
{
    let ctx = context_of(header, block_nr, blocks);
    assert forall|root: B256|
        #![trigger climb(root, ctx.block_index as int, ctx.path, 28)]
        climb(root, ctx.block_index as int, ctx.path, 28) == anchor_of(
            blocks.insert(ctx.block_index, root),
        ) by {
        law_root_path(blocks, ctx.block_index, root);
    }
}

/// Blocks of different days, or at different places of one day, have different positions. There
/// is room for a block exactly where its position lies within the tree of twenty-eight levels,
/// and its leaves within one of sixteen.
pub proof fn law_room_for_a_block(header: BlockView, other: BlockView, block: BlockContents)
    ensures
        header.block_index.index < 8192 && other.block_index.index < 8192 && tree_index_of(
            header.block_index,
        ) == tree_index_of(other.block_index) ==> header.block_index == other.block_index,
        fits_trees(header, block) <==> (8192 * header.block_index.day + header.block_index.index
            < 0x1000_0000 && 3 * block.deposit_groups.len() + 3 * block.transactions.len()
            <= 0x1_0000),
{
}

/// The root that is entered for a block is that of a tree of sixteen levels over all its leaves,
/// those of its deposit groups first, from the first leaf on.
pub proof fn law_entered_root_is_that_of_the_leaves(block: BlockContents, leaves: Map<int, B256>)
    requires
        are_leaves_of(leaves, block, 0, block.deposit_groups.len() + block.transactions.len()),
    ensures
        final_root(block) == tree_root(leaves, 16),
{
    let ctx = TreeContext {
        block: arbitrary(),
        prior_anchor: arbitrary(),
        prior_block_nr: None,
        block_index: 0,
        start: 0,
        path: Seq::empty(),
    };
    law_anchor_is_that_of_all_leaves(
        ctx,
        block,
        block.deposit_groups.len() + block.transactions.len(),
        leaves,
    );
}

/// A block cannot be read exactly where one of its counts has more than 64 bits, or where it is
/// longer than its blobs; the reason that is given is the first that holds.
pub proof fn law_unreadable_iff(header: BlockView, num_blobs: nat)
    ensures
        ({
            let (n, m) = (header.num_deposits@, header.num_transactions@);
            let short = 4 * ((n + 2) / 3) + 15 * m > 4096 * num_blobs;
            &&& parse_failure(header, num_blobs) is None <==> (n <= u64::MAX && m <= u64::MAX
                && !short)
            &&& n > u64::MAX ==> parse_failure(header, num_blobs) == Some(
                RunnerError::DepositCountTooLarge,
            )
            &&& n <= u64::MAX && m > u64::MAX ==> parse_failure(header, num_blobs) == Some(
                RunnerError::TransactionCountTooLarge,
            )
            &&& n <= u64::MAX && m <= u64::MAX && short ==> parse_failure(header, num_blobs) == Some(
                RunnerError::Blob(BlobError::TooFewFields),
            )
        }),
{
}

/// Evidence of different kinds has different names, and evidence of one kind has one.
pub proof fn law_kinds_have_names(a: EvidenceView, b: EvidenceView)
    ensures
        kind_name(a)@ == kind_name(b)@ <==> {
            ||| a is DepositWrongLeaf && b is DepositWrongLeaf
            ||| a is DepositPaddingNotZero && b is DepositPaddingNotZero
            ||| a is NullifierDoubleSpend && b is NullifierDoubleSpend
            ||| a is InvalidTransactionProof && b is InvalidTransactionProof
            ||| a is InvalidAnchorReference && b is InvalidAnchorReference
            ||| a is MissingEthKeyAuth && b is MissingEthKeyAuth
            ||| a is IncorrectTreeUpdate && b is IncorrectTreeUpdate
        },
{
    reveal_strlit("DepositWrongLeaf");
    reveal_strlit("DepositPaddingNotZero");
    reveal_strlit("NullifierDoubleSpend");
    reveal_strlit("InvalidTransactionProof");
    reveal_strlit("InvalidAnchorReference");
    reveal_strlit("MissingEthKeyAuth");
    reveal_strlit("IncorrectTreeUpdate");
    assert(kind_name(a)@ == kind_name(b)@ ==> kind_name(a)@.len() == kind_name(b)@.len());
}

/// What is found is gathered piece by piece in its order, and a block that was read is what its
/// parts are.
pub proof fn law_found_evidence_says_what_each_says(
    list: Seq<FraudWithContext>,
    block: ParsedBlock,
    i: int,
)
    ensures
        found_evidence(list).len() == list.len(),
        0 <= i < list.len() ==> found_evidence(list)[i] == list[i].fraud@,
        block@.deposit_groups == block.deposit_groups@,
        block@.transactions == block.transactions@,
{
}

} // verus!
