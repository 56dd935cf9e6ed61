//! What a challenge is put together from: which blocks and blobs it needs, and where in them
//! the anchor stands that the challenged part goes on from.

use super::RunnerError;
use crate::beacon::blob_views;
use crate::blob::{block_contents, field_at, Blob};
use crate::challenge::found::{lemma_tree_fraud, updates_in};
use crate::challenge::laws::{law_tree_update_can_be_challenged, lemma_field_has_proof, readable};
use crate::challenge::memory::{
    anchor_address, anchor_memory_address, block_length, deposit_groups, root_address,
    root_memory_address, tx_address,
};
use crate::challenge::{
    challenged_update, genesis_challenge, proof_at, tree_update_challenge, update_in_reach, BlobWithHash,
    ChallengeBuilder, ChallengeError, TreeUpdateChallenge, TreeUpdateChallengeParams,
};
use crate::types::{BlockData, BlockView, Proof, B256};
use crate::validators::tree_update::{anchor_evidence, tree_frauds, updates_of, TreeContext};
use crate::validators::{EvidenceView, FraudEvidence};
use vstd::prelude::*;

verus! {

/// The block to roll back to: the one before.
pub open spec fn target_block(block_nr: u64) -> Option<u64> {
    if block_nr > 0 {
        Some((block_nr - 1) as u64)
    } else {
        None
    }
}

/// The block whose header a challenge names to roll back to: the one before the challenged
/// block. That of number zero has none before it.
pub fn rollback_target(block_nr: u64) -> (r: Option<u64>)
    ensures
        r == target_block(block_nr),
{
    if block_nr > 0 {
        Some(block_nr - 1)
    } else {
        None
    }
}

/// Whether a list is that of blobs with their hashes, as far as there are both.
pub open spec fn attached(
    list: Seq<BlobWithHash>,
    blobs: Seq<Seq<u8>>,
    hashes: Seq<B256>,
) -> bool {
    &&& list.len() == (if blobs.len() <= hashes.len() {
        blobs.len()
    } else {
        hashes.len()
    })
    &&& forall|i: int|
        0 <= i < list.len() ==> (#[trigger] list[i]).data@ == blobs[i] && list[i].hash
            == hashes[i]
}

/// Blobs with their hashes, as far as there are both.
pub fn attach_hashes<'a>(blobs: &'a [Vec<u8>], hashes: &[B256]) -> (r: Vec<BlobWithHash<'a>>)
    ensures
        attached(r@, blob_views(blobs@), hashes@),
{
    let mut list: Vec<BlobWithHash<'a>> = Vec::new();
    let mut i: usize = 0;
    while i < blobs.len() && i < hashes.len()
        invariant
            i <= blobs@.len(),
            i <= hashes@.len(),
            list@.len() == i,
            forall|j: int|
                0 <= j < i ==> (#[trigger] list@[j]).data@ == blobs@[j]@ && list@[j].hash
                    == hashes@[j],
        decreases blobs@.len() - i,
    {
        list.push(BlobWithHash { data: blobs[i].as_slice(), hash: hashes[i] });
        i += 1;
    }
    list
}

/// Where the anchor before a challenged update stands.
#[derive(Clone, Copy, Debug, PartialEq, Eq, Structural)]
pub enum PriorAnchor {
    /// In a field of the same block.
    SameBlock { field_index: usize },
    /// At the end of an earlier block.
    EarlierBlock { block_nr: u64 },
    /// Nowhere: it is the one before the first block.
    Genesis,
}

/// What a challenge needs besides the block that it is about.
#[derive(Clone, Copy, Debug, PartialEq, Eq, Structural)]
pub enum ChallengePlan {
    /// Nothing.
    Deposit,
    /// The two blocks that use the nullifier.
    Nullifier { first_block_nr: u64, second_block_nr: u64 },
    /// The block whose anchor the transaction refers to, and that anchor.
    Transaction { anchor_block_nr: u32, anchor_update_nr: u32, is_deposit: bool },
    /// A proof of the correct update, and the anchor before it.
    TreeUpdate { prior: PriorAnchor },
}

/// What a challenge of a tree update needs.
pub open spec fn tree_update_plan(
    header: BlockView,
    update_nr: u64,
    prior_anchor_block_nr: Option<u64>,
    prior_update_nr: Option<u64>,
    has_merkle_data: bool,
) -> Result<ChallengePlan, RunnerError> {
    if !has_merkle_data {
        Err(RunnerError::MissingMerkleData)
    } else {
        match prior_update_nr {
            Some(prior) => if header.num_deposits@ > u64::MAX {
                Err(RunnerError::DepositCountTooLarge)
            } else if prior >= update_nr {
                Err(RunnerError::PriorUpdateNotBefore { prior, update: update_nr })
            } else {
                Ok(
                    ChallengePlan::TreeUpdate {
                        prior: PriorAnchor::SameBlock {
                            field_index: root_address(
                                prior as nat,
                                header.num_deposits@,
                            ) as usize,
                        },
                    },
                )
            },
            None => match prior_anchor_block_nr {
                Some(block_nr) => Ok(
                    ChallengePlan::TreeUpdate { prior: PriorAnchor::EarlierBlock { block_nr } },
                ),
                None => Ok(ChallengePlan::TreeUpdate { prior: PriorAnchor::Genesis }),
            },
        }
    }
}

/// What a challenge needs, `header` being that of the block that it is about.
pub open spec fn plan_of(fraud: EvidenceView, header: BlockView) -> Result<
    ChallengePlan,
    RunnerError,
> {
    match fraud {
        EvidenceView::DepositWrongLeaf { .. } => Ok(ChallengePlan::Deposit),
        EvidenceView::DepositPaddingNotZero { .. } => Ok(ChallengePlan::Deposit),
        EvidenceView::NullifierDoubleSpend { first_block_nr, second_block_nr, .. } => Ok(
            ChallengePlan::Nullifier { first_block_nr, second_block_nr },
        ),
        EvidenceView::InvalidTransactionProof {
            anchor_block_nr,
            anchor_update_nr,
            is_deposit,
            ..
        } => Ok(ChallengePlan::Transaction { anchor_block_nr, anchor_update_nr, is_deposit }),
        EvidenceView::InvalidAnchorReference {
            anchor_block_nr,
            anchor_update_nr,
            is_deposit,
            ..
        } => Ok(ChallengePlan::Transaction { anchor_block_nr, anchor_update_nr, is_deposit }),
        EvidenceView::MissingEthKeyAuth {
            anchor_block_nr,
            anchor_update_nr,
            is_deposit,
            ..
        } => Ok(ChallengePlan::Transaction { anchor_block_nr, anchor_update_nr, is_deposit }),
        EvidenceView::IncorrectTreeUpdate {
            update_nr,
            prior_anchor_block_nr,
            prior_update_nr,
            merkle_data,
            ..
        } => tree_update_plan(
            header,
            update_nr,
            prior_anchor_block_nr,
            prior_update_nr,
            merkle_data is Some,
        ),
    }
}

/// Whether the anchor before a challenged update can be addressed in the same block.
pub open spec fn prior_in_reach(fraud: EvidenceView, header: BlockView) -> bool {
    match fraud {
        EvidenceView::IncorrectTreeUpdate { prior_update_nr, .. } => match prior_update_nr {
            Some(prior) => header.num_deposits@ <= u64::MAX ==> root_address(
                prior as nat,
                header.num_deposits@,
            ) <= usize::MAX,
            None => true,
        },
        _ => true,
    }
}

/// Finds out what a challenge needs.
pub fn plan_challenge(fraud: &FraudEvidence, block_data: &BlockData) -> (r: Result<
    ChallengePlan,
    RunnerError,
>)
    requires
        prior_in_reach(fraud@, block_data@),
    ensures
        r == plan_of(fraud@, block_data@),
{
    match fraud {
        FraudEvidence::DepositWrongLeaf { .. } => Ok(ChallengePlan::Deposit),
        FraudEvidence::DepositPaddingNotZero { .. } => Ok(ChallengePlan::Deposit),
        FraudEvidence::NullifierDoubleSpend { first_block_nr, second_block_nr, .. } => Ok(
            ChallengePlan::Nullifier {
                first_block_nr: *first_block_nr,
                second_block_nr: *second_block_nr,
            },
        ),
        FraudEvidence::InvalidTransactionProof {
            anchor_block_nr,
            anchor_update_nr,
            is_deposit,
            ..
        } => Ok(
            ChallengePlan::Transaction {
                anchor_block_nr: *anchor_block_nr,
                anchor_update_nr: *anchor_update_nr,
                is_deposit: *is_deposit,
            },
        ),
        FraudEvidence::InvalidAnchorReference {
            anchor_block_nr,
            anchor_update_nr,
            is_deposit,
            ..
        } => Ok(
            ChallengePlan::Transaction {
                anchor_block_nr: *anchor_block_nr,
                anchor_update_nr: *anchor_update_nr,
                is_deposit: *is_deposit,
            },
        ),
        FraudEvidence::MissingEthKeyAuth {
            anchor_block_nr,
            anchor_update_nr,
            is_deposit,
            ..
        } => Ok(
            ChallengePlan::Transaction {
                anchor_block_nr: *anchor_block_nr,
                anchor_update_nr: *anchor_update_nr,
                is_deposit: *is_deposit,
            },
        ),
        FraudEvidence::IncorrectTreeUpdate {
            update_nr,
            prior_anchor_block_nr,
            prior_update_nr,
            merkle_data,
            ..
        } => {
            if merkle_data.is_none() {
                return Err(RunnerError::MissingMerkleData);
            }
            match prior_update_nr {
                Some(prior) => {
                    let num_deposits: u64 = match block_data.num_deposits.to_u64() {
                        Some(n) => n,
                        None => {
                            return Err(RunnerError::DepositCountTooLarge);
                        },
                    };
                    if *prior >= *update_nr {
                        return Err(
                            RunnerError::PriorUpdateNotBefore {
                                prior: *prior,
                                update: *update_nr,
                            },
                        );
                    }
                    let field_index: u64 = root_memory_address(*prior, num_deposits);
                    Ok(
                        ChallengePlan::TreeUpdate {
                            prior: PriorAnchor::SameBlock { field_index: field_index as usize },
                        },
                    )
                },
                None => match prior_anchor_block_nr {
                    Some(block_nr) => Ok(
                        ChallengePlan::TreeUpdate {
                            prior: PriorAnchor::EarlierBlock { block_nr: *block_nr },
                        },
                    ),
                    None => Ok(ChallengePlan::TreeUpdate { prior: PriorAnchor::Genesis }),
                },
            }
        },
    }
}

/// The field that holds the anchor which a transaction refers to, in the block that left it.
pub fn transaction_anchor_index(block_data: &BlockData, update_nr: u32, is_deposit: bool) -> (r:
    Result<usize, RunnerError>)
    requires
        block_data@.num_deposits@ <= u64::MAX ==> anchor_address(
            update_nr as nat,
            block_data@.num_deposits@,
            is_deposit,
        ) <= usize::MAX,
    ensures
        r is Ok <==> block_data@.num_deposits@ <= u64::MAX,
        r matches Ok(index) ==> index == anchor_address(
            update_nr as nat,
            block_data@.num_deposits@,
            is_deposit,
        ),
        r matches Err(e) ==> e == RunnerError::DepositCountTooLarge,
{
    match block_data.num_deposits.to_u64() {
        Some(num_deposits) => Ok(
            anchor_memory_address(update_nr as u64, num_deposits, is_deposit) as usize,
        ),
        None => Err(RunnerError::DepositCountTooLarge),
    }
}

/// The number of the last update of a block, all updates being counted on.
pub open spec fn last_update_nr(header: BlockView) -> nat {
    let groups = deposit_groups(header.num_deposits@);
    if header.num_transactions@ > 0 {
        (groups + header.num_transactions@ - 1) as nat
    } else if groups > 0 {
        (groups - 1) as nat
    } else {
        0
    }
}

/// The field that holds the last anchor of a block: the root after its last update. A block
/// without updates has none, and is answered for like one with a deposit group.
pub open spec fn last_anchor_index(header: BlockView) -> nat {
    if header.num_deposits@ == 0 && header.num_transactions@ == 0 {
        anchor_address(0, 0, true)
    } else {
        root_address(last_update_nr(header), header.num_deposits@)
    }
}

/// Whether the field that holds the last anchor of a block can be addressed.
pub open spec fn earlier_in_reach(header: BlockView) -> bool {
    header.num_deposits@ <= u64::MAX && header.num_transactions@ <= u64::MAX
        ==> last_anchor_index(header) <= usize::MAX
}

/// The field that holds the last anchor of an earlier block.
pub fn earlier_anchor_index(block_data: &BlockData) -> (r: Result<usize, RunnerError>)
    requires
        earlier_in_reach(block_data@),
    ensures
        r is Ok <==> block_data@.num_deposits@ <= u64::MAX && block_data@.num_transactions@
            <= u64::MAX,
        r matches Ok(index) ==> index == last_anchor_index(block_data@),
        r matches Err(e) ==> e == (if block_data@.num_deposits@ > u64::MAX {
            RunnerError::DepositCountTooLarge
        } else {
            RunnerError::TransactionCountTooLarge
        }),
{
    let num_deposits: u64 = match block_data.num_deposits.to_u64() {
        Some(n) => n,
        None => {
            return Err(RunnerError::DepositCountTooLarge);
        },
    };
    let num_transactions: u64 = match block_data.num_transactions.to_u64() {
        Some(n) => n,
        None => {
            return Err(RunnerError::TransactionCountTooLarge);
        },
    };
    let groups: u64 = if num_deposits % 3 == 0 {
        num_deposits / 3
    } else {
        num_deposits / 3 + 1
    };
    let last: u64 = if num_transactions > 0 {
        groups + (num_transactions - 1)
    } else if groups > 0 {
        groups - 1
    } else {
        0
    };
    if num_deposits == 0 && num_transactions == 0 {
        return Ok(anchor_memory_address(0, 0, true) as usize);
    }
    Ok(root_memory_address(last, num_deposits) as usize)
}

/// The anchor that a proof of an update starts from.
pub fn starting_anchor(prior: PriorAnchor, prior_anchor: B256, genesis_anchor: B256) -> (r: B256)
    ensures
        r == (if prior is Genesis {
            genesis_anchor
        } else {
            prior_anchor
        }),
{
    match prior {
        PriorAnchor::Genesis => genesis_anchor,
        _ => prior_anchor,
    }
}

/// The anchor that evidence against a tree update expects.
pub open spec fn expected_anchor_of(fraud: EvidenceView) -> Option<B256> {
    match fraud {
        EvidenceView::IncorrectTreeUpdate { expected_anchor, .. } => Some(expected_anchor),
        _ => None,
    }
}

/// The challenge of a tree update, once its proof is there: the proof has to lead to the
/// anchor that is expected.
pub open spec fn finished_tree_update(
    fraud: EvidenceView,
    blobs: Seq<BlobWithHash>,
    from_genesis: bool,
    prior_anchor: B256,
    prior_anchor_blobs: Seq<BlobWithHash>,
    prior_anchor_field_index: nat,
    true_anchor: B256,
    zk_proof: Proof,
    rollback_target_block: BlockView,
) -> Result<TreeUpdateChallenge, RunnerError> {
    match expected_anchor_of(fraud) {
        None => Err(RunnerError::Challenge(ChallengeError::ExpectedTreeUpdateEvidence)),
        Some(expected) => if true_anchor != expected {
            Err(RunnerError::AnchorMismatch)
        } else {
            let built = if from_genesis {
                genesis_challenge(
                    fraud,
                    blobs,
                    prior_anchor,
                    true_anchor,
                    zk_proof,
                    rollback_target_block,
                )
            } else {
                tree_update_challenge(
                    fraud,
                    blobs,
                    prior_anchor,
                    prior_anchor_blobs,
                    prior_anchor_field_index,
                    true_anchor,
                    zk_proof,
                    rollback_target_block,
                )
            };
            match built {
                Ok(challenge) => Ok(challenge),
                Err(e) => Err(RunnerError::Challenge(e)),
            }
        },
    }
}

/// Builds the challenge of a tree update, once its proof is there.
pub fn finish_tree_update(
    builder: &ChallengeBuilder,
    fraud: &FraudEvidence,
    blobs: &[BlobWithHash],
    from_genesis: bool,
    prior_anchor: B256,
    prior_anchor_blobs: &[BlobWithHash],
    prior_anchor_field_index: usize,
    true_anchor: B256,
    zk_proof: Proof,
    rollback_target_block: BlockData,
) -> (r: Result<TreeUpdateChallengeParams, RunnerError>)
    requires
        from_genesis ==> (challenged_update(fraud@) matches Ok((block, _, is_tx)) ==> is_tx
            && block.num_deposits@ <= u64::MAX ==> tx_address(0, block.num_deposits@) + 15
            <= usize::MAX),
        !from_genesis ==> update_in_reach(fraud@),
    ensures
        r matches Ok(p) ==> finished_tree_update(
            fraud@,
            blobs@,
            from_genesis,
            prior_anchor,
            prior_anchor_blobs@,
            prior_anchor_field_index as nat,
            true_anchor,
            zk_proof,
            rollback_target_block@,
        ) == Ok::<_, RunnerError>(p@),
        r matches Err(e) ==> finished_tree_update(
            fraud@,
            blobs@,
            from_genesis,
            prior_anchor,
            prior_anchor_blobs@,
            prior_anchor_field_index as nat,
            true_anchor,
            zk_proof,
            rollback_target_block@,
        ) == Err::<TreeUpdateChallenge, _>(e),
{
    let expected = match fraud {
        FraudEvidence::IncorrectTreeUpdate { expected_anchor, .. } => *expected_anchor,
        _ => {
            return Err(RunnerError::Challenge(ChallengeError::ExpectedTreeUpdateEvidence));
        },
    };
    if true_anchor != expected {
        return Err(RunnerError::AnchorMismatch);
    }
    let built = if from_genesis {
        builder.build_tree_update_challenge_genesis(
            fraud,
            blobs,
            prior_anchor,
            true_anchor,
            zk_proof,
            rollback_target_block,
        )
    } else {
        builder.build_tree_update_challenge_multi_blob(
            fraud,
            blobs,
            prior_anchor,
            prior_anchor_blobs,
            prior_anchor_field_index,
            true_anchor,
            zk_proof,
            rollback_target_block,
        )
    };
    match built {
        Ok(params) => Ok(params),
        Err(e) => Err(RunnerError::Challenge(e)),
    }
}

/// The root after an update of a block stands in the field that the layout gives it.
proof fn lemma_root_at_address(fields: Seq<Blob>, num_deposits: nat, num_transactions: nat, p: int)
    requires
        0 <= p < deposit_groups(num_deposits) + num_transactions,
    ensures
        ({
            let updates = updates_of(block_contents(fields, num_deposits, num_transactions));
            field_at(fields, root_address(p as nat, num_deposits) as int) == updates[p].new_root
        }),
        root_address(p as nat, num_deposits) < block_length(num_deposits, num_transactions),
{
    let groups = deposit_groups(num_deposits);
    if p < groups {
        assert(root_address(p as nat, num_deposits) == 4 * p + 3);
    } else {
        assert(root_address(p as nat, num_deposits) == tx_address((p - groups) as nat, num_deposits)
            + 14);
    }
}

/// The field that a challenge names in the same block holds the anchor before the update:
/// the root after the update before it. This holds of every update of a block but the first,
/// whichever anchor is submitted for the state after it.
pub proof fn law_prior_anchor_in_same_block(
    ctx: TreeContext,
    fields: Seq<Blob>,
    num_deposits: nat,
    num_transactions: nat,
    k: int,
    submitted: B256,
)
    requires
        ctx.block.num_deposits@ == num_deposits,
        num_deposits <= u64::MAX,
        0 < k < deposit_groups(num_deposits) + num_transactions,
        k <= u64::MAX,
        root_address((k - 1) as nat, num_deposits) <= usize::MAX,
    ensures
        ({
            let updates = updates_of(block_contents(fields, num_deposits, num_transactions));
            let evidence = anchor_evidence(ctx, updates, k, submitted);
            plan_of(evidence, ctx.block) matches Ok(ChallengePlan::TreeUpdate {
                prior: PriorAnchor::SameBlock { field_index },
            }) && field_index == root_address((k - 1) as nat, num_deposits) && field_at(
                fields,
                field_index as int,
            ) == updates[k - 1].new_root && evidence->IncorrectTreeUpdate_prior_anchor
                == updates[k - 1].new_root
        }),
{
    assert((k - 1) as u64 as nat == k - 1);
    lemma_root_at_address(fields, num_deposits, num_transactions, k - 1);
}

/// The field that is named for the last anchor of a block holds the root after its last
/// update.
pub proof fn law_last_anchor_of_block(header: BlockView, fields: Seq<Blob>)
    requires
        header.num_deposits@ > 0 || header.num_transactions@ > 0,
    ensures
        ({
            let updates = updates_of(
                block_contents(fields, header.num_deposits@, header.num_transactions@),
            );
            updates.len() > 0 && field_at(fields, last_anchor_index(header) as int)
                == updates.last().new_root
        }),
{
    let updates = updates_of(
        block_contents(fields, header.num_deposits@, header.num_transactions@),
    );
    let groups = deposit_groups(header.num_deposits@);
    assert(groups > 0 <==> header.num_deposits@ > 0);
    assert(last_update_nr(header) == updates.len() - 1);
    lemma_root_at_address(
        fields,
        header.num_deposits@,
        header.num_transactions@,
        updates.len() - 1,
    );
}

/// Every piece of evidence that is found against the tree updates of a block, that against
/// its header among it, has a plan: the anchor that the update goes on from is in the same
/// block, at the end of the block before, or the one before the first block.
pub proof fn law_tree_frauds_have_a_plan(ctx: TreeContext, fields: Seq<Blob>, i: int)
    requires
        ctx.block.num_deposits@ <= u64::MAX,
        updates_in(ctx.block, fields).len() <= u64::MAX,
        0 <= i < tree_frauds(ctx, updates_in(ctx.block, fields)).len(),
    ensures
        plan_of(tree_frauds(ctx, updates_in(ctx.block, fields))[i], ctx.block) matches Ok(
            ChallengePlan::TreeUpdate { prior },
        ) && (match prior {
            PriorAnchor::SameBlock { .. } => true,
            PriorAnchor::EarlierBlock { block_nr } => ctx.prior_block_nr == Some(block_nr),
            PriorAnchor::Genesis => ctx.prior_block_nr is None,
        }),
{
    lemma_tree_fraud(ctx, updates_in(ctx.block, fields), i);
}

/// Evidence against an update of a block, but the first, is challenged from the blobs of that
/// block alone, where they can be committed to: the field that the plan names opens the
/// anchor which the evidence says the update went on from.
pub proof fn law_later_update_is_challenged_from_its_block(
    ctx: TreeContext,
    blobs: Seq<BlobWithHash>,
    fields: Seq<Blob>,
    k: int,
    submitted: B256,
    true_anchor: B256,
    zk_proof: Proof,
    rollback_target_block: BlockView,
)
    requires
        ctx.block.num_deposits@ <= u64::MAX,
        readable(blobs, fields, ctx.block.num_deposits@, ctx.block.num_transactions@),
        0 < k < deposit_groups(ctx.block.num_deposits@) + ctx.block.num_transactions@,
        k <= u64::MAX,
        root_address((k - 1) as nat, ctx.block.num_deposits@) <= usize::MAX,
    ensures
        ({
            let evidence = anchor_evidence(ctx, updates_in(ctx.block, fields), k, submitted);
            &&& plan_of(evidence, ctx.block) matches Ok(ChallengePlan::TreeUpdate {
                prior: PriorAnchor::SameBlock { field_index },
            })
            &&& tree_update_challenge(
                evidence,
                blobs,
                evidence->IncorrectTreeUpdate_prior_anchor,
                blobs,
                field_index as nat,
                true_anchor,
                zk_proof,
                rollback_target_block,
            ) matches Ok(challenge)
            &&& proof_at(blobs, field_index as nat) matches Ok((opened, _))
            &&& opened.value == challenge.prior_anchor@
            &&& opened.proof == challenge.prior_anchor_proof
            &&& opened.commitment == challenge.prior_anchor_commitment
        }),
{
    let nd = ctx.block.num_deposits@;
    let nt = ctx.block.num_transactions@;
    let updates = updates_in(ctx.block, fields);
    let evidence = anchor_evidence(ctx, updates, k, submitted);
    let at = root_address((k - 1) as nat, nd);
    law_prior_anchor_in_same_block(ctx, fields, nd, nt, k, submitted);
    lemma_root_at_address(fields, nd, nt, k - 1);
    lemma_field_has_proof(blobs, fields, nd, nt, at);
    law_tree_update_can_be_challenged(
        evidence,
        blobs,
        fields,
        nt,
        evidence->IncorrectTreeUpdate_prior_anchor,
        blobs,
        at,
        true_anchor,
        zk_proof,
        rollback_target_block,
    );
}

/// What a challenge needs is what its evidence names: a deposit nothing, a double spend its two
/// blocks, a transaction the anchor that it refers to, and a tree update the anchor that it went
/// on from: the root that the update before it in the same block left, the last root of the
/// block that is named, or else the anchor before the first block.
pub proof fn law_plan_is_what_the_evidence_names(fraud: EvidenceView, header: BlockView)
    ensures
        match fraud {
            EvidenceView::DepositWrongLeaf { .. } => plan_of(fraud, header) == Ok::<_, RunnerError>(
                ChallengePlan::Deposit,
            ),
            EvidenceView::DepositPaddingNotZero { .. } => plan_of(fraud, header) == Ok::<
                _,
                RunnerError,
            >(ChallengePlan::Deposit),
            EvidenceView::NullifierDoubleSpend { first_block_nr, second_block_nr, .. } => plan_of(
                fraud,
                header,
            ) == Ok::<_, RunnerError>(
                ChallengePlan::Nullifier { first_block_nr, second_block_nr },
            ),
            EvidenceView::InvalidTransactionProof {
                anchor_block_nr,
                anchor_update_nr,
                is_deposit,
                ..
            } => plan_of(fraud, header) == Ok::<_, RunnerError>(
                ChallengePlan::Transaction { anchor_block_nr, anchor_update_nr, is_deposit },
            ),
            EvidenceView::InvalidAnchorReference {
                anchor_block_nr,
                anchor_update_nr,
                is_deposit,
                ..
            } => plan_of(fraud, header) == Ok::<_, RunnerError>(
                ChallengePlan::Transaction { anchor_block_nr, anchor_update_nr, is_deposit },
            ),
            EvidenceView::MissingEthKeyAuth {
                anchor_block_nr,
                anchor_update_nr,
                is_deposit,
                ..
            } => plan_of(fraud, header) == Ok::<_, RunnerError>(
                ChallengePlan::Transaction { anchor_block_nr, anchor_update_nr, is_deposit },
            ),
            EvidenceView::IncorrectTreeUpdate {
                update_nr,
                prior_anchor_block_nr,
                prior_update_nr,
                merkle_data,
                ..
            } => {
                let groups = (header.num_deposits@ + 2) / 3;
                &&& merkle_data is None <==> plan_of(fraud, header) == Err::<ChallengePlan, _>(
                    RunnerError::MissingMerkleData,
                )
                &&& plan_of(fraud, header) is Ok <==> (merkle_data is Some && (
                prior_update_nr matches Some(prior) ==> header.num_deposits@ <= u64::MAX && prior
                    < update_nr))
                &&& plan_of(fraud, header) matches Ok(plan) ==> {
                    &&& plan matches ChallengePlan::TreeUpdate { prior }
                    &&& match (prior_update_nr, prior_anchor_block_nr) {
                        (Some(before), _) => prior == (PriorAnchor::SameBlock {
                            field_index: (if before < groups {
                                4 * before + 3
                            } else {
                                4 * groups + 15 * (before - groups) + 14
                            }) as usize,
                        }),
                        (None, Some(block_nr)) => prior == (PriorAnchor::EarlierBlock { block_nr }),
                        (None, None) => prior is Genesis,
                    }
                }
            },
        },
{
}

/// The block to roll back to is the one before, where there is one.
pub proof fn law_target_is_the_block_before(block_nr: u64)
    ensures
        target_block(block_nr) is None <==> block_nr == 0,
        target_block(block_nr) matches Some(target) ==> target + 1 == block_nr,
{
}

/// Every blob is attached to the hash of the same place, as far as there are both.
pub proof fn law_blobs_go_with_their_hashes(
    list: Seq<BlobWithHash>,
    blobs: Seq<Seq<u8>>,
    hashes: Seq<B256>,
    i: int,
)
    requires
        attached(list, blobs, hashes),
    ensures
        (0 <= i < list.len()) <==> (0 <= i < blobs.len() && i < hashes.len()),
        0 <= i < list.len() ==> list[i].data@ == blobs[i] && list[i].hash == hashes[i],
{
}

/// The last root of a block that has updates stands in the block's last field.
pub proof fn law_last_anchor_is_the_last_field(header: BlockView)
    ensures
        header.num_deposits@ > 0 || header.num_transactions@ > 0 ==> last_anchor_index(header) + 1
            == 4 * ((header.num_deposits@ + 2) / 3) + 15 * header.num_transactions@,
        header.num_deposits@ == 0 && header.num_transactions@ == 0 ==> last_anchor_index(header) == 3,
{
}

/// A challenge of a tree update is only built where its proof leads to the anchor that the
/// evidence expects. It then is the challenge from the given prior anchor, or, for the first
/// update of the first block, the one that takes no proof of that.
pub proof fn law_proof_has_to_lead_to_the_expected_anchor(
    fraud: EvidenceView,
    blobs: Seq<BlobWithHash>,
    from_genesis: bool,
    prior_anchor: B256,
    prior_anchor_blobs: Seq<BlobWithHash>,
    prior_anchor_field_index: nat,
    true_anchor: B256,
    zk_proof: Proof,
    rollback_target_block: BlockView,
)
    requires
        fraud is IncorrectTreeUpdate,
    ensures
        ({
            let expected = fraud->IncorrectTreeUpdate_expected_anchor;
            let outcome = finished_tree_update(
                fraud,
                blobs,
                from_genesis,
                prior_anchor,
                prior_anchor_blobs,
                prior_anchor_field_index,
                true_anchor,
                zk_proof,
                rollback_target_block,
            );
            &&& true_anchor != expected ==> outcome == Err::<TreeUpdateChallenge, _>(
                RunnerError::AnchorMismatch,
            )
            &&& outcome matches Ok(challenge) ==> {
                &&& challenge.true_anchor == expected
                &&& challenge.prior_anchor == prior_anchor
                &&& challenge.zk_proof == zk_proof
                &&& challenge.rollback_target_block == rollback_target_block
                &&& from_genesis ==> genesis_challenge(
                    fraud,
                    blobs,
                    prior_anchor,
                    true_anchor,
                    zk_proof,
                    rollback_target_block,
                ) == Ok::<_, ChallengeError>(challenge)
                &&& !from_genesis ==> tree_update_challenge(
                    fraud,
                    blobs,
                    prior_anchor,
                    prior_anchor_blobs,
                    prior_anchor_field_index,
                    true_anchor,
                    zk_proof,
                    rollback_target_block,
                ) == Ok::<_, ChallengeError>(challenge)
            }
        }),
{
}

} // verus!
