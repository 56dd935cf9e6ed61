//! That every piece of evidence which a check of a block finds has its challenge.

use super::laws::{
    law_deposit_can_be_challenged, law_double_spend_can_be_challenged,
    law_transaction_can_be_challenged, law_tree_update_can_be_challenged, readable, uses_in,
};
use super::params::{
    challenged_transaction, deposit_challenge, nullifier_challenge, proof_at, transaction_challenge,
    tree_update_challenge, BlobWithHash,
};
use crate::blob::{block_contents, Blob, BlockContents, DecodedAnchorInfo};
use crate::groth16::KeyView;
use crate::types::{BlockView, Proof, B256};
use crate::validators::deposit::{checked_deposits, deposit_frauds, leaf_frauds};
use crate::validators::nullifier::{
    cross_block_frauds, double_spend, first_uses, in_block_frauds, lookup, NullifierRecord,
};
use crate::validators::transaction::{block_verdicts, transaction_frauds, AnchorsView};
use crate::validators::tree_update::{
    anchor_evidence, tree_frauds, update_evidence, update_frauds, updates_of, TreeContext,
    TreeUpdate,
};
use crate::validators::EvidenceView;
use vstd::prelude::*;

verus! {

/// The evidence against leaves points at deposits that were compared.
proof fn lemma_leaf_frauds(
    header: BlockView,
    block: BlockContents,
    expected: Seq<B256>,
    count: nat,
    i: int,
)
    requires
        count <= u64::MAX,
        0 <= i < leaf_frauds(header, block, expected, count).len(),
    ensures
        leaf_frauds(header, block, expected, count)[i] matches EvidenceView::DepositWrongLeaf {
            block: found_in,
            deposit_nr,
            ..
        } && found_in == header && deposit_nr < count,
    decreases count,
{
    if count > 0 {
        let before = leaf_frauds(header, block, expected, (count - 1) as nat);
        if i < before.len() {
            lemma_leaf_frauds(header, block, expected, (count - 1) as nat, i);
        }
    }
}

/// Every piece of evidence that is found against the deposits of a block has its challenge,
/// where the block is read from blobs which can be committed to.
pub proof fn law_deposit_frauds_can_be_challenged(
    header: BlockView,
    blobs: Seq<BlobWithHash>,
    fields: Seq<Blob>,
    expected: Seq<B256>,
    i: int,
    prior_block: BlockView,
)
    requires
        readable(blobs, fields, header.num_deposits@, header.num_transactions@),
        0 <= i < deposit_frauds(
            header,
            block_contents(fields, header.num_deposits@, header.num_transactions@),
            expected,
        ).len(),
    ensures
        deposit_challenge(
            deposit_frauds(
                header,
                block_contents(fields, header.num_deposits@, header.num_transactions@),
                expected,
            )[i],
            blobs,
            prior_block,
        ) matches Ok(challenge) && challenge.block == header,
{
    let n = header.num_deposits@;
    let block = block_contents(fields, n, header.num_transactions@);
    let frauds = deposit_frauds(header, block, expected);
    let leaves = leaf_frauds(header, block, expected, checked_deposits(header, expected));
    if i < leaves.len() {
        lemma_leaf_frauds(header, block, expected, checked_deposits(header, expected), i);
        assert(frauds[i] == leaves[i]);
    }
    law_deposit_can_be_challenged(
        frauds[i],
        blobs,
        fields,
        n,
        header.num_transactions@,
        prior_block,
    );
}

/// What is looked up in a list stands in it.
proof fn lemma_lookup_found(list: Seq<(B256, NullifierRecord)>, nullifier: B256) -> (j: int)
    requires
        lookup(list, nullifier) is Some,
    ensures
        0 <= j < list.len(),
        list[j] == (nullifier, lookup(list, nullifier)->0),
    decreases list.len(),
{
    if lookup(list.drop_last(), nullifier) is Some {
        lemma_lookup_found(list.drop_last(), nullifier)
    } else {
        list.len() - 1
    }
}

/// The first uses are uses.
proof fn lemma_first_use(uses: Seq<(B256, NullifierRecord)>, count: nat, j: int) -> (u: int)
    requires
        count <= uses.len(),
        0 <= j < first_uses(uses, count).len(),
    ensures
        0 <= u < uses.len(),
        uses[u] == first_uses(uses, count)[j],
    decreases count,
{
    let before = first_uses(uses, (count - 1) as nat);
    if j < before.len() {
        lemma_first_use(uses, (count - 1) as nat, j)
    } else {
        count - 1
    }
}

/// The evidence within a block names two uses of one nullifier.
proof fn lemma_in_block_fraud(uses: Seq<(B256, NullifierRecord)>, count: nat, i: int) -> (r: (
    int,
    int,
))
    requires
        count <= uses.len(),
        0 <= i < in_block_frauds(uses, count).len(),
    ensures
        0 <= r.0 < uses.len(),
        0 <= r.1 < uses.len(),
        uses[r.0].0 == uses[r.1].0,
        in_block_frauds(uses, count)[i] == double_spend(uses[r.0].0, uses[r.0].1, uses[r.1].1),
    decreases count,
{
    let before = in_block_frauds(uses, (count - 1) as nat);
    if i < before.len() {
        lemma_in_block_fraud(uses, (count - 1) as nat, i)
    } else {
        let earlier = first_uses(uses, (count - 1) as nat);
        let j = lemma_lookup_found(earlier, uses[count - 1].0);
        let u = lemma_first_use(uses, (count - 1) as nat, j);
        (u, count - 1)
    }
}

/// Every piece of evidence that a block uses a nullifier twice has its challenge, where the
/// block is read from blobs which can be committed to.
pub proof fn law_double_spends_in_block_can_be_challenged(
    block_nr: u64,
    header: BlockView,
    blobs: Seq<BlobWithHash>,
    fields: Seq<Blob>,
    i: int,
    prior_block: BlockView,
)
    requires
        header.num_deposits@ <= u64::MAX,
        header.num_transactions@ <= u32::MAX,
        readable(blobs, fields, header.num_deposits@, header.num_transactions@),
        0 <= i < in_block_frauds(
            uses_in(block_nr, fields, header),
            uses_in(block_nr, fields, header).len(),
        ).len(),
    ensures
        nullifier_challenge(
            in_block_frauds(
                uses_in(block_nr, fields, header),
                uses_in(block_nr, fields, header).len(),
            )[i],
            blobs,
            blobs,
            header,
            header,
            prior_block,
        ) is Ok,
{
    let uses = uses_in(block_nr, fields, header);
    let (first, second) = lemma_in_block_fraud(uses, uses.len(), i);
    law_double_spend_can_be_challenged(
        block_nr,
        blobs,
        fields,
        header,
        first,
        block_nr,
        blobs,
        fields,
        header,
        second,
        prior_block,
    );
}

/// The evidence against earlier blocks names a use in the block, and what is recorded of its
/// nullifier.
proof fn lemma_cross_block_fraud(
    fresh: Seq<(B256, NullifierRecord)>,
    existing: Seq<(B256, NullifierRecord)>,
    count: nat,
    i: int,
) -> (j: int)
    requires
        count <= fresh.len(),
        0 <= i < cross_block_frauds(fresh, existing, count).len(),
    ensures
        0 <= j < fresh.len(),
        lookup(existing, fresh[j].0) is Some,
        cross_block_frauds(fresh, existing, count)[i] == double_spend(
            fresh[j].0,
            lookup(existing, fresh[j].0)->0,
            fresh[j].1,
        ),
    decreases count,
{
    let before = cross_block_frauds(fresh, existing, (count - 1) as nat);
    if i < before.len() {
        lemma_cross_block_fraud(fresh, existing, (count - 1) as nat, i)
    } else {
        count - 1
    }
}

/// Every piece of evidence that a block uses a nullifier of an earlier one has its challenge,
/// where both blocks are read from blobs which can be committed to, and what is recorded of
/// the nullifier is its use in the earlier block.
pub proof fn law_double_spends_across_blocks_can_be_challenged(
    block_nr: u64,
    header: BlockView,
    blobs: Seq<BlobWithHash>,
    fields: Seq<Blob>,
    existing: Seq<(B256, NullifierRecord)>,
    i: int,
    first_block_nr: u64,
    first_header: BlockView,
    first_blobs: Seq<BlobWithHash>,
    first_fields: Seq<Blob>,
    first_use: int,
    prior_block: BlockView,
)
    requires
        header.num_deposits@ <= u64::MAX,
        header.num_transactions@ <= u32::MAX,
        readable(blobs, fields, header.num_deposits@, header.num_transactions@),
        first_header.num_deposits@ <= u64::MAX,
        first_header.num_transactions@ <= u32::MAX,
        readable(
            first_blobs,
            first_fields,
            first_header.num_deposits@,
            first_header.num_transactions@,
        ),
        0 <= i < found_across_blocks(block_nr, header, fields, existing).len(),
        0 <= first_use < uses_in(first_block_nr, first_fields, first_header).len(),
        ({
            let (nullifier, record) = uses_in(first_block_nr, first_fields, first_header)[first_use];
            let evidence = found_across_blocks(block_nr, header, fields, existing)[i];
            nullifier == evidence->NullifierDoubleSpend_nullifier && lookup(existing, nullifier)
                == Some(record)
        }),
    ensures
        nullifier_challenge(
            found_across_blocks(block_nr, header, fields, existing)[i],
            first_blobs,
            blobs,
            first_header,
            header,
            prior_block,
        ) is Ok,
{
    let uses = uses_in(block_nr, fields, header);
    let fresh = first_uses(uses, uses.len());
    let j = lemma_cross_block_fraud(fresh, existing, fresh.len(), i);
    let second_use = lemma_first_use(uses, uses.len(), j);
    law_double_spend_can_be_challenged(
        first_block_nr,
        first_blobs,
        first_fields,
        first_header,
        first_use,
        block_nr,
        blobs,
        fields,
        header,
        second_use,
        prior_block,
    );
}

/// The evidence that a block which is read from fields uses nullifiers of earlier blocks.
pub open spec fn found_across_blocks(
    block_nr: u64,
    header: BlockView,
    fields: Seq<Blob>,
    existing: Seq<(B256, NullifierRecord)>,
) -> Seq<EvidenceView> {
    let uses = uses_in(block_nr, fields, header);
    let fresh = first_uses(uses, uses.len());
    cross_block_frauds(fresh, existing, fresh.len())
}

/// The evidence against transactions points at transactions of the block.
proof fn lemma_transaction_frauds(
    key: KeyView,
    anchors: AnchorsView,
    header: BlockView,
    block: BlockContents,
    infos: Seq<DecodedAnchorInfo>,
    authorized: Seq<bool>,
    count: nat,
    i: int,
)
    requires
        count <= block.transactions.len() <= u64::MAX,
        0 <= i < transaction_frauds(
            block_verdicts(key, anchors, header, block.transactions, infos),
            authorized,
            count,
        ).len(),
    ensures
        challenged_transaction(
            transaction_frauds(
                block_verdicts(key, anchors, header, block.transactions, infos),
                authorized,
                count,
            )[i],
        ) matches Ok((found_in, tx_nr)) && found_in == header && tx_nr < count,
    decreases count,
{
    let verdicts = block_verdicts(key, anchors, header, block.transactions, infos);
    let before = transaction_frauds(verdicts, authorized, (count - 1) as nat);
    if i < before.len() {
        lemma_transaction_frauds(
            key,
            anchors,
            header,
            block,
            infos,
            authorized,
            (count - 1) as nat,
            i,
        );
    }
}

/// Every piece of evidence that is found against the transactions of a block has its
/// challenge, where the block is read from blobs which can be committed to and the anchor
/// has a proof.
pub proof fn law_transaction_frauds_can_be_challenged(
    key: KeyView,
    anchors: AnchorsView,
    header: BlockView,
    blobs: Seq<BlobWithHash>,
    fields: Seq<Blob>,
    infos: Seq<DecodedAnchorInfo>,
    authorized: Seq<bool>,
    i: int,
    anchor: B256,
    prior_anchor_block: BlockView,
    prior_anchor_blobs: Seq<BlobWithHash>,
    prior_anchor_field_index: nat,
    rollback_target_block: BlockView,
)
    requires
        header.num_deposits@ <= u64::MAX,
        header.num_transactions@ <= u64::MAX,
        readable(blobs, fields, header.num_deposits@, header.num_transactions@),
        proof_at(prior_anchor_blobs, prior_anchor_field_index) is Ok,
        0 <= i < found_in_transactions(key, anchors, header, fields, infos, authorized).len(),
    ensures
        transaction_challenge(
            found_in_transactions(key, anchors, header, fields, infos, authorized)[i],
            blobs,
            anchor,
            prior_anchor_block,
            prior_anchor_blobs,
            prior_anchor_field_index,
            rollback_target_block,
        ) matches Ok(challenge) && challenge.block == header,
{
    let block = block_contents(fields, header.num_deposits@, header.num_transactions@);
    lemma_transaction_frauds(
        key,
        anchors,
        header,
        block,
        infos,
        authorized,
        block.transactions.len(),
        i,
    );
    law_transaction_can_be_challenged(
        found_in_transactions(key, anchors, header, fields, infos, authorized)[i],
        blobs,
        fields,
        header.num_transactions@,
        anchor,
        prior_anchor_block,
        prior_anchor_blobs,
        prior_anchor_field_index,
        rollback_target_block,
    );
}

/// The evidence that is found against the transactions of a block which is read from fields.
pub open spec fn found_in_transactions(
    key: KeyView,
    anchors: AnchorsView,
    header: BlockView,
    fields: Seq<Blob>,
    infos: Seq<DecodedAnchorInfo>,
    authorized: Seq<bool>,
) -> Seq<EvidenceView> {
    let block = block_contents(fields, header.num_deposits@, header.num_transactions@);
    transaction_frauds(
        block_verdicts(key, anchors, header, block.transactions, infos),
        authorized,
        block.transactions.len(),
    )
}

/// The evidence against updates is that of updates of the block.
proof fn lemma_update_fraud(ctx: TreeContext, updates: Seq<TreeUpdate>, count: nat, i: int) -> (k:
    int)
    requires
        count <= updates.len(),
        0 <= i < update_frauds(ctx, updates, count).len(),
    ensures
        0 <= k < count,
        update_frauds(ctx, updates, count)[i] == update_evidence(ctx, updates, k),
    decreases count,
{
    let before = update_frauds(ctx, updates, (count - 1) as nat);
    if i < before.len() {
        lemma_update_fraud(ctx, updates, (count - 1) as nat, i)
    } else {
        count - 1
    }
}

/// The evidence against tree updates is that of an update of the block, and of the anchor
/// that is submitted for the state after it.
pub proof fn lemma_tree_fraud(ctx: TreeContext, updates: Seq<TreeUpdate>, i: int) -> (k: int)
    requires
        0 <= i < tree_frauds(ctx, updates).len(),
    ensures
        0 <= k < updates.len(),
        tree_frauds(ctx, updates)[i] == anchor_evidence(
            ctx,
            updates,
            k,
            if i < update_frauds(ctx, updates, updates.len()).len() {
                updates[k].new_root
            } else {
                ctx.block.anchor
            },
        ),
{
    let against_updates = update_frauds(ctx, updates, updates.len());
    if i < against_updates.len() {
        lemma_update_fraud(ctx, updates, updates.len(), i)
    } else {
        updates.len() - 1
    }
}

/// Every piece of evidence that is found against the tree updates of a block, that against
/// its header among it, has its challenge, where the block is read from blobs which can be
/// committed to and the prior anchor has a proof.
pub proof fn law_tree_frauds_can_be_challenged(
    ctx: TreeContext,
    blobs: Seq<BlobWithHash>,
    fields: Seq<Blob>,
    i: int,
    prior_anchor: B256,
    prior_anchor_blobs: Seq<BlobWithHash>,
    prior_anchor_field_index: nat,
    true_anchor: B256,
    zk_proof: Proof,
    rollback_target_block: BlockView,
)
    requires
        ctx.block.num_deposits@ <= u64::MAX,
        readable(blobs, fields, ctx.block.num_deposits@, ctx.block.num_transactions@),
        updates_in(ctx.block, fields).len() <= u64::MAX,
        proof_at(prior_anchor_blobs, prior_anchor_field_index) is Ok,
        0 <= i < tree_frauds(ctx, updates_in(ctx.block, fields)).len(),
    ensures
        tree_update_challenge(
            tree_frauds(ctx, updates_in(ctx.block, fields))[i],
            blobs,
            prior_anchor,
            prior_anchor_blobs,
            prior_anchor_field_index,
            true_anchor,
            zk_proof,
            rollback_target_block,
        ) matches Ok(challenge) && challenge.block == ctx.block,
{
    let updates = updates_in(ctx.block, fields);
    let k = lemma_tree_fraud(ctx, updates, i);
    law_tree_update_can_be_challenged(
        tree_frauds(ctx, updates)[i],
        blobs,
        fields,
        ctx.block.num_transactions@,
        prior_anchor,
        prior_anchor_blobs,
        prior_anchor_field_index,
        true_anchor,
        zk_proof,
        rollback_target_block,
    );
}

/// The updates of a block that is read from fields.
pub open spec fn updates_in(header: BlockView, fields: Seq<Blob>) -> Seq<TreeUpdate> {
    updates_of(block_contents(fields, header.num_deposits@, header.num_transactions@))
}

} // verus!
