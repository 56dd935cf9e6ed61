//! That what was found in a block can be challenged, and that the challenge submits what was
//! read from the block.

use super::memory::{block_length, deposit_groups, deposit_leaf_address, nullifier_address, tx_address};
use super::params::{
    challenged_deposit, challenged_transaction, challenged_update, deposit_challenge, genesis_challenge,
    nullifier_challenge, proof_at, region_pair_of, transaction_challenge, tree_update_challenge,
    update_address, BlobWithHash,
};
use super::{field_bytes_at, law_opened_field_is_read_field, law_region_pair_complete};
use crate::blob::{block_contents, field_at, holds_bytes, holds_field, tx_at, Blob, ParsedTransaction};
use crate::kzg::blob_commitment;
use crate::types::{BlockView, Proof, B256};
use crate::validators::nullifier::{double_spend, uses_of, NullifierRecord};
use crate::validators::tree_update::{updates_of, TreeUpdate};
use crate::validators::EvidenceView;
use vstd::prelude::*;

verus! {

/// Whether a block of the given counts is read from blobs that can be committed to: `fields`
/// are the fields of the blobs, and the block does not go beyond them.
pub open spec fn readable(
    blobs: Seq<BlobWithHash>,
    fields: Seq<Blob>,
    num_deposits: nat,
    num_transactions: nat,
) -> bool {
    &&& fields.len() == blobs.len()
    &&& forall|i: int|
        0 <= i < blobs.len() ==> #[trigger] holds_bytes(fields[i], blobs[i].data@)
            && blob_commitment(blobs[i].data@) is Ok
    &&& block_length(num_deposits, num_transactions) <= 4096 * blobs.len()
}

/// Every field of a readable block has a proof.
pub proof fn lemma_field_has_proof(
    blobs: Seq<BlobWithHash>,
    fields: Seq<Blob>,
    num_deposits: nat,
    num_transactions: nat,
    address: nat,
)
    requires
        readable(blobs, fields, num_deposits, num_transactions),
        address < 4096 * blobs.len(),
    ensures
        proof_at(blobs, address) is Ok,
        (proof_at(blobs, address)->Ok_0).0.value == field_at(fields, address as int)@,
{
    let b = (address / 4096) as int;
    assert(holds_bytes(fields[b], blobs[b].data@));
    law_opened_field_is_read_field(blobs, fields, address);
}

/// Every short run of fields of a readable block has a region, which together with its
/// extension holds these fields.
proof fn lemma_fields_have_region(
    blobs: Seq<BlobWithHash>,
    fields: Seq<Blob>,
    num_deposits: nat,
    num_transactions: nat,
    start: nat,
    length: nat,
)
    requires
        readable(blobs, fields, num_deposits, num_transactions),
        0 < length <= 4096,
        start + length <= 4096 * blobs.len(),
    ensures
        region_pair_of(blobs, start, length) is Ok,
        ({
            let (region, extension) = region_pair_of(blobs, start, length)->Ok_0;
            region.data + extension.data == Seq::new(
                length,
                |i: int| field_at(fields, start + i)@,
            )
        }),
{
    let b = (start / 4096) as int;
    assert(holds_bytes(fields[b], blobs[b].data@));
    if start % 4096 + length > 4096 {
        assert(b + 1 < blobs.len());
        assert(holds_bytes(fields[b + 1], blobs[b + 1].data@));
    }
    law_region_pair_complete(blobs, start, length);
    let want = Seq::new(length, |i: int| field_at(fields, start + i)@);
    let have = Seq::new(length, |i: int| field_bytes_at(blobs, start + i));
    assert forall|i: int| 0 <= i < length implies want[i] == have[i] by {
        let k = start + i;
        assert(0 <= k / 4096 < blobs.len());
        assert(holds_bytes(fields[k / 4096], blobs[k / 4096].data@));
        assert(holds_field(fields[k / 4096], blobs[k / 4096].data@, k % 4096));
    }
    assert(want =~= have);
}

/// Evidence against a deposit of a block that is read from blobs which can be committed to
/// has its challenge, and this submits the leaf that the block was read to hold.
pub proof fn law_deposit_can_be_challenged(
    evidence: EvidenceView,
    blobs: Seq<BlobWithHash>,
    fields: Seq<Blob>,
    num_deposits: nat,
    num_transactions: nat,
    prior_block: BlockView,
)
    requires
        readable(blobs, fields, num_deposits, num_transactions),
        challenged_deposit(evidence) is Ok,
        (challenged_deposit(evidence)->Ok_0).1 < 3 * deposit_groups(num_deposits),
    ensures
        ({
            let block = block_contents(fields, num_deposits, num_transactions);
            &&& deposit_challenge(evidence, blobs, prior_block) matches Ok(challenge)
            &&& block.deposit_leaf(challenge.deposit_nr as int) matches Some(leaf)
            &&& challenge.leaf == leaf@
        }),
{
    let nr = (challenged_deposit(evidence)->Ok_0).1;
    let address = deposit_leaf_address(nr as nat);
    assert(address == 4 * (nr / 3) + nr % 3);
    lemma_field_has_proof(blobs, fields, num_deposits, num_transactions, address);
}

/// Evidence that two transactions use one nullifier has its challenge, where both blocks are
/// read from blobs which can be committed to. Each of its two proofs opens that nullifier.
pub proof fn law_double_spend_can_be_challenged(
    first_block_nr: u64,
    first_blobs: Seq<BlobWithHash>,
    first_fields: Seq<Blob>,
    first_block: BlockView,
    first_use: int,
    second_block_nr: u64,
    second_blobs: Seq<BlobWithHash>,
    second_fields: Seq<Blob>,
    second_block: BlockView,
    second_use: int,
    prior_block: BlockView,
)
    requires
        first_block.num_deposits@ <= u64::MAX,
        second_block.num_deposits@ <= u64::MAX,
        first_block.num_transactions@ <= u32::MAX,
        second_block.num_transactions@ <= u32::MAX,
        readable(
            first_blobs,
            first_fields,
            first_block.num_deposits@,
            first_block.num_transactions@,
        ),
        readable(
            second_blobs,
            second_fields,
            second_block.num_deposits@,
            second_block.num_transactions@,
        ),
        ({
            let first = uses_in(first_block_nr, first_fields, first_block);
            let second = uses_in(second_block_nr, second_fields, second_block);
            0 <= first_use < first.len() && 0 <= second_use < second.len() && first[first_use].0
                == second[second_use].0
        }),
    ensures
        ({
            let first = uses_in(first_block_nr, first_fields, first_block)[first_use];
            let second = uses_in(second_block_nr, second_fields, second_block)[second_use];
            let first_proof = proof_at(
                first_blobs,
                nullifier_address(
                    first.1.tx_index as nat,
                    first_block.num_deposits@,
                    first.1.which as nat,
                ),
            );
            let second_proof = proof_at(
                second_blobs,
                nullifier_address(
                    second.1.tx_index as nat,
                    second_block.num_deposits@,
                    second.1.which as nat,
                ),
            );
            nullifier_challenge(
                double_spend(first.0, first.1, second.1),
                first_blobs,
                second_blobs,
                first_block,
                second_block,
                prior_block,
            ) matches Ok(challenge) && {
                &&& first_proof is Ok
                &&& (first_proof->Ok_0).0.value == challenge.nullifier@
                &&& challenge.first_proof == (first_proof->Ok_0).0.proof
                &&& challenge.first_commitment == (first_proof->Ok_0).0.commitment
                &&& second_proof is Ok
                &&& (second_proof->Ok_0).0.value == challenge.nullifier@
                &&& challenge.second_proof == (second_proof->Ok_0).0.proof
                &&& challenge.second_commitment == (second_proof->Ok_0).0.commitment
            }
        }),
{
    lemma_use_has_proof(first_block_nr, first_blobs, first_fields, first_block, first_use);
    lemma_use_has_proof(second_block_nr, second_blobs, second_fields, second_block, second_use);
}

/// The uses of nullifiers in a block that is read from fields.
pub open spec fn uses_in(block_nr: u64, fields: Seq<Blob>, block: BlockView) -> Seq<
    (B256, NullifierRecord),
> {
    uses_of(
        block_nr,
        block_contents(fields, block.num_deposits@, block.num_transactions@).transactions,
    )
}

/// The nullifier of each use in a readable block has a proof.
proof fn lemma_use_has_proof(
    block_nr: u64,
    blobs: Seq<BlobWithHash>,
    fields: Seq<Blob>,
    block: BlockView,
    u: int,
)
    requires
        block.num_transactions@ <= u32::MAX,
        readable(blobs, fields, block.num_deposits@, block.num_transactions@),
        0 <= u < uses_in(block_nr, fields, block).len(),
    ensures
        blobs.len() > 0,
        ({
            let used = uses_in(block_nr, fields, block)[u];
            let opened = proof_at(
                blobs,
                nullifier_address(
                    used.1.tx_index as nat,
                    block.num_deposits@,
                    used.1.which as nat,
                ),
            );
            opened is Ok && (opened->Ok_0).0.value == used.0@
        }),
{
    let t = u / 2;
    let which = u % 2;
    assert(0 <= t < block.num_transactions@);
    let address = nullifier_address(t as nat, block.num_deposits@, which as nat);
    assert(address < block_length(block.num_deposits@, block.num_transactions@));
    lemma_field_has_proof(blobs, fields, block.num_deposits@, block.num_transactions@, address);
}

/// The words of a transaction, but for its root, in the order of its fields.
pub open spec fn submitted_words(tx: ParsedTransaction) -> Seq<Seq<u8>> {
    seq![
        tx.proof.a_x@,
        tx.proof.a_y@,
        tx.proof.b_x0@,
        tx.proof.b_x1@,
        tx.proof.b_y0@,
        tx.proof.b_y1@,
        tx.proof.c_x@,
        tx.proof.c_y@,
        tx.anchor_info@,
        tx.nullifier0@,
        tx.nullifier1@,
        tx.leaf0@,
        tx.leaf1@,
        tx.leaf2@,
    ]
}

/// Evidence against a transaction of a block that is read from blobs which can be committed
/// to has its challenge, where the anchor has a proof. The challenge submits the transaction
/// that the block was read to hold.
pub proof fn law_transaction_can_be_challenged(
    evidence: EvidenceView,
    blobs: Seq<BlobWithHash>,
    fields: Seq<Blob>,
    num_transactions: nat,
    anchor: B256,
    prior_anchor_block: BlockView,
    prior_anchor_blobs: Seq<BlobWithHash>,
    prior_anchor_field_index: nat,
    rollback_target_block: BlockView,
)
    requires
        challenged_transaction(evidence) matches Ok((block, tx_nr)) && tx_nr < num_transactions
            && block.num_deposits@ <= u64::MAX && readable(
            blobs,
            fields,
            block.num_deposits@,
            num_transactions,
        ),
        proof_at(prior_anchor_blobs, prior_anchor_field_index) is Ok,
    ensures
        transaction_challenge(
            evidence,
            blobs,
            anchor,
            prior_anchor_block,
            prior_anchor_blobs,
            prior_anchor_field_index,
            rollback_target_block,
        ) matches Ok(challenge) && challenge.region.data + challenge.extension_region.data
            == submitted_words(
            block_contents(
                fields,
                challenge.block.num_deposits@,
                num_transactions,
            ).transactions[challenge.tx_nr as int],
        ),
{
    let (block, tx_nr) = challenged_transaction(evidence)->Ok_0;
    let start = tx_address(tx_nr as nat, block.num_deposits@);
    assert(start + 15 <= block_length(block.num_deposits@, num_transactions)) by (nonlinear_arith)
        requires
            start == tx_address(tx_nr as nat, block.num_deposits@),
            tx_nr < num_transactions,
    ;
    lemma_fields_have_region(blobs, fields, block.num_deposits@, num_transactions, start, 14);
    let tx = block_contents(fields, block.num_deposits@, num_transactions).transactions[tx_nr as int];
    assert(tx == tx_at(fields, start as int));
    assert(submitted_words(tx) =~= Seq::new(14, |i: int| field_at(fields, start + i)@));
}

/// The words of an update: its leaves, and the root that it claims.
pub open spec fn update_words(update: TreeUpdate) -> Seq<Seq<u8>> {
    seq![update.leaves[0]@, update.leaves[1]@, update.leaves[2]@, update.new_root@]
}

/// The words of an update of a readable block have a region.
proof fn lemma_update_has_region(
    blobs: Seq<BlobWithHash>,
    fields: Seq<Blob>,
    num_deposits: nat,
    num_transactions: nat,
    k: int,
)
    requires
        readable(blobs, fields, num_deposits, num_transactions),
        0 <= k < deposit_groups(num_deposits) + num_transactions,
    ensures
        ({
            let update = updates_of(block_contents(fields, num_deposits, num_transactions))[k];
            let start = update_address(k, update.is_tx, num_deposits);
            &&& 0 <= start
            &&& region_pair_of(blobs, start as nat, 4) matches Ok((region, extension))
            &&& region.data + extension.data == update_words(update)
        }),
        blobs.len() > 0,
{
    let block = block_contents(fields, num_deposits, num_transactions);
    let update = updates_of(block)[k];
    let groups = deposit_groups(num_deposits);
    let start = update_address(k, update.is_tx, num_deposits);
    if k >= groups {
        let t = k - groups;
        assert(start == tx_address(t as nat, num_deposits) + 11);
        assert(block.transactions[t] == tx_at(fields, tx_address(t as nat, num_deposits) as int));
    }
    lemma_fields_have_region(blobs, fields, num_deposits, num_transactions, start as nat, 4);
    assert(update_words(update) =~= Seq::new(4, |i: int| field_at(fields, start + i)@));
}

/// Evidence against a tree update of a block that is read from blobs which can be committed
/// to has its challenge, where the prior anchor has a proof. The challenge submits the
/// leaves and the root that the block was read to hold.
pub proof fn law_tree_update_can_be_challenged(
    evidence: EvidenceView,
    blobs: Seq<BlobWithHash>,
    fields: Seq<Blob>,
    num_transactions: nat,
    prior_anchor: B256,
    prior_anchor_blobs: Seq<BlobWithHash>,
    prior_anchor_field_index: nat,
    true_anchor: B256,
    zk_proof: Proof,
    rollback_target_block: BlockView,
)
    requires
        challenged_update(evidence) matches Ok((block, update_nr, is_tx))
            && block.num_deposits@ <= u64::MAX && readable(
            blobs,
            fields,
            block.num_deposits@,
            num_transactions,
        ) && update_nr < deposit_groups(block.num_deposits@) + num_transactions && is_tx == (
        update_nr >= deposit_groups(block.num_deposits@)),
        proof_at(prior_anchor_blobs, prior_anchor_field_index) is Ok,
    ensures
        tree_update_challenge(
            evidence,
            blobs,
            prior_anchor,
            prior_anchor_blobs,
            prior_anchor_field_index,
            true_anchor,
            zk_proof,
            rollback_target_block,
        ) matches Ok(challenge) && challenge.region.data + challenge.extension_region.data
            == update_words(
            updates_of(
                block_contents(fields, challenge.block.num_deposits@, num_transactions),
            )[challenge.update_nr as int],
        ),
{
    let (block, update_nr, is_tx) = challenged_update(evidence)->Ok_0;
    lemma_update_has_region(
        blobs,
        fields,
        block.num_deposits@,
        num_transactions,
        update_nr as int,
    );
}

/// Evidence against the first tree update of the first block has its challenge, where the
/// block is read from blobs which can be committed to. The challenge submits the leaves and
/// the root that the block was read to hold, and starts from the anchor before the block.
pub proof fn law_first_update_can_be_challenged(
    evidence: EvidenceView,
    blobs: Seq<BlobWithHash>,
    fields: Seq<Blob>,
    num_transactions: nat,
    genesis_anchor: B256,
    true_anchor: B256,
    zk_proof: Proof,
    rollback_target_block: BlockView,
)
    requires
        challenged_update(evidence) matches Ok((block, update_nr, is_tx)) && block.block_nr@ == 0
            && update_nr == 0 && block.num_deposits@ <= u64::MAX && readable(
            blobs,
            fields,
            block.num_deposits@,
            num_transactions,
        ) && 0 < deposit_groups(block.num_deposits@) + num_transactions && is_tx == (
        deposit_groups(block.num_deposits@) == 0),
    ensures
        genesis_challenge(
            evidence,
            blobs,
            genesis_anchor,
            true_anchor,
            zk_proof,
            rollback_target_block,
        ) matches Ok(challenge) && challenge.prior_anchor == genesis_anchor
            && challenge.region.data + challenge.extension_region.data == update_words(
            updates_of(
                block_contents(fields, challenge.block.num_deposits@, num_transactions),
            )[0],
        ),
{
    let (block, update_nr, is_tx) = challenged_update(evidence)->Ok_0;
    lemma_update_has_region(blobs, fields, block.num_deposits@, num_transactions, 0);
    assert(update_address(0, is_tx, block.num_deposits@) == (if is_tx {
        (tx_address(0, block.num_deposits@) + 11) as int
    } else {
        0
    }));
}

} // verus!
