//! What a challenge submits: every word of it is opened by its own proof, at the place where the
//! block holds it.

use super::params::{
    deposit_challenge, genesis_challenge, nullifier_challenge, proof_at, region_of, region_pair_of,
    single_blob_transaction_challenge, single_blob_tree_update_challenge, transaction_challenge,
    tree_update_challenge, BlobWithHash, RegionView,
};
use crate::kzg::{blob_commitment, evaluation_point, kzg_commitment, kzg_opening};
use crate::types::{be_bytes, lemma_zero_word, BlockView, Proof, B256};
use crate::validators::EvidenceView;
use vstd::prelude::*;

verus! {

/// Whether a word, a proof and a commitment belong to the field at a place of a blob: the word
/// is what the blob holds there, the proof opens the blob at the point of that very field, and
/// the commitment is that to the blob.
pub open spec fn opens_field(
    blob: Seq<u8>,
    index: int,
    word: Seq<u8>,
    opening: Seq<u8>,
    commitment: Seq<u8>,
) -> bool {
    &&& 0 <= index < 4096
    &&& blob.len() == 131072
    &&& word.len() == 32
    &&& forall|b: int| 0 <= b < 32 ==> #[trigger] word[b] == blob[32 * index + b]
    &&& opening == kzg_opening(blob, be_bytes(evaluation_point(index as nat), 32)).0
    &&& commitment == kzg_commitment(blob)
}

/// The same for a field of a block, counted through its blobs.
pub open spec fn opens_at(
    blobs: Seq<BlobWithHash>,
    address: int,
    word: Seq<u8>,
    opening: Seq<u8>,
    commitment: Seq<u8>,
) -> bool {
    &&& 0 <= address / 4096 < blobs.len()
    &&& opens_field(blobs[address / 4096].data@, address % 4096, word, opening, commitment)
}

/// The proof that is made for a field of a block belongs to that field, and the hash that comes
/// with it to the field's blob.
pub proof fn law_proof_opens_its_field(blobs: Seq<BlobWithHash>, address: nat)
    requires
        proof_at(blobs, address) is Ok,
    ensures
        proof_at(blobs, address) matches Ok((opened, hash)) && opens_at(
            blobs,
            address as int,
            opened.value,
            opened.proof,
            opened.commitment,
        ) && hash == blobs[address as int / 4096].hash,
{
}

/// Every field of a region comes with the proof that opens that very field, and the region names
/// where it starts, how many fields it has, and the commitment to its blob and its hash.
pub proof fn law_region_opens_each_field(
    blob: Seq<u8>,
    start: nat,
    length: nat,
    hash: B256,
    i: int,
)
    requires
        region_of(blob, start, length, hash) is Ok,
        0 <= i < length,
    ensures
        region_of(blob, start, length, hash) matches Ok(region) && {
            &&& region.length == length
            &&& region.memory_address == start
            &&& region.data.len() == length
            &&& region.proofs.len() == length
            &&& region.hash == hash
            &&& opens_field(blob, start + i, region.data[i], region.proofs[i], region.commitment)
        },
{
}

/// Every field of a run, be it in the region or in what of it lies in the next blob, comes with
/// the proof that opens that very field. Without a next blob the rest is empty.
pub proof fn law_region_pair_opens_each_field(
    blobs: Seq<BlobWithHash>,
    start: nat,
    length: nat,
    i: int,
)
    requires
        region_pair_of(blobs, start, length) is Ok,
        0 <= i < length,
    ensures
        region_pair_of(blobs, start, length) matches Ok((region, extension)) && {
            let data = region.data + extension.data;
            let proofs = region.proofs + extension.proofs;
            &&& holds_run(blobs, start as int, length as int, region, extension)
            &&& proof_at(blobs, (start + i) as nat) matches Ok((opened, hash))
            &&& proofs[i] == opened.proof
            &&& data[i] == opened.value
            &&& opened.commitment == (if i < region.length {
                region.commitment
            } else {
                extension.commitment
            })
            &&& hash == (if i < region.length {
                region.hash
            } else {
                extension.hash
            })
        },
{
    let (region, extension) = region_pair_of(blobs, start, length)->Ok_0;
    lemma_run(blobs, start, length);
    assert(opens_run_at(blobs, start as int, region, extension, i));
    let k = start + i;
    let blob = (start / 4096) as int;
    if start % 4096 + i < 4096 {
        assert(k / 4096 == blob && k % 4096 == start % 4096 + i);
    } else {
        assert(k / 4096 == blob + 1 && k % 4096 == start % 4096 + i - 4096);
    }
}

/// Whether field `i` of a run is opened by its own proof.
pub open spec fn opens_run_at(
    blobs: Seq<BlobWithHash>,
    start: int,
    region: RegionView,
    extension: RegionView,
    i: int,
) -> bool {
    opens_at(
        blobs,
        start + i,
        (region.data + extension.data)[i],
        (region.proofs + extension.proofs)[i],
        if i < region.length {
            region.commitment
        } else {
            extension.commitment
        },
    )
}

/// Whether a region and its extension are a run of so many fields of a block: each field with
/// its own proof, under the hash of its blob; the region starts where the run does, and an
/// extension that is not empty at the start of the next blob.
pub open spec fn holds_run(
    blobs: Seq<BlobWithHash>,
    start: int,
    length: int,
    region: RegionView,
    extension: RegionView,
) -> bool {
    &&& region.length + extension.length == length
    &&& region.data.len() == region.length
    &&& region.proofs.len() == region.length
    &&& extension.data.len() == extension.length
    &&& extension.proofs.len() == extension.length
    &&& region.memory_address == start % 4096
    &&& region.hash == blobs[start / 4096].hash
    &&& extension.memory_address == 0
    &&& start % 4096 + length <= 4096 ==> extension.length == 0 && extension.commitment.len() == 0
        && extension.hash@ == Seq::new(32, |b: int| 0u8)
    &&& start % 4096 + length > 4096 ==> region.length == 4096 - start % 4096 && extension.hash
        == blobs[start / 4096 + 1].hash
    &&& forall|i: int| 0 <= i < length ==> #[trigger] opens_run_at(blobs, start, region, extension, i)
}

/// A region with its extension is the run that was asked for.
proof fn lemma_run(blobs: Seq<BlobWithHash>, start: nat, length: nat)
    requires
        region_pair_of(blobs, start, length) is Ok,
    ensures
        region_pair_of(blobs, start, length) matches Ok((region, extension)) && holds_run(
            blobs,
            start as int,
            length as int,
            region,
            extension,
        ),
{
    lemma_zero_word();
    let (region, extension) = region_pair_of(blobs, start, length)->Ok_0;
    let blob = (start / 4096) as int;
    let local = (start % 4096) as int;
    assert forall|i: int| 0 <= i < length implies #[trigger] opens_run_at(
        blobs,
        start as int,
        region,
        extension,
        i,
    ) by {
        let k = start + i;
        if local + i < 4096 {
            assert(k / 4096 == blob && k % 4096 == local + i);
            law_region_opens_each_field(
                blobs[blob].data@,
                local as nat,
                region.length,
                blobs[blob].hash,
                i,
            );
            assert((region.data + extension.data)[i] == region.data[i]);
            assert((region.proofs + extension.proofs)[i] == region.proofs[i]);
        } else {
            let e = local + i - 4096;
            assert(e < extension.length <= 4096);
            assert(k / 4096 == blob + 1 && k % 4096 == e);
            law_region_opens_each_field(
                blobs[blob + 1].data@,
                0,
                extension.length,
                blobs[blob + 1].hash,
                e,
            );
            assert((region.data + extension.data)[i] == extension.data[e]);
            assert((region.proofs + extension.proofs)[i] == extension.proofs[e]);
        }
    }
}

/// A challenge of a wrong leaf opens the field of that leaf, and names the block, the deposit and
/// the block to roll back to. One of a slot beyond the deposits opens that slot's field.
pub proof fn law_deposit_challenge_opens_the_leaf(
    evidence: EvidenceView,
    blobs: Seq<BlobWithHash>,
    prior_block: BlockView,
)
    requires
        deposit_challenge(evidence, blobs, prior_block) is Ok,
    ensures
        deposit_challenge(evidence, blobs, prior_block) matches Ok(challenge) && {
            let nr = challenge.deposit_nr as int;
            &&& opens_at(
                blobs,
                4 * (nr / 3) + nr % 3,
                challenge.leaf,
                challenge.proof,
                challenge.commitment,
            )
            &&& challenge.prior_block == prior_block
            &&& match evidence {
                EvidenceView::DepositWrongLeaf { block, deposit_nr, .. } => challenge.block == block
                    && nr == deposit_nr,
                EvidenceView::DepositPaddingNotZero { block, group_index, slot_index, .. } =>
                    challenge.block == block && slot_index < 3 && nr == 3 * group_index + slot_index,
                _ => false,
            }
        },
{
    let nr = (deposit_challenge(evidence, blobs, prior_block)->Ok_0).deposit_nr as int;
    assert(nr + nr / 3 == 4 * (nr / 3) + nr % 3);
}

/// A challenge of a double spend opens, in each of the two blocks, the field of the nullifier that
/// the evidence names there, and hands on what the evidence says.
pub proof fn law_nullifier_challenge_opens_both(
    evidence: EvidenceView,
    first_blobs: Seq<BlobWithHash>,
    second_blobs: Seq<BlobWithHash>,
    first_block: BlockView,
    second_block: BlockView,
    prior_block: BlockView,
)
    requires
        nullifier_challenge(
            evidence,
            first_blobs,
            second_blobs,
            first_block,
            second_block,
            prior_block,
        ) is Ok,
    ensures
        ({
            let challenge = nullifier_challenge(
                evidence,
                first_blobs,
                second_blobs,
                first_block,
                second_block,
                prior_block,
            )->Ok_0;
            &&& evidence matches EvidenceView::NullifierDoubleSpend {
                first_tx_number,
                second_tx_number,
                first_which,
                second_which,
                nullifier,
                ..
            }
            &&& challenge.nullifier == nullifier
            &&& challenge.first_block == first_block
            &&& challenge.second_block == second_block
            &&& challenge.prior_block == prior_block
            &&& challenge.first_tx_number == first_tx_number
            &&& challenge.second_tx_number == second_tx_number
            &&& challenge.first_which == first_which
            &&& challenge.second_which == second_which
            &&& exists|word: Seq<u8>| #[trigger]
                opens_at(
                    first_blobs,
                    4 * ((first_block.num_deposits@ + 2) / 3) + 15 * first_tx_number + 9
                        + first_which,
                    word,
                    challenge.first_proof,
                    challenge.first_commitment,
                )
            &&& exists|word: Seq<u8>| #[trigger]
                opens_at(
                    second_blobs,
                    4 * ((second_block.num_deposits@ + 2) / 3) + 15 * second_tx_number + 9
                        + second_which,
                    word,
                    challenge.second_proof,
                    challenge.second_commitment,
                )
        }),
{
    let challenge = nullifier_challenge(
        evidence,
        first_blobs,
        second_blobs,
        first_block,
        second_block,
        prior_block,
    )->Ok_0;
    let first = 4 * ((first_block.num_deposits@ + 2) / 3) + 15
        * evidence->NullifierDoubleSpend_first_tx_number + 9
        + evidence->NullifierDoubleSpend_first_which;
    let second = 4 * ((second_block.num_deposits@ + 2) / 3) + 15
        * evidence->NullifierDoubleSpend_second_tx_number + 9
        + evidence->NullifierDoubleSpend_second_which;
    law_proof_opens_its_field(first_blobs, first as nat);
    law_proof_opens_its_field(second_blobs, second as nat);
    let first_word = (proof_at(first_blobs, first as nat)->Ok_0).0.value;
    let second_word = (proof_at(second_blobs, second as nat)->Ok_0).0.value;
    assert(opens_at(
        first_blobs,
        first as int,
        first_word,
        challenge.first_proof,
        challenge.first_commitment,
    ));
    assert(opens_at(
        second_blobs,
        second as int,
        second_word,
        challenge.second_proof,
        challenge.second_commitment,
    ));
}

/// A challenge of a transaction opens the fourteen fields of that transaction before its root, and
/// the field that was named for the anchor, and hands on the anchor and the blocks.
pub proof fn law_transaction_challenge_opens_the_transaction(
    evidence: EvidenceView,
    blobs: Seq<BlobWithHash>,
    anchor: B256,
    prior_anchor_block: BlockView,
    prior_anchor_blobs: Seq<BlobWithHash>,
    prior_anchor_field_index: nat,
    rollback_target_block: BlockView,
)
    requires
        transaction_challenge(
            evidence,
            blobs,
            anchor,
            prior_anchor_block,
            prior_anchor_blobs,
            prior_anchor_field_index,
            rollback_target_block,
        ) is Ok,
    ensures
        ({
            let challenge = transaction_challenge(
                evidence,
                blobs,
                anchor,
                prior_anchor_block,
                prior_anchor_blobs,
                prior_anchor_field_index,
                rollback_target_block,
            )->Ok_0;
            &&& match evidence {
                EvidenceView::InvalidTransactionProof { block, tx_nr, .. } => challenge.block == block
                    && challenge.tx_nr == tx_nr,
                EvidenceView::InvalidAnchorReference { block, tx_nr, .. } => challenge.block == block
                    && challenge.tx_nr == tx_nr,
                EvidenceView::MissingEthKeyAuth { block, tx_nr, .. } => challenge.block == block
                    && challenge.tx_nr == tx_nr,
                _ => false,
            }
            &&& holds_run(
                blobs,
                4 * ((challenge.block.num_deposits@ + 2) / 3) as int + 15 * challenge.tx_nr,
                14,
                challenge.region,
                challenge.extension_region,
            )
            &&& challenge.anchor == anchor
            &&& challenge.prior_anchor_block == prior_anchor_block
            &&& challenge.rollback_target_block == rollback_target_block
            &&& exists|word: Seq<u8>| #[trigger]
                opens_at(
                    prior_anchor_blobs,
                    prior_anchor_field_index as int,
                    word,
                    challenge.prior_anchor_proof,
                    challenge.prior_anchor_commitment,
                )
        }),
{
    let challenge = transaction_challenge(
        evidence,
        blobs,
        anchor,
        prior_anchor_block,
        prior_anchor_blobs,
        prior_anchor_field_index,
        rollback_target_block,
    )->Ok_0;
    lemma_run(
        blobs,
        (4 * ((challenge.block.num_deposits@ + 2) / 3) + 15 * challenge.tx_nr) as nat,
        14,
    );
    law_proof_opens_its_field(prior_anchor_blobs, prior_anchor_field_index);
    assert(opens_at(
        prior_anchor_blobs,
        prior_anchor_field_index as int,
        (proof_at(prior_anchor_blobs, prior_anchor_field_index)->Ok_0).0.value,
        challenge.prior_anchor_proof,
        challenge.prior_anchor_commitment,
    ));
}

/// A challenge of a tree update opens the three leaves and the root of that update, and the field
/// that was named for the anchor before it, and hands on both anchors, the proof of the update
/// and the blocks.
pub proof fn law_tree_update_challenge_opens_the_update(
    evidence: EvidenceView,
    blobs: Seq<BlobWithHash>,
    prior_anchor: B256,
    prior_anchor_blobs: Seq<BlobWithHash>,
    prior_anchor_field_index: nat,
    true_anchor: B256,
    zk_proof: Proof,
    rollback_target_block: BlockView,
)
    requires
        tree_update_challenge(
            evidence,
            blobs,
            prior_anchor,
            prior_anchor_blobs,
            prior_anchor_field_index,
            true_anchor,
            zk_proof,
            rollback_target_block,
        ) is Ok,
        evidence matches EvidenceView::IncorrectTreeUpdate { block, update_nr, is_tx, .. } && (is_tx
            ==> (block.num_deposits@ + 2) / 3 <= update_nr),
    ensures
        ({
            let challenge = tree_update_challenge(
                evidence,
                blobs,
                prior_anchor,
                prior_anchor_blobs,
                prior_anchor_field_index,
                true_anchor,
                zk_proof,
                rollback_target_block,
            )->Ok_0;
            let groups = ((challenge.block.num_deposits@ + 2) / 3) as int;
            &&& evidence matches EvidenceView::IncorrectTreeUpdate { block, update_nr, is_tx, .. }
            &&& challenge.block == block
            &&& challenge.update_nr == update_nr
            &&& challenge.is_tx == is_tx
            &&& holds_run(
                blobs,
                if is_tx {
                    4 * groups + 15 * (update_nr - groups) + 11
                } else {
                    4 * update_nr as int
                },
                4,
                challenge.region,
                challenge.extension_region,
            )
            &&& challenge.prior_anchor == prior_anchor
            &&& challenge.true_anchor == true_anchor
            &&& challenge.zk_proof == zk_proof
            &&& challenge.rollback_target_block == rollback_target_block
            &&& exists|word: Seq<u8>| #[trigger]
                opens_at(
                    prior_anchor_blobs,
                    prior_anchor_field_index as int,
                    word,
                    challenge.prior_anchor_proof,
                    challenge.prior_anchor_commitment,
                )
        }),
{
    let challenge = tree_update_challenge(
        evidence,
        blobs,
        prior_anchor,
        prior_anchor_blobs,
        prior_anchor_field_index,
        true_anchor,
        zk_proof,
        rollback_target_block,
    )->Ok_0;
    let groups = ((challenge.block.num_deposits@ + 2) / 3) as int;
    let start = if challenge.is_tx {
        4 * groups + 15 * (challenge.update_nr - groups) + 11
    } else {
        4 * challenge.update_nr as int
    };
    lemma_run(blobs, start as nat, 4);
    law_proof_opens_its_field(prior_anchor_blobs, prior_anchor_field_index);
    assert(opens_at(
        prior_anchor_blobs,
        prior_anchor_field_index as int,
        (proof_at(prior_anchor_blobs, prior_anchor_field_index)->Ok_0).0.value,
        challenge.prior_anchor_proof,
        challenge.prior_anchor_commitment,
    ));
}

/// A challenge of the first update of the first block opens the three leaves and the root of that
/// update. It starts from the anchor before the first block, which takes no proof.
pub proof fn law_genesis_challenge_opens_the_update(
    evidence: EvidenceView,
    blobs: Seq<BlobWithHash>,
    genesis_anchor: B256,
    true_anchor: B256,
    zk_proof: Proof,
    rollback_target_block: BlockView,
)
    requires
        genesis_challenge(
            evidence,
            blobs,
            genesis_anchor,
            true_anchor,
            zk_proof,
            rollback_target_block,
        ) is Ok,
    ensures
        ({
            let challenge = genesis_challenge(
                evidence,
                blobs,
                genesis_anchor,
                true_anchor,
                zk_proof,
                rollback_target_block,
            )->Ok_0;
            let groups = ((challenge.block.num_deposits@ + 2) / 3) as int;
            &&& evidence matches EvidenceView::IncorrectTreeUpdate { block, update_nr, is_tx, .. }
            &&& block.block_nr@ == 0
            &&& update_nr == 0
            &&& challenge.block == block
            &&& challenge.update_nr == 0
            &&& challenge.is_tx == is_tx
            &&& holds_run(
                blobs,
                if is_tx {
                    4 * groups + 11
                } else {
                    0
                },
                4,
                challenge.region,
                challenge.extension_region,
            )
            &&& challenge.prior_anchor == genesis_anchor
            &&& challenge.prior_anchor_commitment.len() == 0
            &&& challenge.prior_anchor_proof.len() == 0
            &&& challenge.true_anchor == true_anchor
            &&& challenge.zk_proof == zk_proof
            &&& challenge.rollback_target_block == rollback_target_block
        }),
{
    let challenge = genesis_challenge(
        evidence,
        blobs,
        genesis_anchor,
        true_anchor,
        zk_proof,
        rollback_target_block,
    )->Ok_0;
    let groups = ((challenge.block.num_deposits@ + 2) / 3) as int;
    let start = if challenge.is_tx {
        4 * groups + 11
    } else {
        0
    };
    lemma_run(blobs, start as nat, 4);
}

/// A run of fields has its region exactly where every blob that it lies in is given and can be
/// committed to. It lies in two blobs at most.
pub proof fn law_region_exists_iff(blobs: Seq<BlobWithHash>, start: nat, length: nat)
    requires
        length > 0,
    ensures
        region_pair_of(blobs, start, length) is Ok <==> {
            let last = (start + length - 1) / 4096;
            &&& last < blobs.len()
            &&& last <= start / 4096 + 1
            &&& forall|b: int|
                start / 4096 <= b <= last ==> blob_commitment((#[trigger] blobs[b]).data@) is Ok
        },
{
    let first = (start / 4096) as int;
    let last = (start + length - 1) / 4096;
    let local = (start % 4096) as int;
    if local + length <= 4096 {
        assert(last == first);
        if first < blobs.len() {
            assert(blobs[first] == blobs[first]);
        }
    } else {
        assert(last >= first + 1);
        if first + 1 < blobs.len() {
            assert(blobs[first] == blobs[first] && blobs[first + 1] == blobs[first + 1]);
            if local + length - 4096 <= 4096 {
                assert(last == first + 1);
            } else {
                assert(last > first + 1);
            }
        }
    }
}

/// A challenge of a transaction whose block has one blob is that out of this blob, under the first
/// hash in the block's header, and with the anchor out of the one blob of its block, under the
/// first hash in that block's header.
pub proof fn law_single_blob_transaction_challenge(
    evidence: EvidenceView,
    blob_data: &[u8],
    anchor: B256,
    prior_anchor_block: BlockView,
    prior_anchor_blob_data: &[u8],
    prior_anchor_field_index: nat,
    rollback_target_block: BlockView,
    block: BlockView,
)
    requires
        match evidence {
            EvidenceView::InvalidTransactionProof { block: named, .. } => named == block,
            EvidenceView::InvalidAnchorReference { block: named, .. } => named == block,
            EvidenceView::MissingEthKeyAuth { block: named, .. } => named == block,
            _ => false,
        },
        block.blobhashes.len() > 0,
        prior_anchor_block.blobhashes.len() > 0,
    ensures
        single_blob_transaction_challenge(
            evidence,
            blob_data,
            anchor,
            prior_anchor_block,
            prior_anchor_blob_data,
            prior_anchor_field_index,
            rollback_target_block,
        ) == transaction_challenge(
            evidence,
            seq![BlobWithHash { data: blob_data, hash: block.blobhashes[0] }],
            anchor,
            prior_anchor_block,
            seq![
                BlobWithHash {
                    data: prior_anchor_blob_data,
                    hash: prior_anchor_block.blobhashes[0],
                },
            ],
            prior_anchor_field_index,
            rollback_target_block,
        ),
{
}

/// A challenge of a tree update whose block has one blob is that out of this blob, under the first
/// hash in the block's header, and with the prior anchor out of one blob.
pub proof fn law_single_blob_tree_update_challenge(
    evidence: EvidenceView,
    blob_data: &[u8],
    prior_anchor: B256,
    prior_anchor_blob: BlobWithHash,
    prior_anchor_field_index: nat,
    true_anchor: B256,
    zk_proof: Proof,
    rollback_target_block: BlockView,
)
    requires
        evidence matches EvidenceView::IncorrectTreeUpdate { block, .. } && block.blobhashes.len() > 0,
    ensures
        single_blob_tree_update_challenge(
            evidence,
            blob_data,
            prior_anchor,
            prior_anchor_blob.data,
            prior_anchor_field_index,
            true_anchor,
            zk_proof,
            rollback_target_block,
        ) == tree_update_challenge(
            evidence,
            seq![
                BlobWithHash {
                    data: blob_data,
                    hash: evidence->IncorrectTreeUpdate_block.blobhashes[0],
                },
            ],
            prior_anchor,
            seq![prior_anchor_blob],
            prior_anchor_field_index,
            true_anchor,
            zk_proof,
            rollback_target_block,
        ),
{
}

} // verus!
