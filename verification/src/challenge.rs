//! Challenges: what is submitted on chain to prove that a block is fraudulent.

pub mod contents;
pub mod found;
pub mod laws;
pub mod memory;
pub mod params;

use crate::blob::{block_contents, field_at, holds_bytes, holds_field, Blob};
use crate::kzg::{
    blob_commitment, field_bytes, field_proof, FieldProofView, KzgError, KzgFieldProof, KzgProver,
};
use crate::types::{BlockData, BlockView, Proof, B256, U256};
use crate::validators::{EvidenceView, FraudEvidence};
use memory::{
    deposit_groups, deposit_leaf_address, global_to_local_address, nullifier_address,
    nullifier_memory_address, tx_address, tx_memory_address,
};
pub use params::{
    challenged_deposit, challenged_transaction, challenged_update, deposit_challenge, field_opening,
    genesis_challenge, header_number, leading_hash, lift, no_region, nullifier_challenge, proof_at, region_of,
    region_pair_of, single_blob_transaction_challenge, single_blob_tree_update_challenge,
    transaction_challenge, tree_update_challenge, update_address, update_in_reach, BlobWithHash,
    ChallengeError, DepositChallenge, DepositChallengeParams, NullifierChallenge, NullifierChallengeParams,
    Region, RegionPair, RegionView, TransactionChallenge, TransactionChallengeParams, TreeUpdateChallenge,
    TreeUpdateChallengeParams,
};
use vstd::prelude::*;

verus! {

/// Number of 32-byte fields per blob.
pub const BLOB_FIELD_COUNT: usize = 4096;

/// A number of a block header as 64 bits.
fn u256_to_u64(value: U256) -> (r: Result<u64, ChallengeError>)
    ensures
        r matches Ok(v) ==> header_number(value) == Ok::<nat, ChallengeError>(v as nat),
        r matches Err(e) ==> header_number(value) == Err::<nat, _>(e),
{
    match value.to_u64() {
        Some(v) => Ok(v),
        None => Err(ChallengeError::ValueTooLarge),
    }
}

/// Builds challenges out of evidence.
#[derive(Clone, Copy, Debug)]
pub struct ChallengeBuilder {
    kzg_prover: KzgProver,
}

impl ChallengeBuilder {
    /// A builder of challenges.
    pub fn new() -> (r: Result<ChallengeBuilder, ChallengeError>)
        ensures
            r is Ok,
    {
        match KzgProver::new() {
            Ok(kzg_prover) => Ok(ChallengeBuilder { kzg_prover }),
            Err(e) => Err(ChallengeError::Kzg(e)),
        }
    }

    /// Address of the leaf of a deposit.
    pub fn deposit_leaf_memory_address(deposit_nr: u64) -> (r: usize)
        requires
            deposit_leaf_address(deposit_nr as nat) <= usize::MAX,
        ensures
            r == deposit_leaf_address(deposit_nr as nat),
    {
        let n: usize = deposit_nr as usize;
        n + n / 3
    }

    /// Makes the KZG proof of a field of one blob.
    pub fn generate_proof(&self, blob_data: &[u8], field_index: usize) -> (r: Result<
        KzgFieldProof,
        ChallengeError,
    >)
        ensures
            r matches Ok(p) ==> field_proof(blob_data@, field_index as nat) == Ok::<_, KzgError>(p@)
                && p.commitment@.len() == 48 && p.proof@.len() == 48,
            r matches Err(e) ==> lift(field_proof(blob_data@, field_index as nat)) == Err::<
                FieldProofView,
                _,
            >(e),
    {
        match self.kzg_prover.generate_proof(blob_data, field_index) {
            Ok(p) => Ok(p),
            Err(e) => Err(ChallengeError::Kzg(e)),
        }
    }

    /// Computes the KZG commitment to a blob.
    pub fn compute_commitment(&self, blob_data: &[u8]) -> (r: Result<Vec<u8>, ChallengeError>)
        ensures
            r matches Ok(c) ==> blob_commitment(blob_data@) == Ok::<_, KzgError>(c@) && c@.len()
                == 48,
            r matches Err(e) ==> lift(blob_commitment(blob_data@)) == Err::<Seq<u8>, _>(e),
    {
        match self.kzg_prover.compute_commitment(blob_data) {
            Ok(c) => Ok(c),
            Err(e) => Err(ChallengeError::Kzg(e)),
        }
    }

    /// Makes the KZG proof of the field at a global address.
    pub fn generate_proof_multi_blob(&self, blobs: &[BlobWithHash], global_address: usize) -> (r:
        Result<(KzgFieldProof, B256), ChallengeError>)
        ensures
            r matches Ok(p) ==> proof_at(blobs@, global_address as nat) == Ok::<_, ChallengeError>(
                (p.0@, p.1),
            ),
            r matches Err(e) ==> proof_at(blobs@, global_address as nat) == Err::<
                (FieldProofView, B256),
                _,
            >(e),
    {
        let (blob_index, local_index) = global_to_local_address(global_address);
        if blob_index >= blobs.len() {
            return Err(ChallengeError::BlobMissing { blob: blob_index, provided: blobs.len() });
        }
        let blob = &blobs[blob_index];
        match self.generate_proof(blob.data, local_index) {
            Ok(proof) => Ok((proof, blob.hash)),
            Err(e) => Err(e),
        }
    }

    /// Builds the region of `length` fields of one blob from `start_address` on.
    pub fn build_region(
        &self,
        blob_data: &[u8],
        start_address: usize,
        length: usize,
        blob_hash: B256,
    ) -> (r: Result<Region, ChallengeError>)
        ensures
            r matches Ok(region) ==> region_of(
                blob_data@,
                start_address as nat,
                length as nat,
                blob_hash,
            ) == Ok::<_, ChallengeError>(region@),
            r matches Err(e) ==> region_of(
                blob_data@,
                start_address as nat,
                length as nat,
                blob_hash,
            ) == Err::<RegionView, _>(e),
    {
        let commitment = match self.compute_commitment(blob_data) {
            Ok(c) => c,
            Err(e) => {
                return Err(e);
            },
        };
        let mut data: Vec<B256> = Vec::new();
        let mut proofs: Vec<Vec<u8>> = Vec::new();
        let mut i: usize = 0;
        while i < length
            invariant
                i <= length,
                i > 0 ==> start_address + i <= 4096,
                blob_commitment(blob_data@) is Ok,
                data@.len() == i,
                proofs@.len() == i,
                forall|j: int|
                    0 <= j < i ==> (#[trigger] data@[j])@ == field_bytes(
                        blob_data@,
                        start_address + j,
                    ),
                forall|j: int|
                    0 <= j < i ==> (#[trigger] proofs@[j])@ == field_opening(
                        blob_data@,
                        (start_address + j) as nat,
                    ),
            decreases length - i,
        {
            let kzg_proof = match self.generate_proof(blob_data, start_address + i) {
                Ok(p) => p,
                Err(e) => {
                    return Err(e);
                },
            };
            data.push(kzg_proof.value);
            proofs.push(kzg_proof.proof);
            i += 1;
        }
        let region = Region {
            length: U256::from_u64(length as u64),
            memory_address: U256::from_u64(start_address as u64),
            data,
            proofs,
            commitment,
            hash: blob_hash,
        };
        proof {
            let want = region_of(blob_data@, start_address as nat, length as nat, blob_hash);
            assert(region@.data =~= want->Ok_0.data);
            assert(region@.proofs =~= want->Ok_0.proofs);
        }
        Ok(region)
    }

    /// The region without fields.
    pub fn empty_region() -> (r: Region)
        ensures
            r@ == no_region(),
    {
        let r = Region {
            length: U256::zero(),
            memory_address: U256::zero(),
            data: Vec::new(),
            proofs: Vec::new(),
            commitment: Vec::new(),
            hash: B256::zero(),
        };
        assert(r@.data =~= Seq::empty());
        assert(r@.proofs =~= Seq::empty());
        r
    }

    /// Builds the region of `length` fields of a block from a global address on, split
    /// where it runs on into the next blob.
    pub fn build_region_with_extension(
        &self,
        blobs: &[BlobWithHash],
        global_start_address: usize,
        length: usize,
    ) -> (r: Result<RegionPair, ChallengeError>)
        requires
            global_start_address % 4096 + length <= usize::MAX,
        ensures
            r matches Ok(p) ==> region_pair_of(blobs@, global_start_address as nat, length as nat)
                == Ok::<_, ChallengeError>((p.region@, p.extension@)),
            r matches Err(e) ==> region_pair_of(
                blobs@,
                global_start_address as nat,
                length as nat,
            ) == Err::<(RegionView, RegionView), _>(e),
    {
        if blobs.len() == 0 {
            return Err(ChallengeError::NoBlobs);
        }
        let blob: usize = global_start_address / BLOB_FIELD_COUNT;
        let local: usize = global_start_address % BLOB_FIELD_COUNT;
        if blob >= blobs.len() {
            return Err(ChallengeError::BlobMissing { blob, provided: blobs.len() });
        }
        if local + length <= BLOB_FIELD_COUNT {
            match self.build_region(blobs[blob].data, local, length, blobs[blob].hash) {
                Ok(region) => Ok(RegionPair { region, extension: Self::empty_region() }),
                Err(e) => Err(e),
            }
        } else {
            let first_blob_count: usize = BLOB_FIELD_COUNT - local;
            let second_blob_count: usize = length - first_blob_count;
            if blob + 1 >= blobs.len() {
                return Err(
                    ChallengeError::SecondBlobMissing { start: global_start_address, length },
                );
            }
            let region = match self.build_region(
                blobs[blob].data,
                local,
                first_blob_count,
                blobs[blob].hash,
            ) {
                Ok(region) => region,
                Err(e) => {
                    return Err(e);
                },
            };
            match self.build_region(
                blobs[blob + 1].data,
                0,
                second_blob_count,
                blobs[blob + 1].hash,
            ) {
                Ok(extension) => Ok(RegionPair { region, extension }),
                Err(e) => Err(e),
            }
        }
    }

    /// Builds the challenge of a deposit. The leaf that goes into it is the field of
    /// the blob, whatever the evidence says of it.
    pub fn build_deposit_challenge(
        &self,
        evidence: &FraudEvidence,
        blobs: &[BlobWithHash],
        prior_block: BlockData,
    ) -> (r: Result<DepositChallengeParams, ChallengeError>)
        requires
            challenged_deposit(evidence@) matches Ok((_, nr)) ==> deposit_leaf_address(nr as nat)
                <= usize::MAX,
        ensures
            r matches Ok(p) ==> deposit_challenge(evidence@, blobs@, prior_block@) == Ok::<
                _,
                ChallengeError,
            >(p@),
            r matches Err(e) ==> deposit_challenge(evidence@, blobs@, prior_block@) == Err::<
                DepositChallenge,
                _,
            >(e),
    {
        if blobs.len() == 0 {
            return Err(ChallengeError::NoBlobsForDeposit);
        }
        let (block_data, deposit_nr): (&BlockData, u64) = match evidence {
            FraudEvidence::DepositWrongLeaf { block_data, deposit_nr, .. } => (
                block_data,
                *deposit_nr,
            ),
            FraudEvidence::DepositPaddingNotZero { block_data, group_index, slot_index, .. } => {
                if *slot_index > 2 {
                    return Err(ChallengeError::InvalidSlotIndex { slot: *slot_index });
                }
                let first: u64 = match group_index.checked_mul(3) {
                    Some(first) => first,
                    None => {
                        return Err(ChallengeError::DepositNumberOverflow);
                    },
                };
                match first.checked_add(*slot_index) {
                    Some(nr) => (block_data, nr),
                    None => {
                        return Err(ChallengeError::DepositNumberOverflow);
                    },
                }
            },
            _ => {
                return Err(ChallengeError::ExpectedDepositEvidence);
            },
        };
        let address = Self::deposit_leaf_memory_address(deposit_nr);
        match self.generate_proof_multi_blob(blobs, address) {
            Ok((kzg_proof, _)) => Ok(
                DepositChallengeParams {
                    block_data: block_data.clone(),
                    deposit_nr,
                    sequencer_submitted_leaf: kzg_proof.value.0,
                    commitment: kzg_proof.commitment,
                    proof: kzg_proof.proof,
                    prior_block,
                },
            ),
            Err(e) => Err(e),
        }
    }

    /// Builds the challenge of a nullifier that two transactions use.
    pub fn build_nullifier_challenge(
        &self,
        evidence: &FraudEvidence,
        first_blobs: &[BlobWithHash],
        second_blobs: &[BlobWithHash],
        first_block_data: BlockData,
        second_block_data: BlockData,
        prior_block: BlockData,
    ) -> (r: Result<NullifierChallengeParams, ChallengeError>)
        requires
            evidence@ matches EvidenceView::NullifierDoubleSpend {
                first_tx_number,
                second_tx_number,
                first_which,
                second_which,
                ..
            } ==> {
                &&& first_which < 2
                &&& second_which < 2
                &&& first_block_data.num_deposits@ <= u64::MAX ==> nullifier_address(
                    first_tx_number as nat,
                    first_block_data.num_deposits@,
                    first_which as nat,
                ) <= usize::MAX
                &&& second_block_data.num_deposits@ <= u64::MAX ==> nullifier_address(
                    second_tx_number as nat,
                    second_block_data.num_deposits@,
                    second_which as nat,
                ) <= usize::MAX
            },
        ensures
            r matches Ok(p) ==> nullifier_challenge(
                evidence@,
                first_blobs@,
                second_blobs@,
                first_block_data@,
                second_block_data@,
                prior_block@,
            ) == Ok::<_, ChallengeError>(p@),
            r matches Err(e) ==> nullifier_challenge(
                evidence@,
                first_blobs@,
                second_blobs@,
                first_block_data@,
                second_block_data@,
                prior_block@,
            ) == Err::<NullifierChallenge, _>(e),
    {
        if first_blobs.len() == 0 {
            return Err(ChallengeError::NoBlobsForFirstBlock);
        }
        if second_blobs.len() == 0 {
            return Err(ChallengeError::NoBlobsForSecondBlock);
        }
        match evidence {
            FraudEvidence::NullifierDoubleSpend {
                first_tx_number,
                second_tx_number,
                first_which,
                second_which,
                nullifier,
                ..
            } => {
                let first_deposits: u64 = match u256_to_u64(first_block_data.num_deposits) {
                    Ok(n) => n,
                    Err(e) => {
                        return Err(e);
                    },
                };
                let second_deposits: u64 = match u256_to_u64(second_block_data.num_deposits) {
                    Ok(n) => n,
                    Err(e) => {
                        return Err(e);
                    },
                };
                let first_tx: u64 = *first_tx_number as u64;
                let second_tx: u64 = *second_tx_number as u64;
                let first_address: u64 = nullifier_memory_address(
                    first_tx,
                    first_deposits,
                    *first_which as u64,
                );
                let second_address: u64 = nullifier_memory_address(
                    second_tx,
                    second_deposits,
                    *second_which as u64,
                );
                let first = match self.generate_proof_multi_blob(
                    first_blobs,
                    first_address as usize,
                ) {
                    Ok((p, _)) => p,
                    Err(e) => {
                        return Err(e);
                    },
                };
                let second = match self.generate_proof_multi_blob(
                    second_blobs,
                    second_address as usize,
                ) {
                    Ok((p, _)) => p,
                    Err(e) => {
                        return Err(e);
                    },
                };
                Ok(
                    NullifierChallengeParams {
                        reused_nullifier: *nullifier,
                        first_block_data,
                        second_block_data,
                        first_tx_number: first_tx,
                        second_tx_number: second_tx,
                        first_which: *first_which,
                        second_which: *second_which,
                        first_commitment: first.commitment,
                        first_proof: first.proof,
                        second_commitment: second.commitment,
                        second_proof: second.proof,
                        prior_block,
                    },
                )
            },
            _ => Err(ChallengeError::ExpectedNullifierEvidence),
        }
    }

    /// Builds the challenge of a transaction.
    pub fn build_transaction_challenge_multi_blob(
        &self,
        evidence: &FraudEvidence,
        blobs: &[BlobWithHash],
        anchor: B256,
        prior_anchor_block: BlockData,
        prior_anchor_blobs: &[BlobWithHash],
        prior_anchor_field_index: usize,
        rollback_target_block: BlockData,
    ) -> (r: Result<TransactionChallengeParams, ChallengeError>)
        requires
            challenged_transaction(evidence@) matches Ok((block, tx_nr)) ==> block.num_deposits@
                <= u64::MAX ==> tx_address(tx_nr as nat, block.num_deposits@) + 14 <= usize::MAX,
        ensures
            r matches Ok(p) ==> transaction_challenge(
                evidence@,
                blobs@,
                anchor,
                prior_anchor_block@,
                prior_anchor_blobs@,
                prior_anchor_field_index as nat,
                rollback_target_block@,
            ) == Ok::<_, ChallengeError>(p@),
            r matches Err(e) ==> transaction_challenge(
                evidence@,
                blobs@,
                anchor,
                prior_anchor_block@,
                prior_anchor_blobs@,
                prior_anchor_field_index as nat,
                rollback_target_block@,
            ) == Err::<TransactionChallenge, _>(e),
    {
        if blobs.len() == 0 {
            return Err(ChallengeError::NoBlobsForCurrentBlock);
        }
        if prior_anchor_blobs.len() == 0 {
            return Err(ChallengeError::NoBlobsForPriorAnchorBlock);
        }
        let (block_data, tx_nr): (&BlockData, u64) = match evidence {
            FraudEvidence::InvalidTransactionProof { block_data, tx_nr, .. } => (
                block_data,
                *tx_nr,
            ),
            FraudEvidence::InvalidAnchorReference { block_data, tx_nr, .. } => (block_data, *tx_nr),
            FraudEvidence::MissingEthKeyAuth { block_data, tx_nr, .. } => (block_data, *tx_nr),
            _ => {
                return Err(ChallengeError::ExpectedTransactionEvidence);
            },
        };
        let num_deposits: u64 = match u256_to_u64(block_data.num_deposits) {
            Ok(n) => n,
            Err(e) => {
                return Err(e);
            },
        };
        let tx_start: usize = tx_memory_address(tx_nr, num_deposits) as usize;
        let pair = match self.build_region_with_extension(blobs, tx_start, 14) {
            Ok(pair) => pair,
            Err(e) => {
                return Err(e);
            },
        };
        match self.generate_proof_multi_blob(prior_anchor_blobs, prior_anchor_field_index) {
            Ok((p, _)) => Ok(
                TransactionChallengeParams {
                    block_data: block_data.clone(),
                    tx_nr,
                    region: pair.region,
                    extension_region: pair.extension,
                    anchor,
                    prior_anchor_block,
                    prior_anchor_commitment: p.commitment,
                    prior_anchor_proof: p.proof,
                    rollback_target_block,
                },
            ),
            Err(e) => Err(e),
        }
    }

    /// Builds the challenge of a transaction of a block that has one blob only, against
    /// an anchor in a block that has one blob only.
    pub fn build_transaction_challenge(
        &self,
        evidence: &FraudEvidence,
        blob_data: &[u8],
        anchor: B256,
        prior_anchor_block: BlockData,
        prior_anchor_blob_data: &[u8],
        prior_anchor_field_index: usize,
        rollback_target_block: BlockData,
    ) -> (r: Result<TransactionChallengeParams, ChallengeError>)
        requires
            challenged_transaction(evidence@) matches Ok((block, tx_nr)) ==> block.num_deposits@
                <= u64::MAX ==> tx_address(tx_nr as nat, block.num_deposits@) + 14 <= usize::MAX,
        ensures
            r matches Ok(p) ==> single_blob_transaction_challenge(
                evidence@,
                blob_data,
                anchor,
                prior_anchor_block@,
                prior_anchor_blob_data,
                prior_anchor_field_index as nat,
                rollback_target_block@,
            ) == Ok::<_, ChallengeError>(p@),
            r matches Err(e) ==> single_blob_transaction_challenge(
                evidence@,
                blob_data,
                anchor,
                prior_anchor_block@,
                prior_anchor_blob_data,
                prior_anchor_field_index as nat,
                rollback_target_block@,
            ) == Err::<TransactionChallenge, _>(e),
    {
        let block_data: &BlockData = match evidence {
            FraudEvidence::InvalidTransactionProof { block_data, .. } => block_data,
            FraudEvidence::InvalidAnchorReference { block_data, .. } => block_data,
            FraudEvidence::MissingEthKeyAuth { block_data, .. } => block_data,
            _ => {
                return Err(ChallengeError::ExpectedTransactionEvidence);
            },
        };
        let mut blobs: Vec<BlobWithHash> = Vec::new();
        blobs.push(BlobWithHash { data: blob_data, hash: first_hash(&block_data.blobhashes) });
        let mut prior_blobs: Vec<BlobWithHash> = Vec::new();
        prior_blobs.push(
            BlobWithHash {
                data: prior_anchor_blob_data,
                hash: first_hash(&prior_anchor_block.blobhashes),
            },
        );
        assert(blobs@ =~= seq![blobs@[0]]);
        assert(prior_blobs@ =~= seq![prior_blobs@[0]]);
        self.build_transaction_challenge_multi_blob(
            evidence,
            blobs.as_slice(),
            anchor,
            prior_anchor_block,
            prior_blobs.as_slice(),
            prior_anchor_field_index,
            rollback_target_block,
        )
    }

    /// Builds the challenge of a tree update whose prior anchor stands in a blob.
    pub fn build_tree_update_challenge_multi_blob(
        &self,
        evidence: &FraudEvidence,
        blobs: &[BlobWithHash],
        prior_anchor: B256,
        prior_anchor_blobs: &[BlobWithHash],
        prior_anchor_field_index: usize,
        true_anchor: B256,
        zk_proof: Proof,
        rollback_target_block: BlockData,
    ) -> (r: Result<TreeUpdateChallengeParams, ChallengeError>)
        requires
            update_in_reach(evidence@),
        ensures
            r matches Ok(p) ==> tree_update_challenge(
                evidence@,
                blobs@,
                prior_anchor,
                prior_anchor_blobs@,
                prior_anchor_field_index as nat,
                true_anchor,
                zk_proof,
                rollback_target_block@,
            ) == Ok::<_, ChallengeError>(p@),
            r matches Err(e) ==> tree_update_challenge(
                evidence@,
                blobs@,
                prior_anchor,
                prior_anchor_blobs@,
                prior_anchor_field_index as nat,
                true_anchor,
                zk_proof,
                rollback_target_block@,
            ) == Err::<TreeUpdateChallenge, _>(e),
    {
        if blobs.len() == 0 {
            return Err(ChallengeError::NoBlobsForCurrentBlock);
        }
        if prior_anchor_blobs.len() == 0 {
            return Err(ChallengeError::NoBlobsForPriorAnchorBlock);
        }
        let (block_data, update_nr, is_tx): (&BlockData, u64, bool) = match evidence {
            FraudEvidence::IncorrectTreeUpdate { block_data, update_nr, is_tx, .. } => (
                block_data,
                *update_nr,
                *is_tx,
            ),
            _ => {
                return Err(ChallengeError::ExpectedTreeUpdateEvidence);
            },
        };
        let num_deposits: u64 = match u256_to_u64(block_data.num_deposits) {
            Ok(n) => n,
            Err(e) => {
                return Err(e);
            },
        };
        let region_start: usize = if is_tx {
            let groups: u64 = if num_deposits % 3 == 0 {
                num_deposits / 3
            } else {
                num_deposits / 3 + 1
            };
            let tx_nr: u64 = update_nr - groups;
            tx_memory_address(tx_nr, num_deposits) as usize + 11
        } else {
            (update_nr * 4) as usize
        };
        let pair = match self.build_region_with_extension(blobs, region_start, 4) {
            Ok(pair) => pair,
            Err(e) => {
                return Err(e);
            },
        };
        match self.generate_proof_multi_blob(prior_anchor_blobs, prior_anchor_field_index) {
            Ok((p, _)) => Ok(
                TreeUpdateChallengeParams {
                    block_data: block_data.clone(),
                    update_nr,
                    is_tx,
                    region: pair.region,
                    extension_region: pair.extension,
                    prior_anchor,
                    prior_anchor_commitment: p.commitment,
                    prior_anchor_proof: p.proof,
                    true_anchor,
                    zk_proof,
                    rollback_target_block,
                },
            ),
            Err(e) => Err(e),
        }
    }

    /// Builds the challenge of a tree update of a block that has one blob only, the
    /// prior anchor standing in a block that has one blob only.
    pub fn build_tree_update_challenge(
        &self,
        evidence: &FraudEvidence,
        blob_data: &[u8],
        prior_anchor: B256,
        prior_anchor_blob_data: &[u8],
        prior_anchor_field_index: usize,
        true_anchor: B256,
        zk_proof: Proof,
        rollback_target_block: BlockData,
    ) -> (r: Result<TreeUpdateChallengeParams, ChallengeError>)
        requires
            update_in_reach(evidence@),
        ensures
            r matches Ok(p) ==> single_blob_tree_update_challenge(
                evidence@,
                blob_data,
                prior_anchor,
                prior_anchor_blob_data,
                prior_anchor_field_index as nat,
                true_anchor,
                zk_proof,
                rollback_target_block@,
            ) == Ok::<_, ChallengeError>(p@),
            r matches Err(e) ==> single_blob_tree_update_challenge(
                evidence@,
                blob_data,
                prior_anchor,
                prior_anchor_blob_data,
                prior_anchor_field_index as nat,
                true_anchor,
                zk_proof,
                rollback_target_block@,
            ) == Err::<TreeUpdateChallenge, _>(e),
    {
        let block_data: &BlockData = match evidence {
            FraudEvidence::IncorrectTreeUpdate { block_data, .. } => block_data,
            _ => {
                return Err(ChallengeError::ExpectedTreeUpdateEvidence);
            },
        };
        let mut blobs: Vec<BlobWithHash> = Vec::new();
        blobs.push(BlobWithHash { data: blob_data, hash: first_hash(&block_data.blobhashes) });
        let mut prior_blobs: Vec<BlobWithHash> = Vec::new();
        prior_blobs.push(BlobWithHash { data: prior_anchor_blob_data, hash: B256::zero() });
        assert(blobs@ =~= seq![blobs@[0]]);
        assert(prior_blobs@ =~= seq![prior_blobs@[0]]);
        self.build_tree_update_challenge_multi_blob(
            evidence,
            blobs.as_slice(),
            prior_anchor,
            prior_blobs.as_slice(),
            prior_anchor_field_index,
            true_anchor,
            zk_proof,
            rollback_target_block,
        )
    }

    /// Builds the challenge of the first update of the first block. The contract knows
    /// the anchor before it, so no proof of that goes in.
    pub fn build_tree_update_challenge_genesis(
        &self,
        evidence: &FraudEvidence,
        blobs: &[BlobWithHash],
        genesis_anchor: B256,
        true_anchor: B256,
        zk_proof: Proof,
        rollback_target_block: BlockData,
    ) -> (r: Result<TreeUpdateChallengeParams, ChallengeError>)
        requires
            challenged_update(evidence@) matches Ok((block, _, is_tx)) ==> is_tx
                && block.num_deposits@ <= u64::MAX ==> tx_address(0, block.num_deposits@) + 15
                <= usize::MAX,
        ensures
            r matches Ok(p) ==> genesis_challenge(
                evidence@,
                blobs@,
                genesis_anchor,
                true_anchor,
                zk_proof,
                rollback_target_block@,
            ) == Ok::<_, ChallengeError>(p@),
            r matches Err(e) ==> genesis_challenge(
                evidence@,
                blobs@,
                genesis_anchor,
                true_anchor,
                zk_proof,
                rollback_target_block@,
            ) == Err::<TreeUpdateChallenge, _>(e),
    {
        if blobs.len() == 0 {
            return Err(ChallengeError::NoBlobsForCurrentBlock);
        }
        let (block_data, update_nr, is_tx): (&BlockData, u64, bool) = match evidence {
            FraudEvidence::IncorrectTreeUpdate { block_data, update_nr, is_tx, .. } => (
                block_data,
                *update_nr,
                *is_tx,
            ),
            _ => {
                return Err(ChallengeError::ExpectedTreeUpdateEvidence);
            },
        };
        if !block_data.block_nr.is_zero() {
            return Err(ChallengeError::NotGenesisBlock);
        }
        if update_nr != 0 {
            return Err(ChallengeError::NotFirstUpdate);
        }
        let num_deposits: u64 = match u256_to_u64(block_data.num_deposits) {
            Ok(n) => n,
            Err(e) => {
                return Err(e);
            },
        };
        let region_start: usize = if is_tx {
            tx_memory_address(0, num_deposits) as usize + 11
        } else {
            0
        };
        match self.build_region_with_extension(blobs, region_start, 4) {
            Ok(pair) => {
                let params = TreeUpdateChallengeParams {
                    block_data: block_data.clone(),
                    update_nr,
                    is_tx,
                    region: pair.region,
                    extension_region: pair.extension,
                    prior_anchor: genesis_anchor,
                    prior_anchor_commitment: Vec::new(),
                    prior_anchor_proof: Vec::new(),
                    true_anchor,
                    zk_proof,
                    rollback_target_block,
                };
                Ok(params)
            },
            Err(e) => Err(e),
        }
    }
}

impl Default for ChallengeBuilder {
    fn default() -> (r: Self) {
        ChallengeBuilder { kzg_prover: KzgProver::default() }
    }
}

/// The first of a list of hashes, zero where there is none.
fn first_hash(hashes: &Vec<B256>) -> (r: B256)
    ensures
        r == leading_hash(hashes@),
{
    if hashes.len() > 0 {
        hashes[0]
    } else {
        B256::zero()
    }
}

/// The bytes of the field at a global address.
pub open spec fn field_bytes_at(blobs: Seq<BlobWithHash>, address: int) -> Seq<u8> {
    field_bytes(blobs[address / 4096].data@, address % 4096)
}

/// A region and its extension together hold exactly the fields that were asked for, in
/// order, with one proof for each.
pub proof fn law_region_pair_complete(blobs: Seq<BlobWithHash>, start: nat, length: nat)
    requires
        region_pair_of(blobs, start, length) is Ok,
    ensures
        ({
            let (region, extension) = region_pair_of(blobs, start, length)->Ok_0;
            &&& region.length + extension.length == length
            &&& region.data + extension.data == Seq::new(
                length,
                |i: int| field_bytes_at(blobs, start + i),
            )
            &&& region.proofs.len() == region.length
            &&& extension.proofs.len() == extension.length
            &&& extension.length > 0 ==> region.memory_address + region.length == 4096
                && extension.memory_address == 0
        }),
{
    let (region, extension) = region_pair_of(blobs, start, length)->Ok_0;
    let want = Seq::new(length, |i: int| field_bytes_at(blobs, start + i));
    let blob = (start / 4096) as int;
    let local = (start % 4096) as int;
    assert forall|i: int| 0 <= i < length implies #[trigger] want[i] == (region.data
        + extension.data)[i] by {
        if local + i < 4096 {
            assert((start + i) / 4096 == blob && (start + i) % 4096 == local + i);
        } else {
            assert(local + i - 4096 < extension.length <= 4096);
            assert((start + i) / 4096 == blob + 1 && (start + i) % 4096 == local + i - 4096);
        }
    }
    assert(region.data + extension.data =~= want);
}

/// A proof at an address opens the field that was read from that address.
pub proof fn law_opened_field_is_read_field(
    blobs: Seq<BlobWithHash>,
    fields: Seq<Blob>,
    address: nat,
)
    requires
        fields.len() == blobs.len(),
        forall|i: int| 0 <= i < blobs.len() ==> #[trigger] holds_bytes(fields[i], blobs[i].data@),
        proof_at(blobs, address) is Ok,
    ensures
        (proof_at(blobs, address)->Ok_0).0.value == field_at(fields, address as int)@,
{
    let b = (address / 4096) as int;
    assert(holds_bytes(fields[b], blobs[b].data@));
    assert(holds_field(fields[b], blobs[b].data@, (address % 4096) as int));
}

/// The leaf that a deposit challenge submits is the one that the block was read to
/// hold, whichever kind of deposit evidence it is built from.
pub proof fn law_deposit_challenge_submits_read_leaf(
    evidence: EvidenceView,
    blobs: Seq<BlobWithHash>,
    fields: Seq<Blob>,
    num_deposits: nat,
    num_transactions: nat,
    prior_block: BlockView,
)
    requires
        fields.len() == blobs.len(),
        forall|i: int| 0 <= i < blobs.len() ==> #[trigger] holds_bytes(fields[i], blobs[i].data@),
        deposit_challenge(evidence, blobs, prior_block) is Ok,
        (challenged_deposit(evidence)->Ok_0).1 < 3 * deposit_groups(num_deposits),
    ensures
        ({
            let challenge = deposit_challenge(evidence, blobs, prior_block)->Ok_0;
            let block = block_contents(fields, num_deposits, num_transactions);
            block.deposit_leaf(challenge.deposit_nr as int) matches Some(leaf)
                && challenge.leaf == leaf@
        }),
{
    let nr = (challenged_deposit(evidence)->Ok_0).1;
    law_opened_field_is_read_field(blobs, fields, deposit_leaf_address(nr as nat));
    assert(deposit_leaf_address(nr as nat) == 4 * (nr / 3) + nr % 3);
}

} // verus!
