//! The course of a block: it is opened, checked, and closed, and draws no evidence exactly
//! where it is valid.

use super::{
    anchors_of_block, context_of, final_root, fits_trees, found_evidence, is_block_in,
    law_unreadable_iff, law_updates_start_from_the_chain, parse_failure, short_block_nr, tree_index_of,
    BlockChecks, BlockOutcome, ChallengerRunner, RunnerError,
};
use crate::blob::{BlockContents, DecodedAnchorInfo, ParsedBlock};
use crate::challenge::memory::deposit_groups;
use crate::groth16::KeyView;
use crate::merkle::{climb, tree_root};
use crate::types::{BlockData, BlockView, B256};
use crate::validators::deposit::{
    checked_deposits, deposit_frauds, law_no_evidence_iff_deposits_kept,
    law_no_evidence_means_leaves_as_recorded, padded_wrongly, wrong_leaf,
};
use crate::validators::nullifier::{
    first_uses, law_first_uses_are_uses, law_first_uses_cover, law_no_evidence_iff_nullifiers_are_new,
    law_no_evidence_iff_unspent, lookup, nullifier_frauds, revealed, uses_of, NullifierRecord,
    NullifierValidator,
};
use crate::validators::transaction::{
    block_verdicts, law_no_evidence_iff_all_accepted, transaction_frauds, verdict_views, with_anchors,
    AnchorsView, VerdictView,
};
use crate::validators::tree_update::root_tracker::{anchor_of, RootTreeTracker};
use crate::validators::tree_update::{
    anchor_after, are_leaves_of, law_no_evidence_iff_correct, law_no_tree_evidence_iff_roots_are_right,
    tree_frauds, updates_of, TreeContext, TreeUpdate,
};
use crate::validators::{evidence_views, EvidenceView};
use vstd::prelude::*;

verus! {

/// A block that was read, with what is to be kept of it and asked for to check it.
#[derive(Debug)]
pub struct OpenBlock {
    pub block: ParsedBlock,
    /// The anchors that it leaves behind, to be kept.
    pub anchors: Vec<(u32, u32, bool, B256)>,
    /// Its nullifiers, whose records are to be asked for.
    pub nullifiers: Vec<B256>,
}

/// The nullifiers in a list of uses.
pub open spec fn nullifiers_of(uses: Seq<(B256, NullifierRecord)>) -> Seq<B256> {
    Seq::new(uses.len(), |i: int| uses[i].0)
}

/// Why a block cannot be opened.
pub open spec fn open_failure(header: BlockView, num_blobs: nat) -> Option<RunnerError> {
    match parse_failure(header, num_blobs) {
        Some(e) => Some(e),
        None => if deposit_groups(header.num_deposits@) > u32::MAX || header.num_transactions@
            > u32::MAX {
            Some(RunnerError::TooManyUpdates)
        } else {
            None
        },
    }
}

impl ChallengerRunner {
    /// Opens a block: reads it out of the bytes of its blobs, and enters the anchors that it
    /// leaves behind, so that its own transactions can refer to them.
    pub fn open_block(&mut self, block_nr: u64, block_data: &BlockData, blob_data: &[Vec<u8>]) -> (r:
        Result<OpenBlock, RunnerError>)
        requires
            old(self).wf(),
            4096 * blob_data@.len() <= usize::MAX,
        ensures
            final(self).wf(),
            final(self).same_settings(*old(self)),
            final(self).blocks() == old(self).blocks(),
            r is Ok <==> open_failure(block_data@, blob_data@.len()) is None,
            r matches Ok(o) ==> {
                &&& is_block_in(o.block@, block_data@, blob_data@)
                &&& o.anchors@ == anchors_of_block(short_block_nr(block_nr), o.block@)
                &&& final(self).anchors() == (AnchorsView {
                    anchors: with_anchors(old(self).anchors().anchors, o.anchors@),
                    ..old(self).anchors()
                })
                &&& o.nullifiers@ == nullifiers_of(
                    first_uses(
                        uses_of(block_nr, o.block@.transactions),
                        uses_of(block_nr, o.block@.transactions).len(),
                    ),
                )
            },
            r matches Err(e) ==> open_failure(block_data@, blob_data@.len()) == Some(e)
                && *final(self) == *old(self),
    {
        let block = match self.parse_block(block_data, blob_data) {
            Ok(block) => block,
            Err(e) => {
                return Err(e);
            },
        };
        if block.deposit_groups.len() as u64 > u32::MAX as u64 || block.transactions.len() as u64
            > u32::MAX as u64 {
            return Err(RunnerError::TooManyUpdates);
        }
        let anchors = self.record_anchors(block_nr, &block);
        let first_uses = NullifierValidator::new().collect_nullifiers(block_nr, &block).first_uses;
        let mut nullifiers: Vec<B256> = Vec::new();
        let mut i: usize = 0;
        while i < first_uses.len()
            invariant
                i <= first_uses@.len(),
                nullifiers@ == nullifiers_of(first_uses@).take(i as int),
            decreases first_uses@.len() - i,
        {
            nullifiers.push(first_uses[i].0);
            i += 1;
            assert(nullifiers@ =~= nullifiers_of(first_uses@).take(i as int));
        }
        assert(nullifiers@ =~= nullifiers_of(first_uses@));
        Ok(OpenBlock { block, anchors, nullifiers })
    }

    /// Closes a block: checks its tree updates, enters its root, and gathers all evidence
    /// against it. Fails, with nothing changed, exactly where the trees have no room for it.
    pub fn close_block(
        &mut self,
        block_data: &BlockData,
        block_nr: u64,
        l1_block_number: u64,
        block: &ParsedBlock,
        checks: BlockChecks,
        authorized: &[bool],
    ) -> (r: Result<BlockOutcome, RunnerError>)
        requires
            old(self).wf(),
            authorized@.len() == checks.verdicts@.len(),
        ensures
            final(self).wf(),
            final(self).same_settings(*old(self)),
            final(self).anchors() == old(self).anchors(),
            r is Ok <==> fits_trees(block_data@, block@),
            r matches Ok(o) ==> {
                &&& o.tree_index == tree_index_of(block_data@.block_index)
                &&& o.block_root == final_root(block@)
                &&& final(self).blocks() == old(self).blocks().insert(o.tree_index, o.block_root)
                &&& o.anchor == anchor_of(final(self).blocks())
                &&& found_evidence(o.fraud@) == evidence_views(checks.deposit_fraud@)
                    + evidence_views(checks.nullifier_fraud@) + transaction_frauds(
                    verdict_views(checks.verdicts@),
                    authorized@,
                    checks.verdicts@.len(),
                ) + tree_frauds(
                    context_of(block_data@, block_nr, old(self).blocks()),
                    updates_of(block@),
                )
                &&& forall|i: int|
                    0 <= i < o.fraud@.len() ==> (#[trigger] o.fraud@[i]).block_nr == block_nr
                        && o.fraud@[i].l1_block_number == l1_block_number
            },
            r matches Err(e) ==> *final(self) == *old(self) && e == (if tree_index_of(
                block_data@.block_index,
            ) <= RootTreeTracker::MAX_TREE_INDEX {
                RunnerError::TooManyUpdates
            } else {
                RunnerError::TreeIndexOutOfRange
            }),
    {
        match self.check_room(block_data, block) {
            Ok(_) => Ok(
                self.finish_block(block_data, block_nr, l1_block_number, block, checks, authorized),
            ),
            Err(e) => Err(e),
        }
    }
}

/// What a block is checked against.
pub struct Surroundings {
    /// The key that transfers are verified with.
    pub key: KeyView,
    /// The anchors that are known, those of the block among them.
    pub anchors: AnchorsView,
    /// The block roots before the block, by position.
    pub blocks: Map<u64, B256>,
    /// The leaves that were deposited for the block.
    pub expected: Seq<B256>,
    /// The records of nullifiers of earlier blocks.
    pub existing: Seq<(B256, NullifierRecord)>,
    /// What the transactions say of their anchors.
    pub infos: Seq<DecodedAnchorInfo>,
    /// Whether the account of each transaction has authorised it.
    pub authorized: Seq<bool>,
}

/// The verdicts on the transactions of a block.
pub open spec fn verdicts_on(s: Surroundings, header: BlockView, block: BlockContents) -> Seq<
    VerdictView,
> {
    block_verdicts(s.key, s.anchors, header, block.transactions, s.infos)
}

/// All evidence against a block, in the order in which it is gathered.
pub open spec fn block_frauds(
    s: Surroundings,
    header: BlockView,
    block_nr: u64,
    block: BlockContents,
) -> Seq<EvidenceView> {
    deposit_frauds(header, block, s.expected) + nullifier_frauds(
        uses_of(block_nr, block.transactions),
        s.existing,
    ) + transaction_frauds(
        verdicts_on(s, header, block),
        s.authorized,
        block.transactions.len(),
    ) + tree_frauds(context_of(header, block_nr, s.blocks), updates_of(block))
}

/// Whether the deposits of a block are those that were made, and no slot beside them is used.
pub open spec fn deposits_valid(s: Surroundings, header: BlockView, block: BlockContents) -> bool {
    &&& forall|i: int|
        0 <= i < checked_deposits(header, s.expected) ==> !#[trigger] wrong_leaf(
            block,
            s.expected,
            i,
        )
    &&& !padded_wrongly(block, header.num_deposits@, 1)
    &&& !padded_wrongly(block, header.num_deposits@, 2)
}

/// Whether no nullifier of a block is used twice, in it or by an earlier block.
pub open spec fn nullifiers_valid(s: Surroundings, block_nr: u64, block: BlockContents) -> bool {
    let uses = uses_of(block_nr, block.transactions);
    &&& forall|i: int, j: int|
        0 <= i < j < uses.len() ==> (#[trigger] uses[i]).0 != (#[trigger] uses[j]).0
    &&& forall|i: int| 0 <= i < uses.len() ==> lookup(s.existing, (#[trigger] uses[i]).0) is None
}

/// Whether each transaction of a block is accepted, or needs to be authorised and is.
pub open spec fn transactions_valid(s: Surroundings, header: BlockView, block: BlockContents) -> bool {
    let verdicts = verdicts_on(s, header, block);
    forall|i: int|
        0 <= i < block.transactions.len() ==> (#[trigger] verdicts[i] is NoFraud || (
        verdicts[i] is NeedsAuthorization && s.authorized[i]))
}

/// Whether each update of a block claims the root that follows from the leaves so far, and
/// the header names the last of them.
pub open spec fn updates_valid(ctx: TreeContext, updates: Seq<TreeUpdate>) -> bool {
    &&& forall|k: int|
        0 <= k < updates.len() ==> (#[trigger] updates[k]).new_root == anchor_after(
            ctx,
            updates,
            (k + 1) as nat,
        )
    &&& updates.len() > 0 ==> ctx.block.anchor == anchor_after(ctx, updates, updates.len())
}

/// A block draws no evidence exactly where it is valid: its deposits are those that were
/// made, its nullifiers are unspent, its transactions are accepted, and its tree updates lead
/// to the roots and the anchor that it claims.
pub proof fn law_no_evidence_iff_valid(
    s: Surroundings,
    header: BlockView,
    block_nr: u64,
    block: BlockContents,
)
    requires
        header.num_deposits@ <= usize::MAX,
        s.infos.len() == block.transactions.len(),
        s.authorized.len() == block.transactions.len(),
    ensures
        block_frauds(s, header, block_nr, block).len() == 0 <==> {
            &&& deposits_valid(s, header, block)
            &&& nullifiers_valid(s, block_nr, block)
            &&& transactions_valid(s, header, block)
            &&& updates_valid(context_of(header, block_nr, s.blocks), updates_of(block))
        },
{
    law_no_evidence_iff_deposits_kept(header, block, s.expected);
    law_no_evidence_iff_unspent(uses_of(block_nr, block.transactions), s.existing);
    law_no_evidence_iff_all_accepted(
        verdicts_on(s, header, block),
        s.authorized,
        block.transactions.len(),
    );
    law_no_evidence_iff_correct(context_of(header, block_nr, s.blocks), updates_of(block));
}

/// A block is opened exactly where its counts have no more than 64 bits, its blobs hold it, and it
/// has no more deposit groups and no more transactions than 32 bits can number.
pub proof fn law_opened_iff(header: BlockView, num_blobs: nat)
    ensures
        ({
            let (n, m) = (header.num_deposits@, header.num_transactions@);
            open_failure(header, num_blobs) is None <==> {
                &&& n <= u64::MAX && m <= u64::MAX
                &&& 4 * ((n + 2) / 3) + 15 * m <= 4096 * num_blobs
                &&& (n + 2) / 3 <= u32::MAX
                &&& m <= u32::MAX
            }
        }),
{
    law_unreadable_iff(header, num_blobs);
}

/// The records of every nullifier that a block reveals are asked for, each once, and of no other.
pub proof fn law_records_of_all_nullifiers_are_asked_for(
    block_nr: u64,
    block: BlockContents,
    t: int,
    i: int,
)
    ensures
        ({
            let uses = uses_of(block_nr, block.transactions);
            let asked = nullifiers_of(first_uses(uses, uses.len()));
            &&& 0 <= t < block.transactions.len() ==> asked.contains(block.transactions[t].nullifier0)
            &&& 0 <= t < block.transactions.len() ==> asked.contains(block.transactions[t].nullifier1)
            &&& 0 <= i < asked.len() ==> exists|k: int|
                0 <= k < block.transactions.len() && (asked[i] == (
                #[trigger] block.transactions[k]).nullifier0 || asked[i]
                    == block.transactions[k].nullifier1)
            &&& forall|j: int| i < j < asked.len() && 0 <= i ==> asked[i] != #[trigger] asked[j]
        }),
{
    let uses = uses_of(block_nr, block.transactions);
    let fresh = first_uses(uses, uses.len());
    let asked = nullifiers_of(fresh);
    if 0 <= t < block.transactions.len() {
        law_first_uses_cover(uses, 2 * t);
        law_first_uses_cover(uses, 2 * t + 1);
        assert(uses[2 * t].0 == block.transactions[t].nullifier0);
        assert(uses[2 * t + 1].0 == block.transactions[t].nullifier1);
        let a = choose|a: int| 0 <= a < fresh.len() && (#[trigger] fresh[a]).0 == uses[2 * t].0;
        let b = choose|b: int| 0 <= b < fresh.len() && (#[trigger] fresh[b]).0 == uses[2 * t + 1].0;
        assert(asked[a] == block.transactions[t].nullifier0);
        assert(asked[b] == block.transactions[t].nullifier1);
    }
    if 0 <= i < asked.len() {
        let u = law_first_uses_are_uses(uses, i);
        assert(asked[i] == uses[u].0);
        assert(0 <= u / 2 < block.transactions.len());
        assert(block.transactions[u / 2] == block.transactions[u / 2]);
        assert forall|j: int| i < j < asked.len() implies asked[i] != #[trigger] asked[j] by {
            assert(fresh[i].0 != fresh[j].0);
        }
    }
}

/// A block that draws no evidence holds the leaves that were recorded and nothing in unused slots,
/// reveals no nullifier twice and none that is on record, and claims the roots and the anchor
/// that its leaves lead to, `leaves` being all of them in their order.
pub proof fn law_accepted_block_is_honest(
    s: Surroundings,
    header: BlockView,
    block_nr: u64,
    block: BlockContents,
    leaves: Map<int, B256>,
)
    requires
        header.num_deposits@ <= usize::MAX,
        block_frauds(s, header, block_nr, block).len() == 0,
        are_leaves_of(leaves, block, 0, block.deposit_groups.len() + block.transactions.len()),
        header.block_index.day * 8192 + header.block_index.index <= 268435455,
        0 < block.deposit_groups.len() + block.transactions.len(),
    ensures
        forall|g: int|
            0 <= g < block.deposit_groups.len() ==> {
                let group = #[trigger] block.deposit_groups[g];
                let n = header.num_deposits@;
                &&& 3 * g < n && 3 * g < s.expected.len() ==> group.leaf0 == s.expected[3 * g]
                &&& 3 * g + 1 < n && 3 * g + 1 < s.expected.len() ==> group.leaf1 == s.expected[3 * g
                    + 1]
                &&& 3 * g + 2 < n && 3 * g + 2 < s.expected.len() ==> group.leaf2 == s.expected[3 * g
                    + 2]
                &&& n == 3 * g + 1 ==> group.leaf1@ == Seq::new(32, |b: int| 0u8)
                &&& n == 3 * g + 1 || n == 3 * g + 2 ==> group.leaf2@ == Seq::new(32, |b: int| 0u8)
            },
        forall|u: int, w: int|
            0 <= u < w < 2 * block.transactions.len() ==> #[trigger] revealed(block.transactions, u)
                != #[trigger] revealed(block.transactions, w),
        forall|u: int, e: int|
            0 <= u < 2 * block.transactions.len() && 0 <= e < s.existing.len() ==> (
            #[trigger] s.existing[e]).0 != #[trigger] revealed(block.transactions, u),
        header.anchor == anchor_of(
            s.blocks.insert(
                (8192 * header.block_index.day + header.block_index.index) as u64,
                tree_root(leaves, 16),
            ),
        ),
{
    let ctx = context_of(header, block_nr, s.blocks);
    law_no_evidence_means_leaves_as_recorded(header, block, s.expected);
    law_no_evidence_iff_nullifiers_are_new(block_nr, block.transactions, s.existing);
    law_no_tree_evidence_iff_roots_are_right(ctx, block, leaves);
    law_updates_start_from_the_chain(header, block_nr, s.blocks);
    assert(climb(tree_root(leaves, 16), ctx.block_index as int, ctx.path, 28) == anchor_of(
        s.blocks.insert(ctx.block_index, tree_root(leaves, 16)),
    ));
}

/// All evidence against a block is gathered: what is found against its deposits, its nullifiers,
/// its transactions and its tree updates, in that order, and nothing is lost or added.
pub proof fn law_all_evidence_is_gathered(
    s: Surroundings,
    header: BlockView,
    block_nr: u64,
    block: BlockContents,
    evidence: EvidenceView,
)
    ensures
        block_frauds(s, header, block_nr, block).contains(evidence) <==> {
            ||| deposit_frauds(header, block, s.expected).contains(evidence)
            ||| nullifier_frauds(uses_of(block_nr, block.transactions), s.existing).contains(evidence)
            ||| transaction_frauds(
                verdicts_on(s, header, block),
                s.authorized,
                block.transactions.len(),
            ).contains(evidence)
            ||| tree_frauds(context_of(header, block_nr, s.blocks), updates_of(block)).contains(
                evidence,
            )
        },
        block_frauds(s, header, block_nr, block).len() == deposit_frauds(
            header,
            block,
            s.expected,
        ).len() + nullifier_frauds(uses_of(block_nr, block.transactions), s.existing).len()
            + transaction_frauds(
            verdicts_on(s, header, block),
            s.authorized,
            block.transactions.len(),
        ).len() + tree_frauds(context_of(header, block_nr, s.blocks), updates_of(block)).len(),
{
    let a = deposit_frauds(header, block, s.expected);
    let b = nullifier_frauds(uses_of(block_nr, block.transactions), s.existing);
    let c = transaction_frauds(
        verdicts_on(s, header, block),
        s.authorized,
        block.transactions.len(),
    );
    let d = tree_frauds(context_of(header, block_nr, s.blocks), updates_of(block));
    lemma_contains_in_sum(a, b, evidence);
    lemma_contains_in_sum(a + b, c, evidence);
    lemma_contains_in_sum(a + b + c, d, evidence);
}

/// What stands in one of two lists stands in both together.
proof fn lemma_contains_in_sum(a: Seq<EvidenceView>, b: Seq<EvidenceView>, e: EvidenceView)
    ensures
        (a + b).contains(e) <==> a.contains(e) || b.contains(e),
{
    let all = a + b;
    if a.contains(e) {
        let i = choose|i: int| 0 <= i < a.len() && a[i] == e;
        assert(all[i] == e);
    }
    if b.contains(e) {
        let i = choose|i: int| 0 <= i < b.len() && b[i] == e;
        assert(all[a.len() + i] == e);
    }
    if all.contains(e) {
        let i = choose|i: int| 0 <= i < all.len() && all[i] == e;
        if i < a.len() {
            assert(a[i] == e);
        } else {
            assert(b[i - a.len()] == e);
        }
    }
}

} // verus!
