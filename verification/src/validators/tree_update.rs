//! The trees that anchors are roots of, and the check that a block updates them
//! correctly.
//!
//! The leaves of a block form a tree of sixteen levels. The roots of the blocks are
//! the leaves of a tree of twenty-eight levels, whose root is the anchor.

pub mod block_tracker;
pub mod hierarchical;
pub mod root_tracker;

use crate::blob::{BlockContents, DepositGroup, ParsedBlock, ParsedTransaction};
use crate::merkle::{climb, tree_root};
use crate::types::{BlockData, BlockView, B256};
use crate::validators::{
    evidence_views, lemma_evidence_push, EvidenceView, FraudEvidence, TreeUpdateMerkleData,
};
use block_tracker::{
    block_anchor, block_root_of, full_path, law_update_sets_three_leaves, leaves_with, merkle_data_of,
    BlockTreeTracker,
};
use root_tracker::{anchor_of, law_root_path, root_path_of, RootTreeTracker};
use vstd::prelude::*;

verus! {

/// Levels of the tree of block roots.
pub const ROOT_DEPTH: usize = 28;

/// Levels of the tree of a block's leaves.
pub const BLOCK_DEPTH: usize = 16;

/// Positions that a day has in the tree of block roots.
pub const BLOCKS_PER_DAY: u64 = 8192;

/// Levels of the tree of days.
pub const DAY_DEPTH: usize = 15;

/// Levels of the tree of a day's blocks.
pub const BLOCK_IN_DAY_DEPTH: usize = 13;

/// An update of a block's tree: three leaves, and the root that is claimed to follow.
pub struct TreeUpdate {
    pub leaves: [B256; 3],
    pub new_root: B256,
    pub is_tx: bool,
}

/// The update that a deposit group makes.
pub open spec fn group_update(group: DepositGroup) -> TreeUpdate {
    TreeUpdate {
        leaves: [group.leaf0, group.leaf1, group.leaf2],
        new_root: group.new_root,
        is_tx: false,
    }
}

/// The update that a transaction makes.
pub open spec fn tx_update(tx: ParsedTransaction) -> TreeUpdate {
    TreeUpdate { leaves: [tx.leaf0, tx.leaf1, tx.leaf2], new_root: tx.new_root, is_tx: true }
}

/// The updates of a block: those of its deposit groups, then those of its transactions.
pub open spec fn updates_of(block: BlockContents) -> Seq<TreeUpdate> {
    Seq::new(
        block.deposit_groups.len() + block.transactions.len(),
        |k: int|
            if k < block.deposit_groups.len() {
                group_update(block.deposit_groups[k])
            } else {
                tx_update(block.transactions[k - block.deposit_groups.len()])
            },
    )
}

/// The leaves of a block after its first `count` updates, the first of them going in at
/// `start`.
pub open spec fn leaves_after(updates: Seq<TreeUpdate>, start: nat, count: nat) -> Map<int, B256>
    decreases count,
{
    if count == 0 {
        Map::empty()
    } else {
        leaves_with(
            leaves_after(updates, start, (count - 1) as nat),
            start + 3 * (count - 1),
            updates[count - 1].leaves,
        )
    }
}

/// The root of the tree of a block, of sixteen levels, after all its updates, the leaves of
/// the first of them going in at `start`.
pub open spec fn final_block_tree_root(block: BlockContents, start: nat) -> B256 {
    block_root_of(leaves_after(updates_of(block), start, updates_of(block).len()))
}

/// Whether two blocks put the same leaves into their trees.
pub open spec fn same_leaves(a: BlockContents, b: BlockContents) -> bool {
    &&& updates_of(a).len() == updates_of(b).len()
    &&& forall|k: int|
        0 <= k < updates_of(a).len() ==> (#[trigger] updates_of(a)[k]).leaves == updates_of(
            b,
        )[k].leaves
}

/// Where a block's updates start from.
pub struct TreeContext {
    pub block: BlockView,
    /// The anchor before the block.
    pub prior_anchor: B256,
    /// The block that left it; none at genesis.
    pub prior_block_nr: Option<u64>,
    /// Position of the block in the tree of block roots.
    pub block_index: u64,
    /// Index of the first leaf.
    pub start: nat,
    /// Siblings of the block's position.
    pub path: Seq<B256>,
}

/// The anchor that follows from the first `count` updates.
pub open spec fn anchor_after(ctx: TreeContext, updates: Seq<TreeUpdate>, count: nat) -> B256 {
    block_anchor(leaves_after(updates, ctx.start, count), ctx.block_index as int, ctx.path)
}

/// The evidence that the anchor which is submitted for the state after an update is wrong:
/// the update goes on from the root after the update before it, or from the anchor before
/// the block.
pub open spec fn anchor_evidence(
    ctx: TreeContext,
    updates: Seq<TreeUpdate>,
    k: int,
    submitted: B256,
) -> EvidenceView {
    EvidenceView::IncorrectTreeUpdate {
        block: ctx.block,
        update_nr: k as u64,
        is_tx: updates[k].is_tx,
        expected_anchor: anchor_after(ctx, updates, (k + 1) as nat),
        submitted_anchor: submitted,
        prior_anchor: if k == 0 {
            ctx.prior_anchor
        } else {
            updates[k - 1].new_root
        },
        leaves: updates[k].leaves,
        prior_anchor_block_nr: if k == 0 {
            ctx.prior_block_nr
        } else {
            None
        },
        prior_update_nr: if k == 0 {
            None
        } else {
            Some((k - 1) as u64)
        },
        merkle_data: Some(
            merkle_data_of(
                leaves_after(updates, ctx.start, k as nat),
                ctx.block_index,
                ctx.path,
                (ctx.start + 3 * k) as usize,
                updates[k].leaves,
            ),
        ),
    }
}

/// The evidence that an update claims a wrong root.
pub open spec fn update_evidence(ctx: TreeContext, updates: Seq<TreeUpdate>, k: int) -> EvidenceView {
    anchor_evidence(ctx, updates, k, updates[k].new_root)
}

/// The evidence against the first `count` updates.
pub open spec fn update_frauds(ctx: TreeContext, updates: Seq<TreeUpdate>, count: nat) -> Seq<
    EvidenceView,
>
    decreases count,
{
    if count == 0 {
        Seq::empty()
    } else {
        let k = count - 1;
        let before = update_frauds(ctx, updates, k as nat);
        if anchor_after(ctx, updates, count) != updates[k].new_root {
            before.push(update_evidence(ctx, updates, k))
        } else {
            before
        }
    }
}

/// The evidence that the header names another anchor than the updates lead to. It is held
/// against the last update.
pub open spec fn final_frauds(ctx: TreeContext, updates: Seq<TreeUpdate>) -> Seq<EvidenceView> {
    let n = updates.len();
    if n == 0 || anchor_after(ctx, updates, n) == ctx.block.anchor {
        Seq::empty()
    } else {
        seq![anchor_evidence(ctx, updates, n - 1, ctx.block.anchor)]
    }
}

/// All evidence against the tree updates of a block.
pub open spec fn tree_frauds(ctx: TreeContext, updates: Seq<TreeUpdate>) -> Seq<EvidenceView> {
    update_frauds(ctx, updates, updates.len()) + final_frauds(ctx, updates)
}

/// What evidence against the last update of a block is made from.
#[derive(Clone, Copy, Debug)]
struct LastUpdate {
    is_tx: bool,
    leaves: [B256; 3],
    prior_anchor: B256,
    prior_anchor_block_nr: Option<u64>,
    prior_update_nr: Option<u64>,
    merkle_data: TreeUpdateMerkleData,
}

impl LastUpdate {
    /// Whether it is that of an update.
    spec fn is_of(self, ctx: TreeContext, updates: Seq<TreeUpdate>, k: int) -> bool {
        anchor_evidence(ctx, updates, k, ctx.block.anchor) == (EvidenceView::IncorrectTreeUpdate {
            block: ctx.block,
            update_nr: k as u64,
            is_tx: self.is_tx,
            expected_anchor: anchor_after(ctx, updates, (k + 1) as nat),
            submitted_anchor: ctx.block.anchor,
            prior_anchor: self.prior_anchor,
            leaves: self.leaves,
            prior_anchor_block_nr: self.prior_anchor_block_nr,
            prior_update_nr: self.prior_update_nr,
            merkle_data: Some(self.merkle_data@),
        })
    }
}

/// Checks the roots that the updates of a block claim.
#[derive(Clone, Copy, Debug)]
pub struct TreeUpdateValidator {}

impl TreeUpdateValidator {
    /// A validator of tree updates.
    pub fn new() -> TreeUpdateValidator {
        TreeUpdateValidator {  }
    }

    /// Checks every update of a block, and the anchor in its header. Returns the evidence
    /// against it, and the root of the block's tree.
    pub fn validate_block(
        &self,
        block_data: &BlockData,
        block: &ParsedBlock,
        prior_anchor: B256,
        prior_block_nr: Option<u64>,
        block_index: u64,
        start_in_block_index: usize,
        root_path: &[B256],
    ) -> (r: (Vec<FraudEvidence>, B256))
        requires
            block_index <= usize::MAX,
            start_in_block_index + 3 * (block@.deposit_groups.len() + block@.transactions.len())
                <= 65536,
        ensures
            evidence_views(r.0@) == tree_frauds(
                (TreeContext {
                    block: block_data@,
                    prior_anchor,
                    prior_block_nr,
                    block_index,
                    start: start_in_block_index as nat,
                    path: full_path(root_path@),
                }),
                updates_of(block@),
            ),
            r.1 == final_block_tree_root(block@, start_in_block_index as nat),
            forall|other: BlockContents| #[trigger]
                same_leaves(block@, other) ==> r.1 == final_block_tree_root(
                    other,
                    start_in_block_index as nat,
                ),
    {
        let ghost ctx = TreeContext {
            block: block_data@,
            prior_anchor,
            prior_block_nr,
            block_index,
            start: start_in_block_index as nat,
            path: full_path(root_path@),
        };
        let ghost updates = updates_of(block@);
        let groups: usize = block.deposit_groups.len();
        let total: usize = groups + block.transactions.len();
        let mut fraud: Vec<FraudEvidence> = Vec::new();
        let mut tree = BlockTreeTracker::new(block_index as usize, root_path);
        let mut current_anchor = prior_anchor;
        let mut current_block_nr = prior_block_nr;
        let mut current_update_nr: Option<u64> = None;
        let mut last: Option<LastUpdate> = None;
        let mut k: usize = 0;
        assert(evidence_views(fraud@) =~= update_frauds(ctx, updates, 0));
        while k < total
            invariant
                k <= total,
                groups == block@.deposit_groups.len(),
                total == groups + block@.transactions.len(),
                start_in_block_index + 3 * total <= 65536,
                block_index <= usize::MAX,
                ctx == (TreeContext {
                    block: block_data@,
                    prior_anchor,
                    prior_block_nr,
                    block_index,
                    start: start_in_block_index as nat,
                    path: full_path(root_path@),
                }),
                updates == updates_of(block@),
                tree.wf(),
                tree.leaves() == leaves_after(updates, ctx.start, k as nat),
                tree.path() == ctx.path,
                tree.position() == block_index,
                k == 0 ==> current_anchor == prior_anchor && current_block_nr == prior_block_nr
                    && current_update_nr is None,
                k > 0 ==> current_anchor == updates[k - 1].new_root && current_block_nr is None
                    && current_update_nr == Some((k - 1) as u64),
                k > 0 ==> (last matches Some(update) && update.is_of(ctx, updates, k - 1)),
                evidence_views(fraud@) == update_frauds(ctx, updates, k as nat),
            decreases total - k,
        {
            let is_tx: bool = k >= groups;
            let (leaves, submitted_root) = if is_tx {
                let tx = &block.transactions[k - groups];
                ([tx.leaf0, tx.leaf1, tx.leaf2], tx.new_root)
            } else {
                let group = &block.deposit_groups[k];
                ([group.leaf0, group.leaf1, group.leaf2], group.new_root)
            };
            assert(updates[k as int].leaves == leaves);
            assert(updates[k as int].new_root == submitted_root);
            assert(updates[k as int].is_tx == is_tx);
            let in_block_index: usize = start_in_block_index + 3 * k;
            let merkle_data = tree.get_merkle_data_before_update(in_block_index, leaves);
            let expected_root = tree.apply_update_at(leaves, in_block_index);
            assert(expected_root == anchor_after(ctx, updates, (k + 1) as nat));
            if expected_root != submitted_root {
                let ghost before = fraud@;
                let evidence = FraudEvidence::IncorrectTreeUpdate {
                    block_data: block_data.clone(),
                    update_nr: k as u64,
                    is_tx,
                    expected_anchor: expected_root,
                    submitted_anchor: submitted_root,
                    prior_anchor: current_anchor,
                    leaves,
                    prior_anchor_block_nr: current_block_nr,
                    prior_update_nr: current_update_nr,
                    merkle_data: Some(merkle_data),
                };
                proof {
                    lemma_evidence_push(before, evidence);
                    assert(evidence@ == update_evidence(ctx, updates, k as int));
                }
                fraud.push(evidence);
            }
            last = Some(
                LastUpdate {
                    is_tx,
                    leaves,
                    prior_anchor: current_anchor,
                    prior_anchor_block_nr: current_block_nr,
                    prior_update_nr: current_update_nr,
                    merkle_data,
                },
            );
            current_anchor = submitted_root;
            current_block_nr = None;
            current_update_nr = Some(k as u64);
            k += 1;
        }
        let block_root = tree.block_root();
        assert forall|other: BlockContents| #[trigger] same_leaves(block@, other) implies block_root
            == final_block_tree_root(other, ctx.start) by {
            law_block_root_from_leaves_alone(block@, other, ctx.start);
        }
        let final_anchor = tree.current_anchor();
        match last {
            Some(update) => {
                if final_anchor != block_data.anchor && total > 0 {
                    let ghost before = fraud@;
                    let evidence = FraudEvidence::IncorrectTreeUpdate {
                        block_data: block_data.clone(),
                        update_nr: (total - 1) as u64,
                        is_tx: update.is_tx,
                        expected_anchor: final_anchor,
                        submitted_anchor: block_data.anchor,
                        prior_anchor: update.prior_anchor,
                        leaves: update.leaves,
                        prior_anchor_block_nr: update.prior_anchor_block_nr,
                        prior_update_nr: update.prior_update_nr,
                        merkle_data: Some(update.merkle_data),
                    };
                    proof {
                        lemma_evidence_push(before, evidence);
                        assert(final_frauds(ctx, updates) =~= seq![evidence@]);
                        assert(evidence_views(before).push(evidence@) =~= evidence_views(before)
                            + seq![evidence@]);
                    }
                    fraud.push(evidence);
                } else {
                    assert(evidence_views(fraud@) =~= tree_frauds(ctx, updates));
                }
            },
            None => {
                assert(evidence_views(fraud@) =~= tree_frauds(ctx, updates));
            },
        }
        (fraud, block_root)
    }

    /// The anchor that three leaves lead to in an otherwise empty block.
    pub fn compute_expected_root(
        _prior_anchor: B256,
        leaves: [B256; 3],
        block_index: usize,
        in_block_index: usize,
        root_path: &[B256],
    ) -> (r: B256)
        requires
            in_block_index + 3 <= 65536,
        ensures
            r == block_anchor(
                leaves_with(Map::empty(), in_block_index as int, leaves),
                block_index as int,
                full_path(root_path@),
            ),
    {
        let mut tree = BlockTreeTracker::new(block_index, root_path);
        tree.apply_update_at(leaves, in_block_index)
    }
}

impl Default for TreeUpdateValidator {
    fn default() -> Self {
        Self::new()
    }
}

/// A block draws no evidence exactly where each update claims the root that follows from
/// the leaves so far, and the header names the anchor after the last.
pub proof fn law_no_evidence_iff_correct(ctx: TreeContext, updates: Seq<TreeUpdate>)
    ensures
        tree_frauds(ctx, updates).len() == 0 <==> {
            &&& forall|k: int|
                0 <= k < updates.len() ==> (#[trigger] updates[k]).new_root == anchor_after(
                    ctx,
                    updates,
                    (k + 1) as nat,
                )
            &&& updates.len() > 0 ==> ctx.block.anchor == anchor_after(ctx, updates, updates.len())
        },
{
    lemma_no_update_fraud(ctx, updates, updates.len());
}

/// Evidence against the first `count` updates is missing exactly where they are correct.
proof fn lemma_no_update_fraud(ctx: TreeContext, updates: Seq<TreeUpdate>, count: nat)
    ensures
        update_frauds(ctx, updates, count).len() == 0 <==> forall|k: int|
            0 <= k < count ==> (#[trigger] updates[k]).new_root == anchor_after(
                ctx,
                updates,
                (k + 1) as nat,
            ),
    decreases count,
{
    if count > 0 {
        lemma_no_update_fraud(ctx, updates, (count - 1) as nat);
        assert(updates[count - 1].new_root == updates[count - 1].new_root);
    }
}

/// Every piece of evidence against a tree update names a root that differs from the one
/// that the tree leads to.
pub proof fn law_evidence_names_two_roots(ctx: TreeContext, updates: Seq<TreeUpdate>, i: int)
    requires
        0 <= i < tree_frauds(ctx, updates).len(),
    ensures
        tree_frauds(ctx, updates)[i] matches EvidenceView::IncorrectTreeUpdate {
            expected_anchor,
            submitted_anchor,
            block,
            ..
        } && expected_anchor != submitted_anchor && block == ctx.block,
{
    lemma_update_fraud_roots(ctx, updates, updates.len(), i);
}

/// The same for the evidence against the first `count` updates.
proof fn lemma_update_fraud_roots(ctx: TreeContext, updates: Seq<TreeUpdate>, count: nat, i: int)
    ensures
        0 <= i < update_frauds(ctx, updates, count).len() ==> (update_frauds(
            ctx,
            updates,
            count,
        )[i] matches EvidenceView::IncorrectTreeUpdate {
            expected_anchor,
            submitted_anchor,
            block,
            ..
        } && expected_anchor != submitted_anchor && block == ctx.block),
    decreases count,
{
    if count > 0 {
        lemma_update_fraud_roots(ctx, updates, (count - 1) as nat, i);
    }
}

/// The root of a block's tree follows from its leaves and from where they start alone: the
/// roots that are submitted, the header and what was before the block play no part in it.
pub proof fn law_block_root_from_leaves_alone(a: BlockContents, b: BlockContents, start: nat)
    requires
        same_leaves(a, b),
    ensures
        final_block_tree_root(a, start) == final_block_tree_root(b, start),
{
    lemma_leaves_from_leaves(updates_of(a), updates_of(b), start, updates_of(a).len());
}

/// The same for the leaves after the first `count` updates.
proof fn lemma_leaves_from_leaves(
    a: Seq<TreeUpdate>,
    b: Seq<TreeUpdate>,
    start: nat,
    count: nat,
)
    requires
        count <= a.len(),
        forall|k: int| 0 <= k < a.len() ==> (#[trigger] a[k]).leaves == b[k].leaves,
    ensures
        leaves_after(a, start, count) == leaves_after(b, start, count),
    decreases count,
{
    if count > 0 {
        lemma_leaves_from_leaves(a, b, start, (count - 1) as nat);
        assert(a[count - 1].leaves == b[count - 1].leaves);
    }
}

/// The anchor that a block's updates are checked against is the anchor that the chain has
/// once the root of the block's tree is entered at its position.
pub proof fn law_checked_anchor_is_chain_anchor(
    ctx: TreeContext,
    updates: Seq<TreeUpdate>,
    blocks: Map<u64, B256>,
)
    requires
        ctx.block_index <= RootTreeTracker::MAX_TREE_INDEX,
        ctx.path == root_path_of(blocks, ctx.block_index as int),
    ensures
        anchor_after(ctx, updates, updates.len()) == anchor_of(
            blocks.insert(
                ctx.block_index,
                block_root_of(leaves_after(updates, ctx.start, updates.len())),
            ),
        ),
{
    law_root_path(
        blocks,
        ctx.block_index,
        block_root_of(leaves_after(updates, ctx.start, updates.len())),
    );
}

/// After `count` updates a block's tree holds leaf `s` of update `k` three places further on for
/// every update, and nothing else: no update overwrites a leaf of another.
pub proof fn law_leaves_stand_in_place(
    updates: Seq<TreeUpdate>,
    start: nat,
    count: nat,
    k: int,
    s: int,
)
    requires
        0 <= k < count,
        0 <= s < 3,
    ensures
        leaves_after(updates, start, count).contains_key(start + 3 * k + s),
        leaves_after(updates, start, count)[start + 3 * k + s] == updates[k].leaves@[s],
        forall|i: int| #[trigger]
            leaves_after(updates, start, count).contains_key(i) <==> start <= i < start + 3 * count,
    decreases count,
{
    let before = (count - 1) as nat;
    lemma_leaf_places(updates, start, count);
    if k < before {
        law_leaves_stand_in_place(updates, start, before, k, s);
        assert(start + 3 * k + s < start + 3 * before);
    }
}

/// Where the leaves of the first `count` updates stand.
proof fn lemma_leaf_places(updates: Seq<TreeUpdate>, start: nat, count: nat)
    ensures
        forall|i: int| #[trigger]
            leaves_after(updates, start, count).contains_key(i) <==> start <= i < start + 3 * count,
    decreases count,
{
    if count > 0 {
        let before = (count - 1) as nat;
        lemma_leaf_places(updates, start, before);
        assert forall|i: int| #[trigger]
            leaves_after(updates, start, count).contains_key(i) <==> start <= i < start + 3 * count by {
            law_update_sets_three_leaves(
                leaves_after(updates, start, before),
                start + 3 * (count - 1),
                updates[count - 1].leaves,
                i,
            );
            assert(leaves_after(updates, start, before).contains_key(i) <==> start <= i < start + 3
                * before);
        }
    }
}

/// Whether `leaves` are those that the first `count` updates of a block put in from `start` on:
/// the three of each deposit group, then the three of each transaction, one after another.
pub open spec fn are_leaves_of(
    leaves: Map<int, B256>,
    block: BlockContents,
    start: nat,
    count: nat,
) -> bool {
    let groups = block.deposit_groups.len();
    &&& forall|i: int| #[trigger] leaves.contains_key(i) <==> start <= i < start + 3 * count
    &&& forall|g: int|
        0 <= g < groups && g < count ==> {
            let group = #[trigger] block.deposit_groups[g];
            &&& leaves[start + 3 * g] == group.leaf0
            &&& leaves[start + 3 * g + 1] == group.leaf1
            &&& leaves[start + 3 * g + 2] == group.leaf2
        }
    &&& forall|t: int|
        0 <= t < block.transactions.len() && groups + t < count ==> {
            let tx = #[trigger] block.transactions[t];
            &&& leaves[start + 3 * (groups + t)] == tx.leaf0
            &&& leaves[start + 3 * (groups + t) + 1] == tx.leaf1
            &&& leaves[start + 3 * (groups + t) + 2] == tx.leaf2
        }
}

/// The root that update `k` of a block claims.
pub open spec fn claimed_root(block: BlockContents, k: int) -> B256 {
    if k < block.deposit_groups.len() {
        block.deposit_groups[k].new_root
    } else {
        block.transactions[k - block.deposit_groups.len()].new_root
    }
}

/// The anchor that the first updates of a block lead to is that of a chain in which the block
/// has all their leaves, those of each deposit group and of each transaction in their order.
pub proof fn law_anchor_is_that_of_all_leaves(
    ctx: TreeContext,
    block: BlockContents,
    count: nat,
    leaves: Map<int, B256>,
)
    requires
        count <= block.deposit_groups.len() + block.transactions.len(),
        are_leaves_of(leaves, block, ctx.start, count),
    ensures
        leaves_after(updates_of(block), ctx.start, count) == leaves,
        anchor_after(ctx, updates_of(block), count) == climb(
            tree_root(leaves, 16),
            ctx.block_index as int,
            ctx.path,
            28,
        ),
        count == block.deposit_groups.len() + block.transactions.len() ==> final_block_tree_root(
            block,
            ctx.start,
        ) == tree_root(leaves, 16),
{
    let updates = updates_of(block);
    let groups = block.deposit_groups.len();
    let have = leaves_after(updates, ctx.start, count);
    lemma_leaf_places(updates, ctx.start, count);
    assert forall|i: int| #[trigger] leaves.contains_key(i) implies have[i] == leaves[i] by {
        let k = (i - ctx.start) / 3;
        let s = (i - ctx.start) % 3;
        assert(i == ctx.start + 3 * k + s);
        law_leaves_stand_in_place(updates, ctx.start, count, k, s);
        if k < groups {
            assert(updates[k] == group_update(block.deposit_groups[k]));
        } else {
            assert(updates[k] == tx_update(block.transactions[k - groups]));
        }
    }
    assert(have =~= leaves);
}

/// An update that claims another root than its leaves lead to draws its evidence, which names
/// the update, its leaves, the root that it claims and the anchor that is right.
pub proof fn law_wrong_root_is_reported(
    ctx: TreeContext,
    block: BlockContents,
    k: int,
    leaves: Map<int, B256>,
)
    requires
        0 <= k < block.deposit_groups.len() + block.transactions.len(),
        are_leaves_of(leaves, block, ctx.start, (k + 1) as nat),
        claimed_root(block, k) != climb(
            tree_root(leaves, 16),
            ctx.block_index as int,
            ctx.path,
            28,
        ),
    ensures
        exists|j: int|
            #![trigger tree_frauds(ctx, updates_of(block))[j]]
            0 <= j < tree_frauds(ctx, updates_of(block)).len() && (tree_frauds(
                ctx,
                updates_of(block),
            )[j] matches EvidenceView::IncorrectTreeUpdate {
                block: named,
                update_nr,
                is_tx,
                expected_anchor,
                submitted_anchor,
                leaves: three,
                ..
            } && named == ctx.block && update_nr == k as u64 && is_tx == (k
                >= block.deposit_groups.len()) && expected_anchor == climb(
                tree_root(leaves, 16),
                ctx.block_index as int,
                ctx.path,
                28,
            ) && submitted_anchor == claimed_root(block, k) && three@[0] == leaves[ctx.start + 3 * k]
                && three@[1] == leaves[ctx.start + 3 * k + 1] && three@[2] == leaves[ctx.start + 3 * k
                + 2]),
{
    let updates = updates_of(block);
    law_anchor_is_that_of_all_leaves(ctx, block, (k + 1) as nat, leaves);
    law_leaves_stand_in_place(updates, ctx.start, (k + 1) as nat, k, 0);
    law_leaves_stand_in_place(updates, ctx.start, (k + 1) as nat, k, 1);
    law_leaves_stand_in_place(updates, ctx.start, (k + 1) as nat, k, 2);
    let j = lemma_update_fraud_at(ctx, updates, updates.len(), k);
    assert(tree_frauds(ctx, updates)[j] == update_evidence(ctx, updates, k));
}

/// Where the evidence against an update stands that claims a wrong root.
proof fn lemma_update_fraud_at(ctx: TreeContext, updates: Seq<TreeUpdate>, count: nat, k: int) -> (j:
    int)
    requires
        0 <= k < count <= updates.len(),
        anchor_after(ctx, updates, (k + 1) as nat) != updates[k].new_root,
    ensures
        0 <= j < update_frauds(ctx, updates, count).len(),
        update_frauds(ctx, updates, count)[j] == update_evidence(ctx, updates, k),
    decreases count,
{
    let before = update_frauds(ctx, updates, (count - 1) as nat);
    if k < count - 1 {
        lemma_update_fraud_at(ctx, updates, (count - 1) as nat, k)
    } else {
        before.len() as int
    }
}

/// Which update the evidence at a place is about.
proof fn lemma_update_fraud_of(ctx: TreeContext, updates: Seq<TreeUpdate>, count: nat, j: int) -> (k:
    int)
    requires
        count <= updates.len(),
        0 <= j < update_frauds(ctx, updates, count).len(),
    ensures
        0 <= k < count,
        anchor_after(ctx, updates, (k + 1) as nat) != updates[k].new_root,
        update_frauds(ctx, updates, count)[j] == update_evidence(ctx, updates, k),
    decreases count,
{
    let before = update_frauds(ctx, updates, (count - 1) as nat);
    if j < before.len() {
        lemma_update_fraud_of(ctx, updates, (count - 1) as nat, j)
    } else {
        count - 1
    }
}

/// Evidence against a tree update is true: it names an update of the block, with its leaves and
/// where it went on from; the anchor that it expects is the one that the leaves up to that
/// update lead to; and the one that was submitted, by the update or, after the last, by the
/// header, is another. What a proof of the update is made from starts where the update did.
pub proof fn law_tree_evidence_is_true(ctx: TreeContext, block: BlockContents, j: int) -> (k: int)
    requires
        0 <= j < tree_frauds(ctx, updates_of(block)).len(),
        ctx.start + 3 * (block.deposit_groups.len() + block.transactions.len()) <= 65536,
    ensures
        0 <= k < block.deposit_groups.len() + block.transactions.len(),
        tree_frauds(ctx, updates_of(block))[j] matches EvidenceView::IncorrectTreeUpdate {
            block: named,
            update_nr,
            is_tx,
            expected_anchor,
            submitted_anchor,
            prior_anchor,
            leaves: three,
            prior_anchor_block_nr,
            prior_update_nr,
            merkle_data,
        } && {
            &&& named == ctx.block
            &&& update_nr == k
            &&& is_tx == (k >= block.deposit_groups.len())
            &&& expected_anchor != submitted_anchor
            &&& submitted_anchor == claimed_root(block, k) || (submitted_anchor == ctx.block.anchor && k
                == block.deposit_groups.len() + block.transactions.len() - 1)
            &&& forall|leaves: Map<int, B256>| #[trigger]
                are_leaves_of(leaves, block, ctx.start, (k + 1) as nat) ==> {
                    &&& expected_anchor == climb(
                        tree_root(leaves, 16),
                        ctx.block_index as int,
                        ctx.path,
                        28,
                    )
                    &&& three@[0] == leaves[ctx.start + 3 * k]
                    &&& three@[1] == leaves[ctx.start + 3 * k + 1]
                    &&& three@[2] == leaves[ctx.start + 3 * k + 2]
                }
            &&& k == 0 ==> prior_anchor == ctx.prior_anchor && prior_anchor_block_nr
                == ctx.prior_block_nr && prior_update_nr is None
            &&& k > 0 ==> prior_anchor == claimed_root(block, k - 1) && prior_anchor_block_nr is None
                && prior_update_nr == Some((k - 1) as u64)
            &&& merkle_data matches Some(data)
            &&& data.block_index == ctx.block_index
            &&& data.in_block_index == ctx.start + 3 * k
            &&& data.root_path == ctx.path
            &&& forall|leaves: Map<int, B256>| #[trigger]
                are_leaves_of(leaves, block, ctx.start, k as nat) ==> data.block_root_before
                    == tree_root(leaves, 16)
        },
{
    let updates = updates_of(block);
    let found = tree_frauds(ctx, updates);
    let against_updates = update_frauds(ctx, updates, updates.len());
    let k = if j < against_updates.len() {
        assert(found[j] == against_updates[j]);
        lemma_update_fraud_of(ctx, updates, updates.len(), j)
    } else {
        updates.len() - 1
    };
    let three = updates[k].leaves;
    assert forall|leaves: Map<int, B256>| #[trigger]
        are_leaves_of(leaves, block, ctx.start, (k + 1) as nat) implies {
        &&& anchor_after(ctx, updates, (k + 1) as nat) == climb(
            tree_root(leaves, 16),
            ctx.block_index as int,
            ctx.path,
            28,
        )
        &&& three@[0] == leaves[ctx.start + 3 * k]
        &&& three@[1] == leaves[ctx.start + 3 * k + 1]
        &&& three@[2] == leaves[ctx.start + 3 * k + 2]
    } by {
        law_anchor_is_that_of_all_leaves(ctx, block, (k + 1) as nat, leaves);
        law_leaves_stand_in_place(updates, ctx.start, (k + 1) as nat, k, 0);
        law_leaves_stand_in_place(updates, ctx.start, (k + 1) as nat, k, 1);
        law_leaves_stand_in_place(updates, ctx.start, (k + 1) as nat, k, 2);
    }
    assert forall|leaves: Map<int, B256>| #[trigger]
        are_leaves_of(leaves, block, ctx.start, k as nat) implies block_root_of(
        leaves_after(updates, ctx.start, k as nat),
    ) == tree_root(leaves, 16) by {
        law_anchor_is_that_of_all_leaves(ctx, block, k as nat, leaves);
    }
    k
}

/// A block whose tree updates draw no evidence claims, after each deposit group and each
/// transaction, the anchor of a chain in which the block has the leaves up to there; and its
/// header names the last of them. A block that does so draws none.
pub proof fn law_no_tree_evidence_iff_roots_are_right(
    ctx: TreeContext,
    block: BlockContents,
    leaves: Map<int, B256>,
)
    requires
        are_leaves_of(
            leaves,
            block,
            ctx.start,
            block.deposit_groups.len() + block.transactions.len(),
        ),
    ensures
        tree_frauds(ctx, updates_of(block)).len() == 0 <==> {
            let total = block.deposit_groups.len() + block.transactions.len();
            &&& forall|k: int|
                0 <= k < total ==> #[trigger] claimed_root(block, k) == climb(
                    tree_root(
                        leaves.restrict(
                            Set::new(|i: int| ctx.start <= i < ctx.start + 3 * (k + 1)),
                        ),
                        16,
                    ),
                    ctx.block_index as int,
                    ctx.path,
                    28,
                )
            &&& total > 0 ==> ctx.block.anchor == climb(
                tree_root(leaves, 16),
                ctx.block_index as int,
                ctx.path,
                28,
            )
        },
{
    let updates = updates_of(block);
    let total = block.deposit_groups.len() + block.transactions.len();
    law_no_evidence_iff_correct(ctx, updates);
    law_anchor_is_that_of_all_leaves(ctx, block, total, leaves);
    assert forall|k: int| 0 <= k < total implies #[trigger] anchor_after(ctx, updates, (k + 1) as nat)
        == climb(
        tree_root(
            leaves.restrict(Set::new(|i: int| ctx.start <= i < ctx.start + 3 * (k + 1))),
            16,
        ),
        ctx.block_index as int,
        ctx.path,
        28,
    ) && updates[k].new_root == claimed_root(block, k) by {
        let part = leaves.restrict(Set::new(|i: int| ctx.start <= i < ctx.start + 3 * (k + 1)));
        assert(are_leaves_of(part, block, ctx.start, (k + 1) as nat));
        law_anchor_is_that_of_all_leaves(ctx, block, (k + 1) as nat, part);
    }
    assert forall|k: int| 0 <= k < total implies updates[k].new_root == #[trigger] claimed_root(
        block,
        k,
    ) by {
        if k < block.deposit_groups.len() {
            assert(updates[k] == group_update(block.deposit_groups[k]));
        }
    }
    if tree_frauds(ctx, updates).len() == 0 {
        assert forall|k: int| 0 <= k < total implies #[trigger] claimed_root(block, k) == climb(
            tree_root(
                leaves.restrict(Set::new(|i: int| ctx.start <= i < ctx.start + 3 * (k + 1))),
                16,
            ),
            ctx.block_index as int,
            ctx.path,
            28,
        ) by {
            assert(updates[k].new_root == anchor_after(ctx, updates, (k + 1) as nat));
        }
    } else if forall|k: int|
        0 <= k < total ==> #[trigger] claimed_root(block, k) == climb(
            tree_root(
                leaves.restrict(Set::new(|i: int| ctx.start <= i < ctx.start + 3 * (k + 1))),
                16,
            ),
            ctx.block_index as int,
            ctx.path,
            28,
        ) {
        assert forall|k: int| 0 <= k < total implies (#[trigger] updates[k]).new_root
            == anchor_after(ctx, updates, (k + 1) as nat) by {
            assert(updates[k].new_root == claimed_root(block, k));
            assert(anchor_after(ctx, updates, (k + 1) as nat) == claimed_root(block, k));
        }
    }
}

/// The evidence against updates, without that against the header.
pub open spec fn evidence_against_updates(
    ctx: TreeContext,
    block: BlockContents,
    leaves: Map<int, B256>,
) -> Seq<EvidenceView> {
    let found = tree_frauds(ctx, updates_of(block));
    if header_is_wrong(ctx, block, leaves) {
        found.drop_last()
    } else {
        found
    }
}

/// Whether a block with updates names another anchor in its header than all its leaves lead to.
pub open spec fn header_is_wrong(
    ctx: TreeContext,
    block: BlockContents,
    leaves: Map<int, B256>,
) -> bool {
    &&& block.deposit_groups.len() + block.transactions.len() > 0
    &&& ctx.block.anchor != climb(tree_root(leaves, 16), ctx.block_index as int, ctx.path, 28)
}

/// What is not against the header is against the updates.
proof fn lemma_evidence_against_updates(
    ctx: TreeContext,
    block: BlockContents,
    leaves: Map<int, B256>,
)
    requires
        are_leaves_of(
            leaves,
            block,
            ctx.start,
            block.deposit_groups.len() + block.transactions.len(),
        ),
    ensures
        evidence_against_updates(ctx, block, leaves) == update_frauds(
            ctx,
            updates_of(block),
            updates_of(block).len(),
        ),
{
    law_anchor_is_that_of_all_leaves(
        ctx,
        block,
        block.deposit_groups.len() + block.transactions.len(),
        leaves,
    );
    assert(evidence_against_updates(ctx, block, leaves) =~= update_frauds(
        ctx,
        updates_of(block),
        updates_of(block).len(),
    ));
}

/// Where the header names another anchor than all leaves lead to, the last piece of evidence says
/// so, whatever was found before: it holds the header's anchor against the last update.
pub proof fn law_wrong_header_is_reported(
    ctx: TreeContext,
    block: BlockContents,
    leaves: Map<int, B256>,
)
    requires
        are_leaves_of(
            leaves,
            block,
            ctx.start,
            block.deposit_groups.len() + block.transactions.len(),
        ),
        block.deposit_groups.len() + block.transactions.len() <= u64::MAX,
        header_is_wrong(ctx, block, leaves),
    ensures
        tree_frauds(ctx, updates_of(block)).len() > 0,
        tree_frauds(ctx, updates_of(block)).last() matches EvidenceView::IncorrectTreeUpdate {
            update_nr,
            expected_anchor,
            submitted_anchor,
            ..
        } && update_nr == block.deposit_groups.len() + block.transactions.len() - 1
            && expected_anchor == climb(tree_root(leaves, 16), ctx.block_index as int, ctx.path, 28)
            && submitted_anchor == ctx.block.anchor,
{
    law_anchor_is_that_of_all_leaves(
        ctx,
        block,
        block.deposit_groups.len() + block.transactions.len(),
        leaves,
    );
}

/// The evidence against updates comes in the order of the updates, each update once, and holds
/// against it the root that it claims.
pub proof fn law_tree_evidence_in_order(
    ctx: TreeContext,
    block: BlockContents,
    leaves: Map<int, B256>,
    i: int,
    j: int,
)
    requires
        are_leaves_of(
            leaves,
            block,
            ctx.start,
            block.deposit_groups.len() + block.transactions.len(),
        ),
        block.deposit_groups.len() + block.transactions.len() <= u64::MAX,
        0 <= i < j < evidence_against_updates(ctx, block, leaves).len(),
    ensures
        ({
            let against_updates = evidence_against_updates(ctx, block, leaves);
            let k = against_updates[i]->IncorrectTreeUpdate_update_nr;
            &&& k < against_updates[j]->IncorrectTreeUpdate_update_nr
            &&& k < block.deposit_groups.len() + block.transactions.len()
            &&& against_updates[i]->IncorrectTreeUpdate_submitted_anchor == claimed_root(
                block,
                k as int,
            )
        }),
{
    let updates = updates_of(block);
    lemma_evidence_against_updates(ctx, block, leaves);
    lemma_update_frauds_ordered(ctx, updates, updates.len(), i, j);
    let k = lemma_update_fraud_of(ctx, updates, updates.len(), i);
    lemma_claimed_root(block, k);
}

/// The root that an update claims is that of its part of the block.
proof fn lemma_claimed_root(block: BlockContents, k: int)
    requires
        0 <= k < block.deposit_groups.len() + block.transactions.len(),
    ensures
        updates_of(block)[k].new_root == claimed_root(block, k),
{
}

/// Every update that claims a wrong root is among the evidence against updates, whatever is found
/// against the header.
pub proof fn law_wrong_root_is_against_its_update(
    ctx: TreeContext,
    block: BlockContents,
    leaves: Map<int, B256>,
    k: int,
    part: Map<int, B256>,
)
    requires
        are_leaves_of(
            leaves,
            block,
            ctx.start,
            block.deposit_groups.len() + block.transactions.len(),
        ),
        block.deposit_groups.len() + block.transactions.len() <= u64::MAX,
        0 <= k < block.deposit_groups.len() + block.transactions.len(),
        are_leaves_of(part, block, ctx.start, (k + 1) as nat),
        claimed_root(block, k) != climb(tree_root(part, 16), ctx.block_index as int, ctx.path, 28),
    ensures
        exists|i: int|
            0 <= i < evidence_against_updates(ctx, block, leaves).len() && (
            #[trigger] evidence_against_updates(
                ctx,
                block,
                leaves,
            )[i])->IncorrectTreeUpdate_update_nr == k,
{
    let updates = updates_of(block);
    lemma_evidence_against_updates(ctx, block, leaves);
    law_anchor_is_that_of_all_leaves(ctx, block, (k + 1) as nat, part);
    lemma_claimed_root(block, k);
    let i = lemma_update_fraud_at(ctx, updates, updates.len(), k);
    assert(evidence_against_updates(ctx, block, leaves)[i]->IncorrectTreeUpdate_update_nr == k);
}

/// The evidence against updates is in their order.
proof fn lemma_update_frauds_ordered(
    ctx: TreeContext,
    updates: Seq<TreeUpdate>,
    count: nat,
    i: int,
    j: int,
)
    requires
        count <= updates.len() <= u64::MAX,
        0 <= i < j < update_frauds(ctx, updates, count).len(),
    ensures
        update_frauds(ctx, updates, count)[i]->IncorrectTreeUpdate_update_nr < update_frauds(
            ctx,
            updates,
            count,
        )[j]->IncorrectTreeUpdate_update_nr,
    decreases count,
{
    let before = update_frauds(ctx, updates, (count - 1) as nat);
    if j < before.len() {
        lemma_update_frauds_ordered(ctx, updates, (count - 1) as nat, i, j);
    } else {
        lemma_update_fraud_of(ctx, updates, (count - 1) as nat, i);
    }
}

} // verus!
