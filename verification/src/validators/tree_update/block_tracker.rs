//! The tree of one block's leaves, and the anchor that follows from it.

use super::{BLOCK_DEPTH, ROOT_DEPTH};
use crate::merkle::{
    ancestor, climb, compute_zero_hashes, law_path_leads_to_root, leaf_of, lemma_ancestor_step, poseidon2,
    sibling_path, tree_root, zero_hash, IncrementalMerkleTree,
};
use crate::types::{bn254_order, lemma_b256_ext, lemma_zero_word, zero_word, B256};
use crate::validators::{MerkleDataView, TreeUpdateMerkleData};
use vstd::arithmetic::power2::{lemma2_to64, pow2};
use vstd::prelude::*;

verus! {

/// A path in the tree of block roots, filled up with the roots of empty trees.
pub open spec fn full_path(path: Seq<B256>) -> Seq<B256> {
    Seq::new(
        28,
        |level: int|
            if level < path.len() {
                path[level]
            } else {
                zero_hash(level as nat)
            },
    )
}

/// The root of a block's tree.
pub open spec fn block_root_of(leaves: Map<int, B256>) -> B256 {
    tree_root(leaves, 16)
}

/// The anchor of a chain in which a block has the given leaves.
pub open spec fn block_anchor(leaves: Map<int, B256>, block_index: int, path: Seq<B256>) -> B256 {
    climb(block_root_of(leaves), block_index, path, 28)
}

/// The leaves after an update put three of them in.
pub open spec fn leaves_with(leaves: Map<int, B256>, at: int, update: [B256; 3]) -> Map<int, B256> {
    leaves.insert(at, update@[0]).insert(at + 1, update@[1]).insert(at + 2, update@[2])
}

/// The last of the leaves before `at` that is not zero; zero where all are.
pub open spec fn last_nonzero(leaves: Map<int, B256>, at: nat) -> B256
    decreases at,
{
    if at == 0 {
        zero_word()
    } else if leaf_of(leaves, at - 1) != zero_word() {
        leaf_of(leaves, at - 1)
    } else {
        last_nonzero(leaves, (at - 1) as nat)
    }
}

/// The siblings of a leaf of a block; zeros where there is no such leaf.
pub open spec fn block_path(leaves: Map<int, B256>, at: int) -> Seq<B256> {
    if at < 65536 {
        sibling_path(leaves, 16, at)
    } else {
        Seq::new(16, |level: int| zero_word())
    }
}

/// The siblings that an update reads: of the leaf before it, and of each of its three
/// leaves at the time when that leaf goes in.
pub open spec fn update_proofs(leaves: Map<int, B256>, at: int, update: [B256; 3]) -> Seq<
    Seq<B256>,
> {
    let one = leaves.insert(at, update@[0]);
    let two = one.insert(at + 1, update@[1]);
    seq![
        block_path(leaves, if at > 0 { at - 1 } else { 0 }),
        block_path(leaves, at),
        block_path(one, at + 1),
        block_path(two, at + 2),
    ]
}

/// What a proof of an update is made from.
pub open spec fn merkle_data_of(
    leaves: Map<int, B256>,
    block_index: u64,
    path: Seq<B256>,
    at: usize,
    update: [B256; 3],
) -> MerkleDataView {
    MerkleDataView {
        block_root_before: block_root_of(leaves),
        block_index,
        in_block_index: at,
        nonzero_field: last_nonzero(leaves, at as nat),
        block_proofs: update_proofs(leaves, at as int, update),
        root_path: path,
    }
}

/// The tree of one block's leaves, at its place in the tree of block roots.
pub struct BlockTreeTracker {
    block_tree: IncrementalMerkleTree,
    /// Siblings of the block's position in the tree of block roots.
    root_path: Vec<B256>,
    block_index: usize,
    /// Where the next update goes.
    in_block_index: usize,
}

impl BlockTreeTracker {
    /// The leaves that were set.
    pub closed spec fn leaves(self) -> Map<int, B256> {
        self.block_tree.leaves()
    }

    /// Siblings of the block's position in the tree of block roots.
    pub closed spec fn path(self) -> Seq<B256> {
        self.root_path@.take(28)
    }

    /// Position of the block in the tree of block roots.
    pub closed spec fn position(self) -> nat {
        self.block_index as nat
    }

    /// Where the next update goes.
    pub closed spec fn next(self) -> nat {
        self.in_block_index as nat
    }

    /// The tree has the depth of a block's tree, and the path is complete.
    pub closed spec fn wf(self) -> bool {
        &&& self.block_tree.wf()
        &&& self.block_tree.spec_depth() == 16
        &&& self.root_path@.len() >= 28
    }

    /// A block without leaves, at a position in the tree of block roots.
    pub fn new(block_index: usize, root_path: &[B256]) -> (r: BlockTreeTracker)
        ensures
            r.wf(),
            r.leaves() == Map::<int, B256>::empty(),
            r.path() == full_path(root_path@),
            r.position() == block_index,
            r.next() == 0,
    {
        let block_tree = IncrementalMerkleTree::new(BLOCK_DEPTH);
        let zero_hashes = compute_zero_hashes(ROOT_DEPTH);
        let mut path: Vec<B256> = Vec::new();
        let mut i: usize = 0;
        while i < root_path.len()
            invariant
                i <= root_path@.len(),
                path@ == root_path@.take(i as int),
            decreases root_path@.len() - i,
        {
            path.push(root_path[i]);
            i += 1;
            assert(root_path@.take(i as int) =~= root_path@.take(i - 1).push(root_path@[i - 1]));
        }
        while path.len() < ROOT_DEPTH
            invariant
                zero_hashes@.len() == 29,
                forall|l: int| 0 <= l <= 28 ==> #[trigger] zero_hashes@[l] == zero_hash(l as nat),
                path@.len() >= root_path@.len(),
                path@.len() <= 28 || path@.len() == root_path@.len(),
                forall|l: int| 0 <= l < root_path@.len() ==> path@[l] == root_path@[l],
                forall|l: int|
                    root_path@.len() <= l < path@.len() ==> path@[l] == zero_hash(l as nat),
            decreases 28 - path@.len(),
        {
            let level: usize = path.len();
            path.push(zero_hashes[level]);
        }
        let tracker = BlockTreeTracker {
            block_tree,
            root_path: path,
            block_index,
            in_block_index: 0,
        };
        assert(tracker.path() =~= full_path(root_path@));
        tracker
    }

    /// A block without leaves, the path being complete.
    pub fn from_root_path_array(block_index: usize, root_path: [B256; 28]) -> (r: BlockTreeTracker)
        ensures
            r.wf(),
            r.leaves() == Map::<int, B256>::empty(),
            r.path() == root_path@,
            r.position() == block_index,
            r.next() == 0,
    {
        assert(full_path(root_path@) =~= root_path@);
        Self::new(block_index, root_path.as_slice())
    }

    /// Puts three leaves in where the next update goes, and moves on. Returns the anchor
    /// after them.
    pub fn apply_update(&mut self, leaves: [B256; 3]) -> (r: B256)
        requires
            old(self).wf(),
            old(self).next() + 3 <= 65536,
        ensures
            final(self).wf(),
            final(self).leaves() == leaves_with(old(self).leaves(), old(self).next() as int, leaves),
            final(self).path() == old(self).path(),
            final(self).position() == old(self).position(),
            final(self).next() == old(self).next() + 3,
            r == block_anchor(final(self).leaves(), old(self).position() as int, old(self).path()),
    {
        let at: usize = self.in_block_index;
        let anchor = self.apply_update_at(leaves, at);
        self.in_block_index = at + 3;
        anchor
    }

    /// Puts three leaves in at an index. Returns the anchor after them. Does not move to
    /// where the next update goes.
    pub fn apply_update_at(&mut self, leaves: [B256; 3], in_block_index: usize) -> (r: B256)
        requires
            old(self).wf(),
            in_block_index + 3 <= 65536,
        ensures
            final(self).wf(),
            final(self).leaves() == leaves_with(old(self).leaves(), in_block_index as int, leaves),
            final(self).path() == old(self).path(),
            final(self).position() == old(self).position(),
            final(self).next() == old(self).next(),
            r == block_anchor(final(self).leaves(), old(self).position() as int, old(self).path()),
    {
        proof {
            lemma2_to64();
        }
        self.block_tree.set_leaf(in_block_index, leaves[0]);
        self.block_tree.set_leaf(in_block_index + 1, leaves[1]);
        self.block_tree.set_leaf(in_block_index + 2, leaves[2]);
        let block_root = self.block_tree.root();
        self.compute_anchor(block_root)
    }

    /// The anchor that follows if the block has the given root.
    pub fn compute_anchor(&self, block_root: B256) -> (r: B256)
        requires
            self.wf(),
        ensures
            r == climb(block_root, self.position() as int, self.path(), 28),
            r.value() < bn254_order()@,
    {
        let mut current = block_root;
        let mut index: usize = self.block_index;
        let mut level: usize = 0;
        proof {
            lemma2_to64();
            assert(ancestor(self.block_index as int, 0) == self.block_index);
        }
        while level < ROOT_DEPTH
            invariant
                self.wf(),
                level <= 28,
                index == ancestor(self.block_index as int, level as nat),
                current == climb(block_root, self.position() as int, self.path(), level as nat),
                level > 0 ==> current.value() < bn254_order()@,
            decreases 28 - level,
        {
            proof {
                lemma_ancestor_step(self.block_index as int, level as nat);
            }
            let sibling = self.root_path[level];
            assert(sibling == self.path()[level as int]);
            current = if index % 2 == 0 {
                poseidon2(current, sibling)
            } else {
                poseidon2(sibling, current)
            };
            index = index / 2;
            level += 1;
        }
        current
    }

    /// The anchor that follows from the leaves.
    pub fn current_anchor(&self) -> (r: B256)
        requires
            self.wf(),
        ensures
            r == block_anchor(self.leaves(), self.position() as int, self.path()),
            r.value() < bn254_order()@,
    {
        let block_root = self.block_tree.root();
        self.compute_anchor(block_root)
    }

    /// The root of the block's tree.
    pub fn block_root(&self) -> (r: B256)
        requires
            self.wf(),
        ensures
            r == block_root_of(self.leaves()),
    {
        self.block_tree.root()
    }

    /// Position of the block in the tree of block roots.
    pub fn block_index(&self) -> (r: u64)
        ensures
            r == self.position(),
    {
        self.block_index as u64
    }

    /// Where the next update goes.
    pub fn in_block_index(&self) -> (r: usize)
        ensures
            r == self.next(),
    {
        self.in_block_index
    }

    /// The siblings of the block's position in the tree of block roots.
    pub fn root_path_array(&self) -> (r: [B256; 28])
        requires
            self.wf(),
        ensures
            r@ == self.path(),
    {
        let mut arr = [B256::zero();28];
        let mut i: usize = 0;
        while i < 28
            invariant
                i <= 28,
                self.wf(),
                forall|j: int| 0 <= j < i ==> arr@[j] == self.root_path@[j],
            decreases 28 - i,
        {
            arr[i] = self.root_path[i];
            i += 1;
        }
        assert(arr@ =~= self.path());
        arr
    }

    /// The siblings that an update reads, each taken while the leaves go in.
    pub fn get_block_proofs_for_update(&self, in_block_index: usize, leaves: [B256; 3]) -> (r: [[B256;
        16]; 4])
        requires
            self.wf(),
            in_block_index + 2 <= 65536,
        ensures
            proof_views(r) == update_proofs(self.leaves(), in_block_index as int, leaves),
    {
        proof {
            lemma2_to64();
        }
        let mut tree = self.block_tree.clone();
        let before: usize = if in_block_index > 0 {
            in_block_index - 1
        } else {
            0
        };
        let p0 = path_array(&tree, before);
        let p1 = path_array(&tree, in_block_index);
        tree.set_leaf(in_block_index, leaves[0]);
        let p2 = path_array(&tree, in_block_index + 1);
        tree.set_leaf(in_block_index + 1, leaves[1]);
        let p3 = path_array(&tree, in_block_index + 2);
        let proofs = [p0, p1, p2, p3];
        assert(proof_views(proofs) =~= update_proofs(
            self.leaves(),
            in_block_index as int,
            leaves,
        ));
        proofs
    }

    /// The last leaf before an index that is not zero; zero where there is none.
    pub fn get_nonzero_field(&self, in_block_index: usize) -> (r: B256)
        requires
            self.wf(),
            in_block_index <= 65536,
        ensures
            r == last_nonzero(self.leaves(), in_block_index as nat),
    {
        proof {
            lemma2_to64();
        }
        let zero = B256::zero();
        let mut i: usize = in_block_index;
        while i > 0
            invariant
                self.wf(),
                i <= in_block_index <= 65536,
                pow2(16) == 65536,
                zero == zero_word(),
                last_nonzero(self.leaves(), in_block_index as nat) == last_nonzero(
                    self.leaves(),
                    i as nat,
                ),
            decreases i,
        {
            i -= 1;
            let leaf = self.block_tree.get_node(0, i);
            if leaf != zero {
                return leaf;
            }
        }
        zero
    }

    /// What a proof of an update is made from, before the update is applied.
    pub fn get_merkle_data_before_update(&self, in_block_index: usize, leaves: [B256; 3]) -> (r:
        TreeUpdateMerkleData)
        requires
            self.wf(),
            in_block_index + 2 <= 65536,
        ensures
            r@ == merkle_data_of(
                self.leaves(),
                self.position() as u64,
                self.path(),
                in_block_index,
                leaves,
            ),
    {
        TreeUpdateMerkleData {
            block_root_before: self.block_root(),
            block_index: self.block_index(),
            in_block_index,
            nonzero_field: self.get_nonzero_field(in_block_index),
            block_proofs: self.get_block_proofs_for_update(in_block_index, leaves),
            root_path: self.root_path_array(),
        }
    }
}

impl Clone for BlockTreeTracker {
    fn clone(&self) -> (r: Self)
        ensures
            self.wf() ==> r.wf(),
            r.leaves() == self.leaves(),
            r.path() == self.path(),
            r.position() == self.position(),
            r.next() == self.next(),
    {
        let root_path = self.root_path.clone();
        assert(root_path@ =~= self.root_path@);
        BlockTreeTracker {
            block_tree: self.block_tree.clone(),
            root_path,
            block_index: self.block_index,
            in_block_index: self.in_block_index,
        }
    }
}

/// The siblings of a leaf of a block; zeros where there is no such leaf.
fn path_array(tree: &IncrementalMerkleTree, index: usize) -> (r: [B256; 16])
    requires
        tree.wf(),
        tree.spec_depth() == 16,
    ensures
        r@ == block_path(tree.leaves(), index as int),
{
    proof {
        lemma2_to64();
    }
    let mut path = [B256::zero();16];
    match tree.get_proof(index) {
        Ok(proof) => {
            let mut i: usize = 0;
            while i < 16
                invariant
                    i <= 16,
                    proof.siblings@.len() == 16,
                    forall|j: int| 0 <= j < i ==> path@[j] == proof.siblings@[j],
                decreases 16 - i,
            {
                path[i] = proof.siblings[i];
                i += 1;
            }
            assert(path@ =~= proof.siblings@);
        },
        Err(_) => {
            assert(path@ =~= block_path(tree.leaves(), index as int));
        },
    }
    path
}

/// The siblings in a list of proofs.
pub open spec fn proof_views(proofs: [[B256; 16]; 4]) -> Seq<Seq<B256>> {
    Seq::new(4, |i: int| proofs@[i]@)
}

/// An update puts its three leaves in one after another, and touches no other leaf.
pub proof fn law_update_sets_three_leaves(leaves: Map<int, B256>, at: int, update: [B256; 3], i: int)
    ensures
        ({
            let after = leaves_with(leaves, at, update);
            &&& after.contains_key(at) && after[at] == update@[0]
            &&& after.contains_key(at + 1) && after[at + 1] == update@[1]
            &&& after.contains_key(at + 2) && after[at + 2] == update@[2]
            &&& i < at || at + 3 <= i ==> after.contains_key(i) == leaves.contains_key(i)
            &&& (i < at || at + 3 <= i) && leaves.contains_key(i) ==> after[i] == leaves[i]
        }),
{
}

/// What a proof of an update is made from leads through the update, leaf by leaf: each list of
/// siblings belongs both to the tree before its leaf goes in and to the tree after, from the
/// root before the update to the root after it.
pub proof fn law_update_data_leads_through_the_update(
    leaves: Map<int, B256>,
    block_index: u64,
    path: Seq<B256>,
    at: usize,
    update: [B256; 3],
)
    requires
        at + 3 <= 65536,
    ensures
        ({
            let data = merkle_data_of(leaves, block_index, path, at, update);
            let one = leaves.insert(at as int, update@[0]);
            let two = one.insert(at + 1, update@[1]);
            let all = two.insert(at + 2, update@[2]);
            let last: int = if at > 0 {
                at - 1
            } else {
                0
            };
            &&& data.block_index == block_index
            &&& data.in_block_index == at
            &&& data.root_path == path
            &&& data.block_root_before == tree_root(leaves, 16)
            &&& data.block_proofs.len() == 4
            &&& climb(leaf_of(leaves, last), last, data.block_proofs[0], 16) == tree_root(leaves, 16)
            &&& climb(leaf_of(leaves, at as int), at as int, data.block_proofs[1], 16) == tree_root(
                leaves,
                16,
            )
            &&& climb(update@[0], at as int, data.block_proofs[1], 16) == tree_root(one, 16)
            &&& climb(leaf_of(one, at + 1), at + 1, data.block_proofs[2], 16) == tree_root(one, 16)
            &&& climb(update@[1], at + 1, data.block_proofs[2], 16) == tree_root(two, 16)
            &&& climb(leaf_of(two, at + 2), at + 2, data.block_proofs[3], 16) == tree_root(two, 16)
            &&& climb(update@[2], at + 2, data.block_proofs[3], 16) == tree_root(all, 16)
            &&& all == leaves_with(leaves, at as int, update)
        }),
{
    lemma2_to64();
    let one = leaves.insert(at as int, update@[0]);
    let two = one.insert(at + 1, update@[1]);
    let last: int = if at > 0 {
        at - 1
    } else {
        0
    };
    law_path_leads_to_root(leaves, 16, last, update@[0]);
    law_path_leads_to_root(leaves, 16, at as int, update@[0]);
    law_path_leads_to_root(one, 16, at + 1, update@[1]);
    law_path_leads_to_root(two, 16, at + 2, update@[2]);
}

/// The leaf that is named as the last one before an update is not zero, and all between it and
/// the update are; where every leaf before the update is zero, so is what is named.
pub proof fn law_last_nonzero_leaf(leaves: Map<int, B256>, at: nat)
    ensures
        ({
            let named = last_nonzero(leaves, at);
            ||| (named@ == Seq::new(32, |b: int| 0u8) && forall|i: int|
                0 <= i < at ==> #[trigger] leaf_of(leaves, i) == named)
            ||| (named@ != Seq::new(32, |b: int| 0u8) && exists|k: int|
                0 <= k < at && #[trigger] leaf_of(leaves, k) == named && forall|i: int|
                    k < i < at ==> (#[trigger] leaf_of(leaves, i))@ == Seq::new(32, |b: int| 0u8))
        }),
    decreases at,
{
    lemma_zero_word();
    if at > 0 {
        let before = (at - 1) as nat;
        let leaf = leaf_of(leaves, before as int);
        let named = last_nonzero(leaves, at);
        let zeros = Seq::new(32, |b: int| 0u8);
        lemma_b256_ext(leaf, zero_word());
        if leaf != zero_word() {
            assert(leaf_of(leaves, before as int) == named);
        } else {
            law_last_nonzero_leaf(leaves, before);
            if named@ != zeros {
                let k = choose|k: int|
                    0 <= k < before && #[trigger] leaf_of(leaves, k) == named && forall|i: int|
                        k < i < before ==> (#[trigger] leaf_of(leaves, i))@ == zeros;
                assert forall|i: int| k < i < at implies (#[trigger] leaf_of(leaves, i))@ == zeros by {
                    if i == before {
                        assert(leaf_of(leaves, i) == leaf);
                    }
                }
                assert(leaf_of(leaves, k) == named);
            } else {
                lemma_b256_ext(named, zero_word());
            }
        }
    }
}

/// A path that is too short is filled up with the roots of empty trees, and one that is too long
/// is cut.
pub proof fn law_path_is_filled_up(path: Seq<B256>, level: int)
    requires
        0 <= level < 28,
    ensures
        full_path(path).len() == 28,
        level < path.len() ==> full_path(path)[level] == path[level],
        level >= path.len() ==> full_path(path)[level] == zero_hash(level as nat),
{
}

/// The anchor after a single update is that of a chain in which the block has its three leaves
/// and no others.
pub proof fn law_anchor_of_one_update(
    leaves: Map<int, B256>,
    at: int,
    update: [B256; 3],
    block_index: int,
    path: Seq<B256>,
)
    requires
        leaves == map![at => update@[0], at + 1 => update@[1], at + 2 => update@[2]],
    ensures
        block_anchor(leaves_with(Map::empty(), at, update), block_index, path) == climb(
            tree_root(leaves, 16),
            block_index,
            path,
            28,
        ),
        block_root_of(leaves) == tree_root(leaves, 16),
{
    assert(leaves_with(Map::empty(), at, update) =~= leaves);
}

} // verus!
