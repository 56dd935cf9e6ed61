//! The tree of block roots, kept as one tree.

use super::{BLOCKS_PER_DAY, ROOT_DEPTH};
use crate::merkle::{
    ancestor, climb, law_path_leads_to_root, lemma_ancestor_step, lemma_node_empty, lemma_node_same, leaf_of,
    poseidon2, sibling_path, tree_root, zero_hash, IncrementalMerkleTree,
};
use crate::types::{bn254_order, B256};
use std::collections::HashMap;
use vstd::arithmetic::power2::lemma2_to64;
use vstd::prelude::*;

verus! {

broadcast use vstd::std_specs::hash::group_hash_axioms;

/// The leaves of the tree of block roots.
pub open spec fn root_leaves(blocks: Map<u64, B256>) -> Map<int, B256> {
    Map::new(
        |i: int| 0 <= i <= u64::MAX && blocks.contains_key(i as u64),
        |i: int| blocks[i as u64],
    )
}

/// The anchor of a chain with the given block roots.
pub open spec fn anchor_of(blocks: Map<u64, B256>) -> B256 {
    tree_root(root_leaves(blocks), 28)
}

/// The siblings of a position in the tree of block roots.
pub open spec fn root_path_of(blocks: Map<u64, B256>, tree_index: int) -> Seq<B256> {
    sibling_path(root_leaves(blocks), 28, tree_index)
}

/// The block roots that a list of positions and roots amounts to, later entries taking
/// the place of earlier ones.
pub open spec fn blocks_of(list: Seq<(u64, B256)>) -> Map<u64, B256>
    decreases list.len(),
{
    if list.len() == 0 {
        Map::empty()
    } else {
        blocks_of(list.drop_last()).insert(list.last().0, list.last().1)
    }
}

/// The positions and roots of a list of blocks given by day and index.
pub open spec fn positions_of(list: Seq<(u16, u16, u64, B256, u32)>) -> Seq<(u64, B256)> {
    Seq::new(
        list.len(),
        |i: int| ((list[i].0 as int * 8192 + list[i].1 as int) as u64, list[i].3),
    )
}

/// What a block root hashes to over its siblings in the tree of block roots.
pub fn compute_anchor_from_path(block_root: B256, tree_index: u64, root_path: &[B256; 28]) -> (r:
    B256)
    ensures
        r == climb(block_root, tree_index as int, root_path@, 28),
        r.value() < bn254_order()@,
{
    let mut current = block_root;
    let mut index: u64 = tree_index;
    let mut level: usize = 0;
    proof {
        lemma2_to64();
        assert(ancestor(tree_index as int, 0) == tree_index);
    }
    while level < ROOT_DEPTH
        invariant
            level <= 28,
            index == ancestor(tree_index as int, level as nat),
            current == climb(block_root, tree_index as int, root_path@, level as nat),
            level > 0 ==> current.value() < bn254_order()@,
        decreases 28 - level,
    {
        proof {
            lemma_ancestor_step(tree_index as int, level as nat);
        }
        current = if index % 2 == 0 {
            poseidon2(current, root_path[level])
        } else {
            poseidon2(root_path[level], current)
        };
        index = index / 2;
        level += 1;
    }
    current
}

/// The tree of block roots across blocks.
pub struct RootTreeTracker {
    root_tree: IncrementalMerkleTree,
    current_anchor: B256,
    /// Block roots by position.
    block_roots: HashMap<u64, B256>,
}

impl View for RootTreeTracker {
    type V = Map<u64, B256>;

    closed spec fn view(&self) -> Map<u64, B256> {
        self.block_roots@
    }
}

/// Two leaf maps that agree on what every leaf is.
proof fn lemma_same_leaves(a: Map<int, B256>, b: Map<int, B256>, depth: nat, index: int)
    requires
        forall|i: int| leaf_of(a, i) == leaf_of(b, i),
    ensures
        tree_root(a, depth) == tree_root(b, depth),
        sibling_path(a, depth, index) == sibling_path(b, depth, index),
{
    lemma_node_same(a, b, depth, 0);
    assert forall|l: int| 0 <= l < depth implies sibling_path(a, depth, index)[l] == sibling_path(
        b,
        depth,
        index,
    )[l] by {
        lemma_node_same(
            a,
            b,
            l as nat,
            crate::merkle::other_child(ancestor(index, l as nat)),
        );
    }
    assert(sibling_path(a, depth, index) =~= sibling_path(b, depth, index));
}

impl RootTreeTracker {
    /// Largest position in the tree of block roots.
    pub const MAX_TREE_INDEX: u64 = 268435455;

    /// The tree holds exactly the block roots, all of them within it, and the anchor is
    /// its root.
    pub closed spec fn wf(self) -> bool {
        &&& self.root_tree.wf()
        &&& self.root_tree.spec_depth() == 28
        &&& forall|i: int|
            leaf_of(self.root_tree.leaves(), i) == #[trigger] leaf_of(root_leaves(self@), i)
        &&& forall|k: u64| #[trigger] self@.contains_key(k) ==> k <= Self::MAX_TREE_INDEX
        &&& self.current_anchor == self.root_tree.spec_root()
    }

    /// What is known of every tracker: its positions lie within the tree.
    pub proof fn lemma_positions(self)
        requires
            self.wf(),
        ensures
            forall|k: u64| #[trigger] self@.contains_key(k) ==> k <= Self::MAX_TREE_INDEX,
    {
    }

    /// The tracker of a chain without blocks.
    pub fn new() -> (r: RootTreeTracker)
        ensures
            r.wf(),
            r@ == Map::<u64, B256>::empty(),
    {
        let root_tree = IncrementalMerkleTree::new(ROOT_DEPTH);
        let current_anchor = root_tree.root();
        RootTreeTracker { root_tree, current_anchor, block_roots: HashMap::new() }
    }

    /// The position of a block in the tree of block roots.
    pub fn compute_tree_index(day: u64, block_index_in_day: u64) -> (r: u64)
        requires
            block_index_in_day < BLOCKS_PER_DAY,
            day * BLOCKS_PER_DAY + block_index_in_day <= Self::MAX_TREE_INDEX,
        ensures
            r == day * BLOCKS_PER_DAY + block_index_in_day,
    {
        day * BLOCKS_PER_DAY + block_index_in_day
    }

    /// Restores a tracker from positions and roots.
    pub fn from_block_roots(block_roots: &[(u64, B256)]) -> (r: RootTreeTracker)
        requires
            forall|i: int|
                0 <= i < block_roots@.len() ==> (#[trigger] block_roots@[i]).0
                    <= Self::MAX_TREE_INDEX,
        ensures
            r.wf(),
            r@ == blocks_of(block_roots@),
    {
        let mut tracker = Self::new();
        let mut i: usize = 0;
        while i < block_roots.len()
            invariant
                i <= block_roots@.len(),
                forall|j: int|
                    0 <= j < block_roots@.len() ==> (#[trigger] block_roots@[j]).0
                        <= Self::MAX_TREE_INDEX,
                tracker.wf(),
                tracker@ == blocks_of(block_roots@.take(i as int)),
            decreases block_roots@.len() - i,
        {
            let (tree_index, root) = block_roots[i];
            tracker.insert_block_root(tree_index, root);
            proof {
                let next = block_roots@.take(i + 1);
                assert(next.drop_last() =~= block_roots@.take(i as int));
            }
            i += 1;
        }
        assert(block_roots@.take(i as int) =~= block_roots@);
        tracker
    }

    /// Restores a tracker from blocks given by day, index in the day, number, root and
    /// leaf count.
    pub fn from_hierarchical_block_roots(block_roots: &[(u16, u16, u64, B256, u32)]) -> (r:
        RootTreeTracker)
        requires
            forall|i: int|
                0 <= i < block_roots@.len() ==> (#[trigger] block_roots@[i]).0 < 32768
                    && block_roots@[i].1 < 8192,
        ensures
            r.wf(),
            r@ == blocks_of(positions_of(block_roots@)),
    {
        let mut tracker = Self::new();
        let mut i: usize = 0;
        let ghost positions = positions_of(block_roots@);
        while i < block_roots.len()
            invariant
                i <= block_roots@.len(),
                forall|j: int|
                    0 <= j < block_roots@.len() ==> (#[trigger] block_roots@[j]).0 < 32768
                        && block_roots@[j].1 < 8192,
                positions == positions_of(block_roots@),
                tracker.wf(),
                tracker@ == blocks_of(positions.take(i as int)),
            decreases block_roots@.len() - i,
        {
            let (day, block_in_day, _, root, _) = block_roots[i];
            let tree_index = Self::compute_tree_index(day as u64, block_in_day as u64);
            tracker.insert_block_root(tree_index, root);
            proof {
                let next = positions.take(i + 1);
                assert(next.drop_last() =~= positions.take(i as int));
            }
            i += 1;
        }
        assert(positions.take(i as int) =~= positions);
        tracker
    }

    /// The siblings of a position, from the bottom up.
    pub fn get_root_path_for_index(&self, tree_index: u64) -> (r: [B256; 28])
        requires
            self.wf(),
            tree_index <= Self::MAX_TREE_INDEX,
        ensures
            r@ == root_path_of(self@, tree_index as int),
    {
        proof {
            lemma2_to64();
            lemma_same_leaves(
                self.root_tree.leaves(),
                root_leaves(self@),
                28,
                tree_index as int,
            );
        }
        let mut path = [B256::zero();28];
        match self.root_tree.get_proof(tree_index as usize) {
            Ok(proof) => {
                let mut i: usize = 0;
                while i < ROOT_DEPTH
                    invariant
                        i <= 28,
                        proof.siblings@.len() == 28,
                        forall|j: int| 0 <= j < i ==> path@[j] == proof.siblings@[j],
                    decreases 28 - i,
                {
                    path[i] = proof.siblings[i];
                    i += 1;
                }
                assert(path@ =~= proof.siblings@);
            },
            Err(_) => {},
        }
        path
    }

    /// The root of the tree.
    pub fn current_anchor(&self) -> (r: B256)
        requires
            self.wf(),
        ensures
            r == anchor_of(self@),
    {
        proof {
            lemma_same_leaves(self.root_tree.leaves(), root_leaves(self@), 28, 0);
        }
        self.current_anchor
    }

    /// Sets the root of the block at a position. Returns the anchor after it.
    pub fn insert_block_root(&mut self, tree_index: u64, block_root: B256) -> (r: B256)
        requires
            old(self).wf(),
            tree_index <= Self::MAX_TREE_INDEX,
        ensures
            final(self).wf(),
            final(self)@ == old(self)@.insert(tree_index, block_root),
            r == anchor_of(final(self)@),
    {
        proof {
            lemma2_to64();
        }
        let ghost before = *self;
        self.root_tree.set_leaf(tree_index as usize, block_root);
        self.current_anchor = self.root_tree.root();
        self.block_roots.insert(tree_index, block_root);
        assert forall|i: int|
            leaf_of(self.root_tree.leaves(), i) == #[trigger] leaf_of(root_leaves(self@), i) by {
            assert(leaf_of(before.root_tree.leaves(), i) == leaf_of(root_leaves(before@), i));
        }
        assert forall|k: u64| #[trigger] self@.contains_key(k) implies k <= Self::MAX_TREE_INDEX by {
            assert(k == tree_index || before@.contains_key(k));
        }
        self.current_anchor()
    }

    /// Takes out the root of the block at a position, where there is one.
    pub fn remove_block_root(&mut self, tree_index: u64)
        requires
            old(self).wf(),
        ensures
            final(self).wf(),
            final(self)@ == old(self)@.remove(tree_index),
    {
        proof {
            lemma2_to64();
        }
        let ghost before = *self;
        match self.block_roots.remove(&tree_index) {
            Some(_) => {
                assert(before@.contains_key(tree_index));
                self.root_tree.set_leaf(tree_index as usize, B256::zero());
                self.current_anchor = self.root_tree.root();
                assert forall|i: int|
                    leaf_of(self.root_tree.leaves(), i) == #[trigger] leaf_of(
                        root_leaves(self@),
                        i,
                    ) by {
                    assert(leaf_of(before.root_tree.leaves(), i) == leaf_of(
                        root_leaves(before@),
                        i,
                    ));
                }
                assert forall|k: u64| #[trigger] self@.contains_key(k) implies k
                    <= Self::MAX_TREE_INDEX by {
                    assert(before@.contains_key(k));
                }
            },
            None => {
                assert(before@.remove(tree_index) =~= before@);
            },
        }
    }

    /// All positions and roots, in no particular order.
    pub fn block_roots(&self) -> (r: Vec<(u64, B256)>)
        ensures
            r@.len() == self@.len(),
            forall|i: int|
                0 <= i < r@.len() ==> self@.contains_key((#[trigger] r@[i]).0) && self@[r@[i].0]
                    == r@[i].1,
            forall|i: int, j: int| 0 <= i < j < r@.len() ==> (#[trigger] r@[i]).0 != (
            #[trigger] r@[j]).0,
            forall|k: u64| #[trigger]
                self@.contains_key(k) ==> exists|i: int| 0 <= i < r@.len() && (#[trigger] r@[i]).0
                    == k,
    {
        let mut list: Vec<(u64, B256)> = Vec::new();
        for entry in it: self.block_roots.iter()
            invariant
                it.seq().len() == self@.len(),
                it.seq().no_duplicates(),
                forall|i: int|
                    0 <= i < it.seq().len() ==> self@.contains_key(*(#[trigger] it.seq()[i]).0)
                        && self@[*it.seq()[i].0] == *it.seq()[i].1,
                forall|k: u64| #[trigger]
                    self@.contains_key(k) ==> it.seq().contains((&k, &self@[k])),
                list@.len() == it.index(),
                forall|i: int|
                    #![trigger list@[i]]
                    #![trigger it.seq()[i]]
                    0 <= i < list@.len() ==> list@[i].0 == *it.seq()[i].0 && list@[i].1
                        == *it.seq()[i].1,
        {
            list.push((*entry.0, *entry.1));
        }
        list
    }

    /// Number of blocks tracked.
    pub fn block_count(&self) -> (r: usize)
        ensures
            r == self@.len(),
    {
        self.block_roots.len()
    }

    /// The anchor that would follow if the root of the block at a position were set.
    pub fn compute_anchor_for_block(&self, tree_index: u64, block_root: B256) -> (r: B256)
        requires
            self.wf(),
            tree_index <= Self::MAX_TREE_INDEX,
        ensures
            r == anchor_of(self@.insert(tree_index, block_root)),
    {
        let root_path = self.get_root_path_for_index(tree_index);
        proof {
            lemma2_to64();
            law_path_leads_to_root(root_leaves(self@), 28, tree_index as int, block_root);
            lemma_same_leaves(
                root_leaves(self@).insert(tree_index as int, block_root),
                root_leaves(self@.insert(tree_index, block_root)),
                28,
                0,
            );
        }
        compute_anchor_from_path(block_root, tree_index, &root_path)
    }
}

impl Default for RootTreeTracker {
    fn default() -> (r: Self)
        ensures
            r.wf(),
            r@ == Map::<u64, B256>::empty(),
    {
        Self::new()
    }
}

/// The anchor of a chain without blocks is the root of the empty tree.
pub proof fn law_genesis_anchor()
    ensures
        anchor_of(Map::empty()) == zero_hash(28),
{
    assert(root_leaves(Map::empty()) =~= Map::empty());
    lemma_node_empty(28, 0);
}

/// Taking out a block root that was set at a free position gives the anchor back that
/// there was before.
pub proof fn law_remove_undoes_insert(blocks: Map<u64, B256>, tree_index: u64, block_root: B256)
    requires
        !blocks.contains_key(tree_index),
    ensures
        anchor_of(blocks.insert(tree_index, block_root).remove(tree_index)) == anchor_of(blocks),
{
    assert(blocks.insert(tree_index, block_root).remove(tree_index) =~= blocks);
}

/// The order in which blocks at different positions come in does not matter to the
/// anchor.
pub proof fn law_insertions_commute(blocks: Map<u64, B256>, i: u64, a: B256, j: u64, b: B256)
    requires
        i != j,
    ensures
        anchor_of(blocks.insert(i, a).insert(j, b)) == anchor_of(blocks.insert(j, b).insert(i, a)),
{
    assert(blocks.insert(i, a).insert(j, b) =~= blocks.insert(j, b).insert(i, a));
}

/// The siblings of a position lead from the block root there to the anchor, and from any
/// other root to the anchor that there would be with that root instead.
pub proof fn law_root_path(blocks: Map<u64, B256>, tree_index: u64, block_root: B256)
    requires
        tree_index <= RootTreeTracker::MAX_TREE_INDEX,
    ensures
        climb(block_root, tree_index as int, root_path_of(blocks, tree_index as int), 28)
            == anchor_of(blocks.insert(tree_index, block_root)),
        blocks.contains_key(tree_index) ==> climb(
            blocks[tree_index],
            tree_index as int,
            root_path_of(blocks, tree_index as int),
            28,
        ) == anchor_of(blocks),
{
    lemma2_to64();
    law_path_leads_to_root(root_leaves(blocks), 28, tree_index as int, block_root);
    lemma_same_leaves(
        root_leaves(blocks).insert(tree_index as int, block_root),
        root_leaves(blocks.insert(tree_index, block_root)),
        28,
        0,
    );
}

/// A chain that is restored from a list has, at each position, the root that the list gives last,
/// and nothing at a position that the list does not name.
pub proof fn law_restored_blocks(list: Seq<(u64, B256)>, position: u64)
    ensures
        forall|i: int|
            0 <= i < list.len() && list[i].0 == position && (forall|j: int|
                i < j < list.len() ==> (#[trigger] list[j]).0 != position) ==> blocks_of(
                list,
            ).contains_key(position) && blocks_of(list)[position] == (#[trigger] list[i]).1,
        blocks_of(list).contains_key(position) <==> exists|i: int|
            0 <= i < list.len() && (#[trigger] list[i]).0 == position,
    decreases list.len(),
{
    if list.len() > 0 {
        let front = list.drop_last();
        let n = list.len() - 1;
        law_restored_blocks(front, position);
        assert(list[n] == list.last());
        assert forall|i: int|
            0 <= i < list.len() && list[i].0 == position && (forall|j: int|
                i < j < list.len() ==> (#[trigger] list[j]).0 != position) implies blocks_of(
            list,
        ).contains_key(position) && blocks_of(list)[position] == (#[trigger] list[i]).1 by {
            if i < n {
                assert(front[i] == list[i]);
                assert(list[n].0 != position);
                assert forall|j: int| i < j < front.len() implies (#[trigger] front[j]).0
                    != position by {
                    assert(front[j] == list[j]);
                }
            }
        }
        if exists|i: int| 0 <= i < list.len() && (#[trigger] list[i]).0 == position {
            let i = choose|i: int| 0 <= i < list.len() && (#[trigger] list[i]).0 == position;
            if i < n {
                assert(front[i] == list[i]);
            }
        }
        if blocks_of(list).contains_key(position) && list.last().0 != position {
            let i = choose|i: int| 0 <= i < front.len() && (#[trigger] front[i]).0 == position;
            assert(list[i] == front[i]);
        }
    }
}

/// A block stands in the tree of block roots where its day and its place in the day say: 8192
/// positions to a day. No two blocks share one.
pub proof fn law_positions_of_days(
    list: Seq<(u16, u16, u64, B256, u32)>,
    i: int,
    j: int,
)
    requires
        0 <= i < list.len(),
        0 <= j < list.len(),
        list[i].1 < 8192,
        list[j].1 < 8192,
    ensures
        positions_of(list).len() == list.len(),
        positions_of(list)[i].0 == 8192 * list[i].0 + list[i].1,
        positions_of(list)[i].1 == list[i].3,
        positions_of(list)[i].0 == positions_of(list)[j].0 ==> list[i].0 == list[j].0 && list[i].1
            == list[j].1,
{
}

/// The anchor is the root of a tree of twenty-eight levels whose leaves are the block roots, each
/// at its position, and zero where there is no block.
pub proof fn law_anchor_is_root_over_blocks(blocks: Map<u64, B256>, leaves: Map<int, B256>)
    requires
        forall|k: u64| #[trigger]
            blocks.contains_key(k) ==> leaves.contains_key(k as int) && leaves[k as int] == blocks[k],
        forall|i: int| #[trigger]
            leaves.contains_key(i) ==> 0 <= i <= u64::MAX && blocks.contains_key(i as u64),
    ensures
        anchor_of(blocks) == tree_root(leaves, 28),
{
    assert forall|i: int| leaf_of(root_leaves(blocks), i) == leaf_of(leaves, i) by {
        if 0 <= i <= u64::MAX && blocks.contains_key(i as u64) {
            assert(leaves.contains_key((i as u64) as int));
        }
        if leaves.contains_key(i) {
            assert(blocks.contains_key(i as u64));
        }
    }
    lemma_same_leaves(root_leaves(blocks), leaves, 28, 0);
}

} // verus!
